//! The bytes that carry meaning in JSON text.

use vstd::prelude::*;

verus! {

pub const TAB: u8 = 0x09;

pub const LINE_FEED: u8 = 0x0A;

pub const CARRIAGE_RETURN: u8 = 0x0D;

pub const SPACE: u8 = 0x20;

pub const DOUBLE_QUOTE: u8 = 0x22;

pub const PLUS: u8 = 0x2B;

pub const COMMA: u8 = 0x2C;

pub const MINUS: u8 = 0x2D;

pub const PERIOD: u8 = 0x2E;

pub const COLON: u8 = 0x3A;

pub const UPPERCASE_E: u8 = 0x45;

pub const LEFT_SQUARE_BRACKET: u8 = 0x5B;

pub const BACKSLASH: u8 = 0x5C;

pub const RIGHT_SQUARE_BRACKET: u8 = 0x5D;

pub const LOWERCASE_E: u8 = 0x65;

pub const LEFT_CURLY_BRACKET: u8 = 0x7B;

pub const RIGHT_CURLY_BRACKET: u8 = 0x7D;

/// The keyword `true`.
pub const TRUE: [u8; 4] = [0x74, 0x72, 0x75, 0x65];

/// The keyword `false`.
pub const FALSE: [u8; 5] = [0x66, 0x61, 0x6C, 0x73, 0x65];

/// The keyword `null`.
pub const NULL: [u8; 4] = [0x6E, 0x75, 0x6C, 0x6C];

} // verus!
