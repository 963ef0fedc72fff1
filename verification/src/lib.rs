//! A zero-copy lexer for JSON text.
//!
//! The caller owns one mutable byte buffer. A [`tokenizer::Tokenizer`] walks it
//! front to back and hands out tokens that borrow disjoint pieces of that same
//! buffer; [`number::parse_number`] reads a number token's text and
//! [`string::decode_string`] rewrites a string token's escape sequences in
//! place. Nothing is allocated.
//!
//! Every function carries a contract, stated over sequences of bytes and of
//! characters, and Verus proves it. Two facts about the standard library are
//! taken on trust, both in [`encoding`]: when `core::str::from_utf8` accepts,
//! and what `char::from_u32` returns.

pub mod constants;
pub mod encoding;
pub mod number;
pub mod split;
pub mod string;
pub mod tokenizer;
