//! One scalar value at a time: how wide its UTF-8 encoding is, how it is
//! read from a buffer and how it is written into one.
//!
//! The encoding itself is the one `vstd::utf8` defines; the functions here
//! are proved against it.

use vstd::prelude::*;
use vstd::utf8::{
    codepoint_width_1, codepoint_width_2, codepoint_width_3, decode_first_scalar, decode_utf8,
    decode_utf8_first_scalar, encode_scalar, encode_utf8, is_scalar, length_of_first_scalar,
    valid_utf8,
};

verus! {

/// `char::from_u32` of the standard library: the character with the scalar
/// value `i`, and `None` exactly where `i` is no scalar value (a surrogate, or
/// beyond the last code point).
pub assume_specification[ char::from_u32 ](i: u32) -> (r: Option<char>)
    ensures
        r == if is_scalar(i) {
            Some(i as char)
        } else {
            None::<char>
        },
;

/// `core::str::from_utf8` of the standard library, asked only whether it
/// accepts: it does exactly where `bytes` is well-formed UTF-8.
#[verifier::external_body]
pub(crate) fn is_utf8(bytes: &[u8]) -> (r: bool)
    ensures
        r == valid_utf8(bytes@),
{
    core::str::from_utf8(bytes).is_ok()
}

/// The number of bytes that encode `c`.
pub open spec fn width(c: char) -> int {
    encode_scalar(c as u32).len() as int
}

/// Tells how many bytes encode `c`: one to four.
pub fn len_utf8(c: char) -> (r: usize)
    ensures
        r == width(c),
        1 <= r <= 4,
{
    let v = c as u32;
    if v < 0x80 {
        1
    } else if v < 0x800 {
        2
    } else if v < 0x10000 {
        3
    } else {
        4
    }
}

/// Writes the encoding of `c` into `buffer` from `index` on and tells how
/// many bytes it took. Every other byte of `buffer` stays as it was.
pub fn write_char_at(buffer: &mut [u8], index: usize, c: char) -> (r: usize)
    requires
        index + width(c) <= old(buffer)@.len(),
    ensures
        r == width(c),
        final(buffer)@ == old(buffer)@.subrange(0, index as int) + encode_scalar(c as u32)
            + old(buffer)@.subrange(index + r, old(buffer)@.len() as int),
{
    let v = c as u32;
    if v < 0x80 {
        assert(v & 0x7F < 0x100) by (bit_vector);
        buffer[index] = (v & 0x7F) as u8;
        assert(buffer@ =~= old(buffer)@.subrange(0, index as int) + encode_scalar(v) + old(
            buffer,
        )@.subrange(index + 1, old(buffer)@.len() as int));
        1
    } else if v < 0x800 {
        assert((v >> 6) & 0x1F < 0x100 && v & 0x3F < 0x100) by (bit_vector);
        buffer[index] = 0xC0 | ((v >> 6) & 0x1F) as u8;
        buffer[index + 1] = 0x80 | (v & 0x3F) as u8;
        assert(buffer@ =~= old(buffer)@.subrange(0, index as int) + encode_scalar(v) + old(
            buffer,
        )@.subrange(index + 2, old(buffer)@.len() as int));
        2
    } else if v < 0x10000 {
        assert((v >> 12) & 0x0F < 0x100 && (v >> 6) & 0x3F < 0x100 && v & 0x3F < 0x100)
            by (bit_vector);
        buffer[index] = 0xE0 | ((v >> 12) & 0x0F) as u8;
        buffer[index + 1] = 0x80 | ((v >> 6) & 0x3F) as u8;
        buffer[index + 2] = 0x80 | (v & 0x3F) as u8;
        assert(buffer@ =~= old(buffer)@.subrange(0, index as int) + encode_scalar(v) + old(
            buffer,
        )@.subrange(index + 3, old(buffer)@.len() as int));
        3
    } else {
        assert((v >> 18) & 0x7 < 0x100 && (v >> 12) & 0x3F < 0x100 && (v >> 6) & 0x3F < 0x100 && v
            & 0x3F < 0x100) by (bit_vector);
        buffer[index] = 0xF0 | ((v >> 18) & 0x7) as u8;
        buffer[index + 1] = 0x80 | ((v >> 12) & 0x3F) as u8;
        buffer[index + 2] = 0x80 | ((v >> 6) & 0x3F) as u8;
        buffer[index + 3] = 0x80 | (v & 0x3F) as u8;
        assert(buffer@ =~= old(buffer)@.subrange(0, index as int) + encode_scalar(v) + old(
            buffer,
        )@.subrange(index + 4, old(buffer)@.len() as int));
        4
    }
}

proof fn lemma_one_byte_range(b1: u8)
    by (bit_vector)
    requires
        b1 <= 0x7f,
    ensures
        codepoint_width_1(b1) == b1 as u32,
{
}

proof fn lemma_two_byte_range(b1: u8, b2: u8)
    by (bit_vector)
    requires
        0xc0 <= b1 <= 0xdf,
        0x80 <= b2 <= 0xbf,
    ensures
        codepoint_width_2(b1, b2) <= 0x7ff,
{
}

proof fn lemma_three_byte_range(b1: u8, b2: u8, b3: u8)
    by (bit_vector)
    requires
        0xe0 <= b1 <= 0xef,
        0x80 <= b2 <= 0xbf,
        0x80 <= b3 <= 0xbf,
    ensures
        codepoint_width_3(b1, b2, b3) <= 0xffff,
{
}

/// What well-formed text begins with: one scalar value `c`, encoded in
/// `width(c)` bytes, and after it well-formed text again. A one-byte
/// encoding is the byte itself; a longer one encodes no value under 0x80.
pub proof fn lemma_first_char(bytes: Seq<u8>)
    requires
        valid_utf8(bytes),
        bytes.len() > 0,
    ensures
        ({
            let v = decode_first_scalar(bytes);
            let k = length_of_first_scalar(bytes);
            let rest = bytes.subrange(k, bytes.len() as int);
            &&& is_scalar(v)
            &&& (v as char) as u32 == v
            &&& 1 <= k <= bytes.len()
            &&& k == width(v as char)
            &&& bytes.subrange(0, k) == encode_scalar(v)
            &&& valid_utf8(rest)
            &&& decode_utf8(bytes) == seq![v as char] + decode_utf8(rest)
            &&& bytes[0] < 0x80 ==> v == bytes[0] && k == 1
            &&& bytes[0] >= 0x80 ==> v >= 0x80 && k >= 2
            &&& forall|i: int| 1 <= i < k ==> 0x80 <= #[trigger] bytes[i] <= 0xbf
        }),
{
    let v = decode_first_scalar(bytes);
    if bytes[0] <= 0x7f {
        lemma_one_byte_range(bytes[0]);
    } else if bytes[0] <= 0xdf {
        lemma_two_byte_range(bytes[0], bytes[1]);
    } else if bytes[0] <= 0xef {
        lemma_three_byte_range(bytes[0], bytes[1], bytes[2]);
    }
    assert(is_scalar(v));
    decode_utf8_first_scalar(bytes);
}

/// A text has no more characters than bytes.
pub proof fn lemma_chars_within_bytes(bytes: Seq<u8>)
    requires
        valid_utf8(bytes),
    ensures
        decode_utf8(bytes).len() <= bytes.len(),
    decreases bytes.len(),
{
    if bytes.len() > 0 {
        lemma_first_char(bytes);
        let k = length_of_first_scalar(bytes);
        lemma_chars_within_bytes(bytes.subrange(k, bytes.len() as int));
    }
}

/// Encoding a text and one more character is encoding the text and then the
/// character.
pub proof fn lemma_encode_push(chars: Seq<char>, c: char)
    ensures
        encode_utf8(chars.push(c)) == encode_utf8(chars) + encode_scalar(c as u32),
    decreases chars.len(),
{
    if chars.len() == 0 {
        assert(chars.push(c).drop_first() =~= Seq::<char>::empty());
        assert(encode_utf8(chars.push(c)) =~= encode_scalar(c as u32) + encode_utf8(
            Seq::<char>::empty(),
        ));
        assert(encode_utf8(chars) + encode_scalar(c as u32) =~= encode_scalar(c as u32));
    } else {
        lemma_encode_push(chars.drop_first(), c);
        assert(chars.push(c).drop_first() =~= chars.drop_first().push(c));
        assert(encode_utf8(chars.push(c)) =~= encode_scalar(chars[0] as u32) + (encode_utf8(
            chars.drop_first(),
        ) + encode_scalar(c as u32)));
    }
}

} // verus!
