//! Decoding a string token's escape sequences in place.
//!
//! The token is the span that the tokenizer cut: an opening quote, the
//! content, a closing quote. Decoding rewrites the content from front to
//! back inside the same bytes. An escape sequence is never shorter than what
//! it stands for, so the place that is written never passes the place that
//! is read.

use crate::constants::{BACKSLASH, DOUBLE_QUOTE};
use crate::encoding::{
    is_utf8, lemma_chars_within_bytes, lemma_encode_push, lemma_first_char, len_utf8, width,
    write_char_at,
};
use vstd::prelude::*;
use vstd::slice::slice_subrange;
use vstd::utf8::{
    decode_first_scalar, decode_utf8, decode_utf8_encode_utf8, encode_scalar, encode_utf8,
    encode_utf8_valid_utf8, length_of_first_scalar, valid_utf8,
};

verus! {

/// Why a string token cannot be decoded.
#[derive(Clone, Copy, Debug, PartialEq, Eq, Structural)]
pub enum Error {
    /// `\u` is not followed by four hexadecimal digits.
    InvalidUnicodeSequence,
    /// A backslash is followed by a character that names no escape.
    InvalidEscapeChar,
    /// The token is not well-formed UTF-8, or a `\u` escape names a
    /// surrogate, which is no character.
    InvalidTextEncoding,
}

/// The character that the letter after a backslash stands for.
pub open spec fn simple_escape(c: char) -> Option<char> {
    if c == '"' || c == '\\' || c == '/' {
        Some(c)
    } else if c == 'b' {
        Some('\u{8}')
    } else if c == 'f' {
        Some('\u{c}')
    } else if c == 'n' {
        Some('\n')
    } else if c == 'r' {
        Some('\r')
    } else if c == 't' {
        Some('\t')
    } else {
        None
    }
}

/// The value of a hexadecimal digit, of either case.
pub open spec fn hex_value(digit: int) -> Option<int> {
    if 0x30 <= digit <= 0x39 {
        Some(digit - 0x30)
    } else if 0x41 <= digit <= 0x46 {
        Some(digit - 0x41 + 10)
    } else if 0x61 <= digit <= 0x66 {
        Some(digit - 0x61 + 10)
    } else {
        None
    }
}

/// The 16-bit code unit that four hexadecimal digits write.
pub open spec fn code_unit(d0: int, d1: int, d2: int, d3: int) -> Option<u32> {
    if hex_value(d0) is Some && hex_value(d1) is Some && hex_value(d2) is Some && hex_value(
        d3,
    ) is Some {
        Some(
            (0x1000 * hex_value(d0)->0 + 0x100 * hex_value(d1)->0 + 0x10 * hex_value(d2)->0
                + hex_value(d3)->0) as u32,
        )
    } else {
        None
    }
}

/// A code unit in the surrogate range stands for no character by itself.
pub open spec fn is_surrogate(unit: u32) -> bool {
    0xD800 <= unit <= 0xDFFF
}

/// The character that a `\u` escape stands for, given the code unit that
/// its four digits write, if they write one.
pub open spec fn unicode_escape(unit: Option<u32>) -> Result<char, Error> {
    match unit {
        None => Err(Error::InvalidUnicodeSequence),
        Some(unit) => if is_surrogate(unit) {
            Err(Error::InvalidTextEncoding)
        } else {
            Ok(unit as char)
        },
    }
}

/// The code unit that the four bytes of `sequence` write.
pub open spec fn sequence_unit(sequence: Seq<u8>) -> Option<u32> {
    if sequence.len() == 4 {
        code_unit(
            sequence[0] as int,
            sequence[1] as int,
            sequence[2] as int,
            sequence[3] as int,
        )
    } else {
        None
    }
}

/// `decoded` in front of what the rest decodes to; a failure in the rest is
/// the failure of the whole.
pub open spec fn prepend(decoded: Seq<char>, rest: Result<Seq<char>, Error>) -> Result<
    Seq<char>,
    Error,
> {
    match rest {
        Ok(text) => Ok(decoded + text),
        Err(e) => Err(e),
    }
}

/// The text that `text` decodes to, where `text` is a string's content and
/// the closing quote after it.
///
/// Reading stops at the last character, the closing quote. Before it, a
/// character other than a backslash stands for itself. A backslash and one of
/// `"` `\` `/` `b` `f` `n` `r` `t` stand for one character; a backslash, `u`
/// and four hexadecimal digits stand for the character with that code unit;
/// any other character after a backslash is an error. A backslash that ends
/// the content takes the closing quote as its escape character.
///
/// Each `\u` escape is read by itself. Two of them that would make a
/// surrogate pair are not joined: each names a surrogate, which is no
/// character, and the text fails at the first.
pub open spec fn unescape(text: Seq<char>) -> Result<Seq<char>, Error>
    decreases text.len(),
{
    if text.len() <= 1 {
        Ok(Seq::empty())
    } else if text[0] != '\\' {
        prepend(seq![text[0]], unescape(text.skip(1)))
    } else if let Some(c) = simple_escape(text[1]) {
        prepend(seq![c], unescape(text.skip(2)))
    } else if text[1] != 'u' {
        Err(Error::InvalidEscapeChar)
    } else if text.len() < 6 {
        Err(Error::InvalidUnicodeSequence)
    } else {
        match unicode_escape(
            code_unit(text[2] as int, text[3] as int, text[4] as int, text[5] as int),
        ) {
            Ok(c) => prepend(seq![c], unescape(text.skip(6))),
            Err(e) => Err(e),
        }
    }
}

/// The text that the string token `span` decodes to, or why it has none.
pub open spec fn decoded_text(span: Seq<u8>) -> Result<Seq<char>, Error> {
    if !valid_utf8(span) {
        Err(Error::InvalidTextEncoding)
    } else {
        unescape(decode_utf8(span.subrange(1, span.len() as int)))
    }
}

/// A string token as the tokenizer cuts it: a quote, the content, a quote.
pub open spec fn is_string_span(span: Seq<u8>) -> bool {
    span.len() >= 2 && span[0] == DOUBLE_QUOTE && span.last() == DOUBLE_QUOTE
}

/// No backslash stands between the quotes.
pub open spec fn is_escape_free(span: Seq<u8>) -> bool {
    forall|i: int| 1 <= i < span.len() - 1 ==> #[trigger] span[i] != BACKSLASH
}

/// What the token's bytes are once `span` is decoded in place: the opening
/// quote, the decoded text, and after it the bytes that were there before.
/// A span that cannot be decoded has no such bytes; it stands for itself
/// here.
pub open spec fn decoded_span(span: Seq<u8>) -> Seq<u8> {
    match decoded_text(span) {
        Ok(text) => span.subrange(0, 1) + encode_utf8(text) + span.subrange(
            1 + encode_utf8(text).len() as int,
            span.len() as int,
        ),
        Err(_) => span,
    }
}

/// Reads the scalar value that is encoded at `index`, in a buffer that holds
/// well-formed text from there on; `None` at the end of the buffer.
pub fn read_char_at(buffer: &[u8], index: usize) -> (r: Option<char>)
    requires
        index <= buffer@.len(),
        valid_utf8(buffer@.subrange(index as int, buffer@.len() as int)),
    ensures
        r == if index == buffer@.len() {
            None
        } else {
            Some(
                decode_first_scalar(buffer@.subrange(index as int, buffer@.len() as int)) as char,
            )
        },
{
    if index == buffer.len() {
        return None;
    }
    proof {
        lemma_first_char(buffer@.subrange(index as int, buffer@.len() as int));
    }
    let b0 = buffer[index];
    let value: u32 = if b0 < 0x80 {
        (b0 & 0x7F) as u32
    } else if b0 < 0xE0 {
        let b1 = buffer[index + 1];
        (((b0 & 0x1F) as u32) << 6) | (b1 & 0x3F) as u32
    } else if b0 < 0xF0 {
        let b1 = buffer[index + 1];
        let b2 = buffer[index + 2];
        (((b0 & 0x0F) as u32) << 12) | (((b1 & 0x3F) as u32) << 6) | (b2 & 0x3F) as u32
    } else {
        let b1 = buffer[index + 1];
        let b2 = buffer[index + 2];
        let b3 = buffer[index + 3];
        (((b0 & 0x07) as u32) << 18) | (((b1 & 0x3F) as u32) << 12) | (((b2 & 0x3F) as u32) << 6)
            | (b3 & 0x3F) as u32
    };
    char::from_u32(value)
}

/// The value of the hexadecimal digit `digit`, if it is one.
pub fn hex_digit(digit: u8) -> (r: Option<u32>)
    ensures
        match r {
            Some(v) => hex_value(digit as int) == Some(v as int) && v < 16,
            None => hex_value(digit as int) is None,
        },
{
    if 0x30 <= digit && digit <= 0x39 {
        Some((digit - 0x30) as u32)
    } else if 0x41 <= digit && digit <= 0x46 {
        Some((digit - 0x41 + 10) as u32)
    } else if 0x61 <= digit && digit <= 0x66 {
        Some((digit - 0x61 + 10) as u32)
    } else {
        None
    }
}

/// Reads the four bytes after `\u`: the character whose code unit they write
/// in hexadecimal digits. Bytes that are not four such digits are an invalid
/// sequence; a code unit in the surrogate range is no character.
pub fn decode_unicode_sequence(sequence: &[u8]) -> (r: Result<char, Error>)
    ensures
        r == unicode_escape(sequence_unit(sequence@)),
{
    if sequence.len() != 4 {
        return Err(Error::InvalidUnicodeSequence);
    }
    let d0 = hex_digit(sequence[0]);
    let d1 = hex_digit(sequence[1]);
    let d2 = hex_digit(sequence[2]);
    let d3 = hex_digit(sequence[3]);
    match (d0, d1, d2, d3) {
        (Some(d0), Some(d1), Some(d2), Some(d3)) => {
            let unit: u32 = 0x1000 * d0 + 0x100 * d1 + 0x10 * d2 + d3;
            match char::from_u32(unit) {
                Some(c) => Ok(c),
                None => Err(Error::InvalidTextEncoding),
            }
        },
        _ => Err(Error::InvalidUnicodeSequence),
    }
}

/// The character that the letter `c` after a backslash stands for, if it
/// names an escape.
pub fn escaped(c: char) -> (r: Option<char>)
    ensures
        r == simple_escape(c),
{
    match c {
        '"' => Some('"'),
        '\\' => Some('\\'),
        '/' => Some('/'),
        'b' => Some('\u{8}'),
        'f' => Some('\u{c}'),
        'n' => Some('\n'),
        'r' => Some('\r'),
        't' => Some('\t'),
        _ => None,
    }
}

proof fn lemma_prepend_twice(first: Seq<char>, second: Seq<char>, rest: Result<Seq<char>, Error>)
    ensures
        prepend(first, prepend(second, rest)) == prepend(first + second, rest),
{
    if let Ok(text) = rest {
        assert(first + (second + text) =~= (first + second) + text);
    }
}

/// A character that is no backslash, before the closing quote, stands for
/// itself, and its encoding ends before the closing quote.
proof fn lemma_unescape_plain(rest: Seq<u8>)
    requires
        valid_utf8(rest),
        rest.len() >= 2,
        rest.last() == DOUBLE_QUOTE,
        decode_first_scalar(rest) as char != '\\',
    ensures
        ({
            let c = decode_first_scalar(rest) as char;
            let k = length_of_first_scalar(rest);
            let after = rest.subrange(k, rest.len() as int);
            &&& 1 <= k <= rest.len() - 1
            &&& k == width(c)
            &&& rest.subrange(0, k) == encode_scalar(c as u32)
            &&& valid_utf8(after)
            &&& unescape(decode_utf8(rest)) == prepend(seq![c], unescape(decode_utf8(after)))
        }),
{
    let k = length_of_first_scalar(rest);
    let next = rest.subrange(k, rest.len() as int);
    lemma_first_char(rest);
    if k == rest.len() {
        assert(0x80 <= rest[k - 1]);
    }
    lemma_first_char(next);
    assert(decode_utf8(rest).skip(1) =~= decode_utf8(next));
}

/// A backslash is one byte and one character, and the text goes on after
/// it.
proof fn lemma_unescape_escape(rest: Seq<u8>)
    requires
        valid_utf8(rest),
        rest.len() >= 2,
        rest[0] == BACKSLASH || decode_first_scalar(rest) as char == '\\',
    ensures
        ({
            let after = rest.subrange(1, rest.len() as int);
            let k = length_of_first_scalar(after);
            let text = decode_utf8(rest);
            &&& rest[0] == BACKSLASH
            &&& valid_utf8(after)
            &&& text.len() >= 2
            &&& text[0] == '\\'
            &&& text[1] == decode_first_scalar(after) as char
            &&& k == width(text[1])
            &&& 1 + k <= rest.len()
            &&& after[0] < 0x80 ==> text[1] as u32 == after[0]
            &&& after[0] >= 0x80 ==> text[1] as u32 >= 0x80
            &&& valid_utf8(rest.subrange(1 + k, rest.len() as int))
            &&& text.skip(2) == decode_utf8(rest.subrange(1 + k, rest.len() as int))
        }),
{
    let after = rest.subrange(1, rest.len() as int);
    let k = length_of_first_scalar(after);
    lemma_first_char(rest);
    lemma_first_char(after);
    assert(after.subrange(k, after.len() as int) =~= rest.subrange(1 + k, rest.len() as int));
    assert(decode_utf8(rest).skip(2) =~= decode_utf8(rest.subrange(1 + k, rest.len() as int)));
}

/// Text that begins with `n` hexadecimal digits begins with them as
/// characters, one byte each.
proof fn lemma_hex_prefix(bytes: Seq<u8>, n: int)
    requires
        valid_utf8(bytes),
        0 <= n <= bytes.len(),
        forall|i: int| 0 <= i < n ==> hex_value(#[trigger] bytes[i] as int) is Some,
    ensures
        valid_utf8(bytes.subrange(n, bytes.len() as int)),
        decode_utf8(bytes).len() >= n,
        forall|i: int| 0 <= i < n ==> #[trigger] decode_utf8(bytes)[i] as int == bytes[i] as int,
        decode_utf8(bytes).skip(n) == decode_utf8(bytes.subrange(n, bytes.len() as int)),
    decreases n,
{
    if n == 0 {
        assert(bytes.subrange(0, bytes.len() as int) =~= bytes);
        assert(decode_utf8(bytes).skip(0) =~= decode_utf8(bytes));
    } else {
        let tail = bytes.subrange(1, bytes.len() as int);
        assert(hex_value(bytes[0] as int) is Some);
        lemma_first_char(bytes);
        assert forall|i: int| 0 <= i < n - 1 implies hex_value(
            #[trigger] tail[i] as int,
        ) is Some by {
            assert(tail[i] == bytes[i + 1]);
        }
        lemma_hex_prefix(tail, n - 1);
        assert(tail.subrange(n - 1, tail.len() as int) =~= bytes.subrange(n, bytes.len() as int));
        assert(decode_utf8(bytes).skip(n) =~= decode_utf8(tail).skip(n - 1));
        assert forall|i: int| 0 <= i < n implies #[trigger] decode_utf8(bytes)[i] as int
            == bytes[i] as int by {
            if i > 0 {
                assert(decode_utf8(bytes)[i] == decode_utf8(tail)[i - 1]);
                assert(tail[i - 1] == bytes[i]);
            }
        }
    }
}

/// The character that text begins with is a hexadecimal digit only where
/// its first byte is one.
proof fn lemma_not_hex(bytes: Seq<u8>)
    requires
        valid_utf8(bytes),
        bytes.len() > 0,
        hex_value(bytes[0] as int) is None,
    ensures
        decode_utf8(bytes).len() > 0,
        hex_value(decode_utf8(bytes)[0] as int) is None,
{
    lemma_first_char(bytes);
}

/// What `\u` and the bytes after it decode to: the four bytes are read as
/// they stand, and they are four hexadecimal digits exactly where the four
/// characters after `\u` are.
proof fn lemma_unescape_unicode(rest: Seq<u8>)
    requires
        valid_utf8(rest),
        rest.len() >= 2,
        rest[0] == BACKSLASH,
        rest[1] == 0x75,
    ensures
        rest.len() < 6 ==> unescape(decode_utf8(rest)) == Err::<Seq<char>, Error>(
            Error::InvalidUnicodeSequence,
        ),
        rest.len() >= 6 ==> valid_utf8(rest.subrange(6, rest.len() as int)) || sequence_unit(
            rest.subrange(2, 6),
        ) is None,
        rest.len() >= 6 ==> unescape(decode_utf8(rest)) == match unicode_escape(
            sequence_unit(rest.subrange(2, 6)),
        ) {
            Ok(c) => prepend(seq![c], unescape(decode_utf8(rest.subrange(6, rest.len() as int)))),
            Err(e) => Err(e),
        },
{
    let text = decode_utf8(rest);
    let digits = rest.subrange(2, rest.len() as int);
    lemma_unescape_escape(rest);
    assert(text[1] == 'u');
    assert(text.skip(2) == decode_utf8(digits));
    lemma_chars_within_bytes(rest);
    if rest.len() >= 6 {
        let n: int = if hex_value(digits[0] as int) is None {
            0
        } else if hex_value(digits[1] as int) is None {
            1
        } else if hex_value(digits[2] as int) is None {
            2
        } else if hex_value(digits[3] as int) is None {
            3
        } else {
            4
        };
        lemma_hex_prefix(digits, n);
        let tail = digits.subrange(n, digits.len() as int);
        assert forall|i: int| 0 <= i < decode_utf8(digits).len() implies text[i + 2]
            == #[trigger] decode_utf8(digits)[i] by {
            assert(text.skip(2)[i] == text[i + 2]);
        }
        if n < 4 {
            lemma_not_hex(tail);
            assert(decode_utf8(digits).skip(n)[0] == decode_utf8(digits)[n]);
            if text.len() >= 6 {
                assert(hex_value(text[n + 2] as int) is None);
            }
        } else {
            assert(tail =~= rest.subrange(6, rest.len() as int));
            assert(text.skip(6) =~= decode_utf8(digits).skip(4));
            assert(text[2] == decode_utf8(digits)[0] && text[3] == decode_utf8(digits)[1]);
            assert(text[4] == decode_utf8(digits)[2] && text[5] == decode_utf8(digits)[3]);
        }
    }
}

/// Where decoding stands: `span` is the token as it was given, `buffer` what
/// it holds now; the text from `read` on is yet to be read, `out` has been
/// decoded from what was read and stands encoded in `buffer` up to `write`.
/// From `write` on `buffer` holds what `span` held.
pub open spec fn decoding(
    span: Seq<u8>,
    buffer: Seq<u8>,
    out: Seq<char>,
    write: int,
    read: int,
) -> bool {
    let len = span.len() as int;
    &&& valid_utf8(span)
    &&& len >= 2
    &&& span[len - 1] == DOUBLE_QUOTE
    &&& buffer.len() == len
    &&& 1 <= write <= read <= len
    &&& read <= len - 1 || write < read
    &&& valid_utf8(span.subrange(read, len))
    &&& write == 1 + encode_utf8(out).len()
    &&& buffer == span.subrange(0, 1) + encode_utf8(out) + span.subrange(write, len)
    &&& unescape(decode_utf8(span.subrange(1, len))) == prepend(
        out,
        unescape(decode_utf8(span.subrange(read, len))),
    )
}

/// Decoding starts right after the opening quote, with nothing decoded.
proof fn lemma_decoding_starts(span: Seq<u8>)
    requires
        valid_utf8(span),
        span.len() >= 2,
        span[0] == DOUBLE_QUOTE,
        span.last() == DOUBLE_QUOTE,
    ensures
        decoding(span, span, Seq::empty(), 1, 1),
{
    let len = span.len() as int;
    lemma_first_char(span);
    assert(span =~= span.subrange(0, 1) + encode_utf8(Seq::<char>::empty()) + span.subrange(
        1,
        len,
    ));
    assert(Seq::<char>::empty() + decode_utf8(span.subrange(1, len)) =~= decode_utf8(
        span.subrange(1, len),
    ));
    if let Ok(text) = unescape(decode_utf8(span.subrange(1, len))) {
        assert(Seq::<char>::empty() + text =~= text);
    }
}

/// What is yet to be read is still what the token held there.
proof fn lemma_decoding_unread(
    span: Seq<u8>,
    buffer: Seq<u8>,
    out: Seq<char>,
    write: int,
    read: int,
    from: int,
    to: int,
)
    requires
        decoding(span, buffer, out, write, read),
        read <= from <= to <= span.len(),
    ensures
        buffer.subrange(from, to) == span.subrange(from, to),
{
    assert(buffer.subrange(from, to) =~= span.subrange(from, to));
}

/// One step of decoding: the text at `read` begins with `consumed` bytes
/// that stand for `c`, and `c` is written at `write`.
proof fn lemma_decoding_step(
    span: Seq<u8>,
    before: Seq<u8>,
    after: Seq<u8>,
    out: Seq<char>,
    write: int,
    read: int,
    c: char,
    consumed: int,
)
    requires
        decoding(span, before, out, write, read),
        read < span.len() - 1,
        read + consumed <= span.len(),
        width(c) <= consumed,
        read + consumed <= span.len() - 1 || width(c) < consumed,
        valid_utf8(span.subrange(read + consumed, span.len() as int)),
        unescape(decode_utf8(span.subrange(read, span.len() as int))) == prepend(
            seq![c],
            unescape(decode_utf8(span.subrange(read + consumed, span.len() as int))),
        ),
        after == before.subrange(0, write) + encode_scalar(c as u32) + before.subrange(
            write + width(c),
            span.len() as int,
        ),
    ensures
        decoding(span, after, out.push(c), write + width(c), read + consumed),
{
    let len = span.len() as int;
    lemma_encode_push(out, c);
    lemma_prepend_twice(out, seq![c], unescape(decode_utf8(span.subrange(read + consumed, len))));
    assert(out + seq![c] =~= out.push(c));
    assert(after =~= span.subrange(0, 1) + encode_utf8(out.push(c)) + span.subrange(
        write + width(c),
        len,
    ));
}

/// Where the place that is written has not fallen behind, a character that
/// stands for itself is already where it belongs.
proof fn lemma_decoding_in_place(
    span: Seq<u8>,
    buffer: Seq<u8>,
    out: Seq<char>,
    at: int,
    c: char,
)
    requires
        decoding(span, buffer, out, at, at),
        at + width(c) <= span.len(),
        span.subrange(at, at + width(c)) == encode_scalar(c as u32),
    ensures
        buffer == buffer.subrange(0, at) + encode_scalar(c as u32) + buffer.subrange(
            at + width(c),
            span.len() as int,
        ),
{
    assert(buffer.subrange(at, at + width(c)) =~= span.subrange(at, at + width(c)));
    assert(buffer =~= buffer.subrange(0, at) + buffer.subrange(at, at + width(c))
        + buffer.subrange(at + width(c), span.len() as int));
}

/// When the closing quote is reached, or an escape has taken it, all of the
/// text is decoded.
proof fn lemma_decoding_ends(span: Seq<u8>, buffer: Seq<u8>, out: Seq<char>, write: int, read: int)
    requires
        decoding(span, buffer, out, write, read),
        read >= span.len() - 1,
    ensures
        decoded_text(span) == Ok::<Seq<char>, Error>(out),
        write - 1 <= span.len() - 2,
{
    let rest = span.subrange(read, span.len() as int);
    lemma_chars_within_bytes(rest);
    assert(out + Seq::<char>::empty() =~= out);
}

/// Text without a backslash before its closing quote decodes to itself.
proof fn lemma_unescape_escape_free(rest: Seq<u8>)
    requires
        valid_utf8(rest),
        rest.len() >= 1,
        rest.last() == DOUBLE_QUOTE,
        forall|i: int| 0 <= i < rest.len() - 1 ==> #[trigger] rest[i] != BACKSLASH,
    ensures
        valid_utf8(rest.subrange(0, rest.len() - 1)),
        unescape(decode_utf8(rest)) == Ok::<Seq<char>, Error>(
            decode_utf8(rest.subrange(0, rest.len() - 1)),
        ),
    decreases rest.len(),
{
    let len = rest.len() as int;
    let content = rest.subrange(0, len - 1);
    lemma_first_char(rest);
    if len == 1 {
        assert(decode_utf8(rest.subrange(1, 1)) =~= Seq::<char>::empty());
        assert(decode_utf8(rest).len() == 1);
    } else {
        let c = decode_first_scalar(rest) as char;
        let k = length_of_first_scalar(rest);
        let next = rest.subrange(k, len);
        assert(rest[0] != BACKSLASH);
        lemma_unescape_plain(rest);
        assert forall|i: int| 0 <= i < next.len() - 1 implies #[trigger] next[i] != BACKSLASH by {
            assert(next[i] == rest[i + k]);
        }
        lemma_unescape_escape_free(next);
        assert(next.subrange(0, next.len() - 1) =~= content.subrange(k, content.len() as int));
        assert(forall|i: int| 0 <= i < k ==> content[i] == rest[i]);
        assert(valid_utf8(content));
        lemma_first_char(content);
        assert(seq![c] + decode_utf8(content.subrange(k, content.len() as int)) =~= decode_utf8(
            content,
        ));
    }
}

/// A string token without a backslash decodes to its own content, byte for
/// byte: decoding leaves the token as it is, and the decoded text is what
/// stands between the quotes.
pub proof fn lemma_escape_free_decodes_to_content(span: Seq<u8>)
    requires
        is_string_span(span),
        is_escape_free(span),
        valid_utf8(span),
    ensures
        decoded_text(span) matches Ok(text) && encode_utf8(text) == span.subrange(
            1,
            span.len() - 1,
        ),
        decoded_span(span) == span,
{
    let len = span.len() as int;
    let rest = span.subrange(1, len);
    lemma_first_char(span);
    assert forall|i: int| 0 <= i < rest.len() - 1 implies #[trigger] rest[i] != BACKSLASH by {
        assert(rest[i] == span[i + 1]);
    }
    lemma_unescape_escape_free(rest);
    assert(rest.subrange(0, rest.len() - 1) =~= span.subrange(1, len - 1));
    decode_utf8_encode_utf8(span.subrange(1, len - 1));
    assert(span.subrange(0, 1) + span.subrange(1, len - 1) + span.subrange(len - 1, len) =~= span);
}

/// Decoding is idempotent on text that holds no escape: what decoding
/// leaves behind decodes to the same text again and is left as it is again.
pub proof fn lemma_decoding_is_idempotent(span: Seq<u8>)
    requires
        is_string_span(span),
        is_escape_free(span),
    ensures
        decoded_span(span) == span,
        decoded_span(decoded_span(span)) == decoded_span(span),
        decoded_text(decoded_span(span)) == decoded_text(span),
{
    if valid_utf8(span) {
        lemma_escape_free_decodes_to_content(span);
    }
}

/// How one step relates to the whole: `c` stands for the first `consumed`
/// bytes of `rest`, and the text goes on after them; or the text fails
/// here.
pub open spec fn is_decoded_char(rest: Seq<u8>, r: Result<(char, usize), Error>) -> bool {
    match r {
        Ok((c, consumed)) => {
            let after = rest.subrange(consumed as int, rest.len() as int);
            &&& width(c) <= consumed <= rest.len()
            &&& consumed <= rest.len() - 1 || width(c) < consumed
            &&& width(c) == consumed ==> rest.subrange(0, consumed as int) == encode_scalar(
                c as u32,
            )
            &&& valid_utf8(after)
            &&& unescape(decode_utf8(rest)) == prepend(seq![c], unescape(decode_utf8(after)))
        },
        Err(e) => unescape(decode_utf8(rest)) == Err::<Seq<char>, Error>(e),
    }
}

/// What the escape sequence at the front of `rest` stands for and how many
/// bytes it takes, or why it is none.
pub open spec fn escape_outcome(rest: Seq<u8>) -> Result<(char, usize), Error> {
    let next = decode_first_scalar(rest.subrange(1, rest.len() as int)) as char;
    if next == 'u' {
        if rest.len() < 6 {
            Err(Error::InvalidUnicodeSequence)
        } else {
            match unicode_escape(sequence_unit(rest.subrange(2, 6))) {
                Ok(c) => Ok((c, 6usize)),
                Err(e) => Err(e),
            }
        }
    } else {
        match simple_escape(next) {
            Some(c) => Ok((c, 2usize)),
            None => Err(Error::InvalidEscapeChar),
        }
    }
}

/// What stands at the front of `rest`, a character or an escape sequence:
/// the character that it stands for and how many bytes it takes, or why it
/// stands for none.
pub open spec fn char_outcome(rest: Seq<u8>) -> Result<(char, usize), Error> {
    if decode_first_scalar(rest) as char == '\\' {
        escape_outcome(rest)
    } else {
        Ok((decode_first_scalar(rest) as char, length_of_first_scalar(rest) as usize))
    }
}

/// An escape sequence, read byte by byte as `escape_outcome` does, stands
/// for what the text says.
proof fn lemma_escape_outcome(rest: Seq<u8>)
    requires
        valid_utf8(rest),
        rest.len() >= 2,
        rest[0] == BACKSLASH,
    ensures
        valid_utf8(rest.subrange(1, rest.len() as int)),
        is_decoded_char(rest, escape_outcome(rest)),
{
    let text = decode_utf8(rest);
    lemma_unescape_escape(rest);
    if text[1] == 'u' {
        lemma_unescape_unicode(rest);
    }
}

/// Reads the escape sequence whose backslash stands at `index`: the
/// character that it stands for, and how many bytes it takes.
pub fn decode_escape_at(buffer: &[u8], index: usize) -> (r: Result<(char, usize), Error>)
    requires
        index + 2 <= buffer@.len(),
        buffer@[index as int] == BACKSLASH,
        valid_utf8(buffer@.subrange(index as int, buffer@.len() as int)),
    ensures
        r == escape_outcome(buffer@.subrange(index as int, buffer@.len() as int)),
        is_decoded_char(buffer@.subrange(index as int, buffer@.len() as int), r),
{
    let len = buffer.len();
    let ghost rest = buffer@.subrange(index as int, len as int);
    proof {
        lemma_escape_outcome(rest);
        assert(rest.subrange(1, rest.len() as int) =~= buffer@.subrange(index + 1, len as int));
    }
    let next_chr = read_char_at(buffer, index + 1).unwrap();
    if next_chr == 'u' {
        if len - index < 6 {
            return Err(Error::InvalidUnicodeSequence);
        }
        assert(rest.subrange(2, 6) =~= buffer@.subrange(index + 2, index + 6));
        match decode_unicode_sequence(slice_subrange(buffer, index + 2, index + 6)) {
            Ok(c) => Ok((c, 6)),
            Err(e) => Err(e),
        }
    } else {
        match escaped(next_chr) {
            Some(c) => Ok((c, 2)),
            None => Err(Error::InvalidEscapeChar),
        }
    }
}

/// Reads what stands at `index`, before the closing quote: a character, or
/// a backslash and the escape after it. Tells the character that it stands
/// for and how many bytes were read. A character that stands for itself is
/// read in as many bytes as encode it; an escape sequence in more.
pub fn decode_char_at(buffer: &[u8], index: usize) -> (r: Result<(char, usize), Error>)
    requires
        index + 2 <= buffer@.len(),
        buffer@.last() == DOUBLE_QUOTE,
        valid_utf8(buffer@.subrange(index as int, buffer@.len() as int)),
    ensures
        r == char_outcome(buffer@.subrange(index as int, buffer@.len() as int)),
        is_decoded_char(buffer@.subrange(index as int, buffer@.len() as int), r),
{
    let ghost rest = buffer@.subrange(index as int, buffer@.len() as int);
    let chr = read_char_at(buffer, index).unwrap();
    if chr == '\\' {
        proof {
            lemma_unescape_escape(rest);
        }
        decode_escape_at(buffer, index)
    } else {
        proof {
            lemma_unescape_plain(rest);
        }
        Ok((chr, len_utf8(chr)))
    }
}

/// Decodes the string token `token` in place and tells how many bytes the
/// decoded text takes. The text then stands right after the opening quote,
/// at `1..1 + n`, encoded as UTF-8; the bytes after it are what they were and
/// are stale. A token without a backslash is not written to at all.
///
/// The token must be a whole span, quotes included. It fails where the span
/// is not well-formed UTF-8 and where an escape sequence is not one; what the
/// buffer then holds is of no use.
pub fn decode_string(token: &mut [u8]) -> (r: Result<usize, Error>)
    requires
        is_string_span(old(token)@),
    ensures
        final(token)@.len() == old(token)@.len(),
        match r {
            Ok(n) => {
                &&& decoded_text(old(token)@) matches Ok(text)
                &&& n == encode_utf8(text).len()
                &&& n <= old(token)@.len() - 2
                &&& final(token)@.subrange(1, 1 + n) == encode_utf8(text)
                &&& valid_utf8(final(token)@.subrange(1, 1 + n))
                &&& final(token)@ == decoded_span(old(token)@)
            },
            Err(e) => decoded_text(old(token)@) == Err::<Seq<char>, Error>(e),
        },
        is_escape_free(old(token)@) ==> {
            &&& final(token)@ == old(token)@
            &&& valid_utf8(old(token)@) ==> r == Ok::<usize, Error>(
                (old(token)@.len() - 2) as usize,
            )
        },
{
    proof {
        if valid_utf8(token@) && is_escape_free(token@) {
            lemma_escape_free_decodes_to_content(token@);
        }
    }
    if !is_utf8(token) {
        return Err(Error::InvalidTextEncoding);
    }
    let len = token.len();
    let ghost span = token@;
    let ghost mut out: Seq<char> = Seq::empty();
    let mut write_idx: usize = 1;
    let mut read_idx: usize = 1;
    proof {
        lemma_decoding_starts(span);
    }
    while read_idx < len - 1
        invariant
            span == old(token)@,
            len == span.len() == token@.len(),
            decoding(span, token@, out, write_idx as int, read_idx as int),
            is_escape_free(span) ==> decoded_span(span) == span && decoded_text(span) is Ok,
        decreases len - read_idx,
    {
        let ghost before = token@;
        proof {
            lemma_decoding_unread(
                span,
                before,
                out,
                write_idx as int,
                read_idx as int,
                read_idx as int,
                len as int,
            );
        }
        let (chr, bytes_read) = match decode_char_at(token, read_idx) {
            Ok(read) => read,
            Err(e) => {
                return Err(e);
            },
        };
        let bytes_written = len_utf8(chr);
        proof {
            let rest = span.subrange(read_idx as int, len as int);
            assert(rest.subrange(bytes_read as int, rest.len() as int) =~= span.subrange(
                read_idx + bytes_read,
                len as int,
            ));
            assert(rest.subrange(0, bytes_read as int) =~= span.subrange(
                read_idx as int,
                read_idx + bytes_read,
            ));
        }
        if read_idx != write_idx || bytes_read != bytes_written {
            write_char_at(token, write_idx, chr);
        } else {
            proof {
                lemma_decoding_in_place(span, before, out, read_idx as int, chr);
            }
        }
        proof {
            lemma_decoding_step(
                span,
                before,
                token@,
                out,
                write_idx as int,
                read_idx as int,
                chr,
                bytes_read as int,
            );
            out = out.push(chr);
        }
        write_idx += bytes_written;
        read_idx += bytes_read;
    }
    proof {
        lemma_decoding_ends(span, token@, out, write_idx as int, read_idx as int);
        assert(token@.subrange(1, write_idx as int) =~= encode_utf8(out));
        encode_utf8_valid_utf8(out);
    }
    Ok(write_idx - 1)
}

} // verus!
