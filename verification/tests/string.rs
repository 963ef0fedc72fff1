use json_lexer::encoding::{len_utf8, write_char_at};
use json_lexer::string::{
    decode_char_at, decode_escape_at, decode_string, decode_unicode_sequence, escaped, hex_digit,
    read_char_at, Error,
};
use json_lexer::tokenizer::{Token, Tokenizer};

fn decode(token: &[u8]) -> Result<Vec<u8>, Error> {
    let mut buffer = token.to_vec();
    let n = decode_string(buffer.as_mut_slice())?;
    assert_eq!(buffer.len(), token.len());
    assert_eq!(buffer[0], token[0]);
    assert_eq!(&buffer[1 + n..], &token[1 + n..]);
    Ok(buffer[1..1 + n].to_vec())
}

#[test]
fn test_euro_sign() {
    assert_eq!(decode(b"\"\\u20AC\""), Ok("\u{20AC}".as_bytes().to_vec()));
    assert_eq!(decode(b"\"\\u20ac\""), Ok(vec![0xE2, 0x82, 0xAC]));
}

#[test]
fn test_without_backslash_content_is_unchanged() {
    for token in [
        &b"\"\""[..],
        b"\"a\"",
        b"\"hello world\"",
        "\"😬👍🤯\"".as_bytes(),
        b"\"\n\"",
    ] {
        let mut buffer = token.to_vec();
        assert_eq!(decode_string(buffer.as_mut_slice()), Ok(token.len() - 2));
        assert_eq!(buffer, token);
        assert_eq!(decode(token), Ok(token[1..token.len() - 1].to_vec()));
    }
}

#[test]
fn test_decoding_again_changes_nothing() {
    let mut buffer = "\"caf\u{e9} \u{20AC}5\"".as_bytes().to_vec();
    let first = decode_string(buffer.as_mut_slice());
    let after_first = buffer.clone();
    let second = decode_string(buffer.as_mut_slice());
    assert_eq!(first, Ok(buffer.len() - 2));
    assert_eq!(second, first);
    assert_eq!(buffer, after_first);
}

#[test]
fn test_simple_escapes() {
    assert_eq!(decode(b"\"\\\"\""), Ok(b"\"".to_vec()));
    assert_eq!(decode(b"\"\\\\\""), Ok(b"\\".to_vec()));
    assert_eq!(decode(b"\"\\/\""), Ok(b"/".to_vec()));
    assert_eq!(decode(b"\"\\b\""), Ok(vec![0x08]));
    assert_eq!(decode(b"\"\\f\""), Ok(vec![0x0C]));
    assert_eq!(decode(b"\"\\n\""), Ok(vec![0x0A]));
    assert_eq!(decode(b"\"\\r\""), Ok(vec![0x0D]));
    assert_eq!(decode(b"\"\\t\""), Ok(vec![0x09]));
}

#[test]
fn test_text_after_an_escape_moves_forward() {
    let mut buffer = b"\"a\\nb\\u00e9c\\td\"".to_vec();
    let n = decode_string(buffer.as_mut_slice()).unwrap();
    assert_eq!(n, 8);
    assert_eq!(&buffer[1..1 + n], "a\nb\u{e9}c\td".as_bytes());
    assert_eq!(&buffer[1 + n..], b"e9c\\td\"");
    assert_eq!(buffer[0], b'"');
}

#[test]
fn test_multibyte_text_after_an_escape() {
    assert_eq!(
        decode("\"\\n\u{e9}\u{20AC}\u{1F600}x\"".as_bytes()),
        Ok("\n\u{e9}\u{20AC}\u{1F600}x".as_bytes().to_vec())
    );
}

#[test]
fn test_unicode_escape_widths() {
    assert_eq!(decode(b"\"\\u0041\""), Ok(b"A".to_vec()));
    assert_eq!(decode(b"\"\\u0000\""), Ok(vec![0x00]));
    assert_eq!(decode(b"\"\\u007f\""), Ok(vec![0x7F]));
    assert_eq!(decode(b"\"\\u0080\""), Ok(vec![0xC2, 0x80]));
    assert_eq!(decode(b"\"\\u00E9\""), Ok(vec![0xC3, 0xA9]));
    assert_eq!(decode(b"\"\\u07FF\""), Ok(vec![0xDF, 0xBF]));
    assert_eq!(decode(b"\"\\u0800\""), Ok(vec![0xE0, 0xA0, 0x80]));
    assert_eq!(decode(b"\"\\uaabb\""), Ok("\u{aabb}".as_bytes().to_vec()));
    assert_eq!(decode(b"\"\\uD7FF\""), Ok("\u{d7ff}".as_bytes().to_vec()));
    assert_eq!(decode(b"\"\\uE000\""), Ok("\u{e000}".as_bytes().to_vec()));
    assert_eq!(decode(b"\"\\uFFFF\""), Ok(vec![0xEF, 0xBF, 0xBF]));
}

#[test]
fn test_invalid_escape_char() {
    assert_eq!(decode(b"\"\\a\""), Err(Error::InvalidEscapeChar));
    assert_eq!(decode(b"\"\\U0041\""), Err(Error::InvalidEscapeChar));
    assert_eq!(decode(b"\"ab\\ \""), Err(Error::InvalidEscapeChar));
    assert_eq!(decode("\"\\\u{e9}\"".as_bytes()), Err(Error::InvalidEscapeChar));
    assert_eq!(decode(b"\"\\0\""), Err(Error::InvalidEscapeChar));
}

#[test]
fn test_invalid_unicode_sequence() {
    assert_eq!(decode(b"\"\\u\""), Err(Error::InvalidUnicodeSequence));
    assert_eq!(decode(b"\"\\u1\""), Err(Error::InvalidUnicodeSequence));
    assert_eq!(decode(b"\"\\u12\""), Err(Error::InvalidUnicodeSequence));
    assert_eq!(decode(b"\"\\u123\""), Err(Error::InvalidUnicodeSequence));
    assert_eq!(decode(b"\"\\u12G4\""), Err(Error::InvalidUnicodeSequence));
    assert_eq!(decode(b"\"\\u+123\""), Err(Error::InvalidUnicodeSequence));
    assert_eq!(decode(b"\"\\u 123\""), Err(Error::InvalidUnicodeSequence));
    assert_eq!(decode("\"\\u12\u{e9}\"".as_bytes()), Err(Error::InvalidUnicodeSequence));
    assert_eq!(decode("\"\\u\u{20AC}1\"".as_bytes()), Err(Error::InvalidUnicodeSequence));
}

#[test]
fn test_invalid_text_encoding() {
    assert_eq!(decode(&[0x22, 0xFF, 0x22]), Err(Error::InvalidTextEncoding));
    assert_eq!(decode(&[0x22, 0xC3, 0x22]), Err(Error::InvalidTextEncoding));
    assert_eq!(decode(&[0x22, 0xED, 0xA0, 0x80, 0x22]), Err(Error::InvalidTextEncoding));
    assert_eq!(decode(&[0x22, 0x5C, 0x6E, 0x80, 0x22]), Err(Error::InvalidTextEncoding));
}

#[test]
fn test_surrogate_escapes_are_no_characters() {
    assert_eq!(decode(b"\"\\uD800\""), Err(Error::InvalidTextEncoding));
    assert_eq!(decode(b"\"\\uDFFF\""), Err(Error::InvalidTextEncoding));
    assert_eq!(decode(b"\"\\uD83D\\uDE00\""), Err(Error::InvalidTextEncoding));
}

#[test]
fn test_first_failure_wins() {
    assert_eq!(decode(b"\"\\a\\u12\""), Err(Error::InvalidEscapeChar));
    assert_eq!(decode(b"\"\\u12\\a\""), Err(Error::InvalidUnicodeSequence));
    assert_eq!(decode(b"\"\\uD800\\a\""), Err(Error::InvalidTextEncoding));
    assert_eq!(decode(&[0x22, 0x5C, 0x61, 0xFF, 0x22]), Err(Error::InvalidTextEncoding));
}

#[test]
fn test_backslash_before_the_closing_quote_takes_it() {
    assert_eq!(decode(b"\"\\\""), Ok(b"\"".to_vec()));
    assert_eq!(decode(b"\"ab\\\""), Ok(b"ab\"".to_vec()));
}

#[test]
fn test_decoded_text_is_text() {
    for token in [
        &b"\"\\u20AC\\n\\\"x\""[..],
        "\"\u{1F600}\\u00e9\\t\u{e9}\"".as_bytes(),
        b"\"\\\\\\/\\b\\f\\r\"",
    ] {
        let decoded = decode(token).unwrap();
        assert!(std::str::from_utf8(&decoded).is_ok());
        assert!(decoded.len() <= token.len() - 2);
    }
}

#[test]
fn test_string_token_from_the_tokenizer_decodes() {
    let mut json = b"[\"a\\u20ACb\\n\", 1]".to_vec();
    let mut tokenizer = Tokenizer::new(json.as_mut_slice());
    assert_eq!(tokenizer.next(), Ok(Some(Token::BeginArray)));
    match tokenizer.next() {
        Ok(Some(Token::String(span))) => {
            let n = decode_string(span).unwrap();
            assert_eq!(&span[1..1 + n], "a\u{20AC}b\n".as_bytes());
        }
        other => panic!("{:?}", other),
    }
    assert_eq!(tokenizer.next(), Ok(Some(Token::Comma)));
}

#[test]
fn test_read_char_at() {
    let text = "a\u{e9}\u{20AC}\u{1F600}\u{7f}\u{80}\u{7ff}\u{800}\u{ffff}\u{10000}\u{10ffff}";
    let bytes = text.as_bytes();
    let mut index = 0;
    for expected in text.chars() {
        assert_eq!(read_char_at(bytes, index), Some(expected));
        index += expected.len_utf8();
    }
    assert_eq!(index, bytes.len());
    assert_eq!(read_char_at(bytes, index), None);
}

#[test]
fn test_write_char_at_is_the_standard_encoding() {
    for c in [
        '\0', 'a', '\u{7f}', '\u{80}', '\u{e9}', '\u{7ff}', '\u{800}', '\u{20AC}', '\u{d7ff}',
        '\u{e000}', '\u{ffff}', '\u{10000}', '\u{1F600}', '\u{10ffff}',
    ] {
        let mut buffer = [0xAAu8; 6];
        let written = write_char_at(&mut buffer, 1, c);
        let mut expected = [0u8; 4];
        let encoded = c.encode_utf8(&mut expected).as_bytes();
        assert_eq!(written, c.len_utf8());
        assert_eq!(len_utf8(c), c.len_utf8());
        assert_eq!(&buffer[1..1 + written], encoded);
        assert_eq!(buffer[0], 0xAA);
        assert!(buffer[1 + written..].iter().all(|b| *b == 0xAA));
        assert_eq!(read_char_at(&buffer[..1 + written], 1), Some(c));
    }
}

#[test]
fn test_decode_unicode_sequence() {
    assert_eq!(decode_unicode_sequence(b"20AC"), Ok('\u{20AC}'));
    assert_eq!(decode_unicode_sequence(b"0000"), Ok('\0'));
    assert_eq!(decode_unicode_sequence(b"fFfF"), Ok('\u{ffff}'));
    assert_eq!(decode_unicode_sequence(b"abcd"), Ok('\u{abcd}'));
    assert_eq!(decode_unicode_sequence(b"d800"), Err(Error::InvalidTextEncoding));
    assert_eq!(decode_unicode_sequence(b"dfff"), Err(Error::InvalidTextEncoding));
    assert_eq!(decode_unicode_sequence(b"20A"), Err(Error::InvalidUnicodeSequence));
    assert_eq!(decode_unicode_sequence(b"20ACB"), Err(Error::InvalidUnicodeSequence));
    assert_eq!(decode_unicode_sequence(b"20AG"), Err(Error::InvalidUnicodeSequence));
    assert_eq!(decode_unicode_sequence(b"+0AC"), Err(Error::InvalidUnicodeSequence));
    assert_eq!(decode_unicode_sequence(b""), Err(Error::InvalidUnicodeSequence));
}

#[test]
fn test_hex_digit() {
    for digit in 0u8..=255 {
        assert_eq!(hex_digit(digit), (digit as char).to_digit(16).filter(|_| digit < 0x80));
    }
}

#[test]
fn test_escaped() {
    assert_eq!(escaped('"'), Some('"'));
    assert_eq!(escaped('\\'), Some('\\'));
    assert_eq!(escaped('/'), Some('/'));
    assert_eq!(escaped('b'), Some('\u{8}'));
    assert_eq!(escaped('f'), Some('\u{c}'));
    assert_eq!(escaped('n'), Some('\n'));
    assert_eq!(escaped('r'), Some('\r'));
    assert_eq!(escaped('t'), Some('\t'));
    assert_eq!(escaped('u'), None);
    assert_eq!(escaped('a'), None);
    assert_eq!(escaped('N'), None);
    assert_eq!(escaped('\u{e9}'), None);
}

#[test]
fn test_decode_char_at() {
    let buffer = "\"a\u{20AC}\\n\\u00e9\\x\"".as_bytes();
    assert_eq!(decode_char_at(buffer, 1), Ok(('a', 1)));
    assert_eq!(decode_char_at(buffer, 2), Ok(('\u{20AC}', 3)));
    assert_eq!(decode_char_at(buffer, 5), Ok(('\n', 2)));
    assert_eq!(decode_escape_at(buffer, 5), Ok(('\n', 2)));
    assert_eq!(decode_char_at(buffer, 7), Ok(('\u{e9}', 6)));
    assert_eq!(decode_escape_at(buffer, 7), Ok(('\u{e9}', 6)));
    assert_eq!(decode_char_at(buffer, 13), Err(Error::InvalidEscapeChar));
}

#[test]
fn test_every_scalar_value_is_written_and_read_back() {
    let mut buffer = [0u8; 4];
    let mut expected = [0u8; 4];
    for value in 0u32..=0x10FFFF {
        if let Some(c) = char::from_u32(value) {
            let written = write_char_at(&mut buffer, 0, c);
            let encoded = c.encode_utf8(&mut expected).as_bytes();
            assert_eq!(&buffer[..written], encoded);
            assert_eq!(len_utf8(c), written);
            assert_eq!(read_char_at(&buffer[..written], 0), Some(c));
        }
    }
}

fn unescape_chars(content: &[char]) -> Result<String, Error> {
    let mut text = content.to_vec();
    text.push('"');
    let mut decoded = String::new();
    let mut at = 0;
    while at + 1 < text.len() {
        if text[at] != '\\' {
            decoded.push(text[at]);
            at += 1;
            continue;
        }
        let simple = match text[at + 1] {
            '"' => Some('"'),
            '\\' => Some('\\'),
            '/' => Some('/'),
            'b' => Some('\u{8}'),
            'f' => Some('\u{c}'),
            'n' => Some('\n'),
            'r' => Some('\r'),
            't' => Some('\t'),
            _ => None,
        };
        if let Some(c) = simple {
            decoded.push(c);
            at += 2;
        } else if text[at + 1] == 'u' {
            if at + 6 > text.len() {
                return Err(Error::InvalidUnicodeSequence);
            }
            let mut unit = 0;
            for digit in &text[at + 2..at + 6] {
                match digit.to_digit(16) {
                    Some(v) => unit = unit * 16 + v,
                    None => return Err(Error::InvalidUnicodeSequence),
                }
            }
            match char::from_u32(unit) {
                Some(c) => decoded.push(c),
                None => return Err(Error::InvalidTextEncoding),
            }
            at += 6;
        } else {
            return Err(Error::InvalidEscapeChar);
        }
    }
    Ok(decoded)
}

#[test]
fn test_decoding_bytes_is_unescaping_text() {
    let alphabet = ['\\', '"', 'u', 'n', 'D', '8', '0', 'x', '\u{e9}', '\u{20AC}'];
    let mut content: Vec<char> = Vec::new();
    let mut checked = 0;
    for length in 0..=6 {
        let mut digits = vec![0usize; length];
        loop {
            content.clear();
            content.extend(digits.iter().map(|d| alphabet[*d]));
            let mut token = String::from("\"");
            token.extend(content.iter());
            token.push('"');
            let expected = unescape_chars(&content);
            assert_eq!(
                decode(token.as_bytes()),
                expected.map(|text| text.into_bytes()),
                "{}",
                token
            );
            checked += 1;
            let mut place = 0;
            while place < length {
                digits[place] += 1;
                if digits[place] < alphabet.len() {
                    break;
                }
                digits[place] = 0;
                place += 1;
            }
            if place == length {
                break;
            }
        }
    }
    assert_eq!(checked, 1 + 10 + 100 + 1000 + 10000 + 100000 + 1000000);
}
