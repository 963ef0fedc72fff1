use json_lexer::number::{
    is_ascii_digit, is_digit_run, is_float_text, is_mantissa_run, parse_digits, parse_integer,
    parse_number, parse_unsigned, Error, Number,
};

fn float_of(parsed: Result<Number, Error>) -> Result<f64, Error> {
    match parsed {
        Ok(Number::Float(text)) => {
            Ok(std::str::from_utf8(text).unwrap().parse::<f64>().unwrap())
        }
        Ok(other) => panic!("{:?}", other),
        Err(e) => Err(e),
    }
}

#[test]
fn test_unsigned() {
    assert_eq!(parse_number(b"0"), Ok(Number::Unsigned(0)));
    assert_eq!(parse_number(b"1"), Ok(Number::Unsigned(1)));
    assert_eq!(parse_number(b"18446744073709551615"), Ok(Number::Unsigned(18446744073709551615)));
    assert_eq!(parse_number(b"18446744073709551616"), Err(Error::InvalidUnsigned));
    assert_eq!(parse_number(b"1a"), Err(Error::InvalidUnsigned));
}

#[test]
fn test_integer() {
    assert_eq!(parse_number(b"-1"), Ok(Number::Integer(-1)));
    assert_eq!(parse_number(b"-9223372036854775808"), Ok(Number::Integer(-9223372036854775808)));
    assert_eq!(parse_number(b"-9223372036854775809"), Err(Error::InvalidInteger));
    assert_eq!(parse_number(b"-1a"), Err(Error::InvalidInteger));
}

#[test]
fn test_float() {
    assert_eq!(float_of(parse_number(b".4")), Ok(0.4));
    assert_eq!(float_of(parse_number(b"2e2")), Ok(200f64));
    assert_eq!(float_of(parse_number(b"3141592e-6")), Ok(3.141592));
    assert_eq!(parse_number(b"-1.a"), Err(Error::InvalidFloat));
}

#[test]
fn test_float_keeps_its_text() {
    assert_eq!(parse_number(b"3141592e-6"), Ok(Number::Float(b"3141592e-6")));
    assert_eq!(parse_number(b"-35.122E+45"), Ok(Number::Float(b"-35.122E+45")));
    assert_eq!(parse_number(b"+1."), Ok(Number::Float(b"+1.")));
}

#[test]
fn test_reading_goes_by_the_bytes_not_the_value() {
    assert_eq!(parse_number(b"1-2"), Err(Error::InvalidInteger));
    assert_eq!(parse_number(b"12-"), Err(Error::InvalidInteger));
    assert_eq!(parse_number(b"1.0"), Ok(Number::Float(b"1.0")));
    assert_eq!(parse_number(b"1e0"), Ok(Number::Float(b"1e0")));
    assert_eq!(parse_number(b"-0"), Ok(Number::Integer(0)));
    assert_eq!(parse_number(b"9223372036854775808"), Ok(Number::Unsigned(9223372036854775808)));
    assert_eq!(parse_number(b"-e"), Err(Error::InvalidFloat));
}

#[test]
fn test_unsigned_edges() {
    assert_eq!(parse_number(b""), Err(Error::InvalidUnsigned));
    assert_eq!(parse_number(b"+"), Err(Error::InvalidUnsigned));
    assert_eq!(parse_number(b"+7"), Ok(Number::Unsigned(7)));
    assert_eq!(parse_number(b"++7"), Err(Error::InvalidUnsigned));
    assert_eq!(parse_number(b"7+"), Err(Error::InvalidUnsigned));
    assert_eq!(parse_number(b"007"), Ok(Number::Unsigned(7)));
    assert_eq!(parse_number(b"00018446744073709551615"), Ok(Number::Unsigned(u64::MAX)));
    assert_eq!(parse_number(b"18446744073709551620"), Err(Error::InvalidUnsigned));
    assert_eq!(parse_number(b"99999999999999999999"), Err(Error::InvalidUnsigned));
    assert_eq!(parse_number(b"100000000000000000000000"), Err(Error::InvalidUnsigned));
    assert_eq!(parse_number(b" 1"), Err(Error::InvalidUnsigned));
    assert_eq!(parse_number(&[0x31, 0xFF]), Err(Error::InvalidUnsigned));
}

#[test]
fn test_integer_edges() {
    assert_eq!(parse_number(b"-"), Err(Error::InvalidInteger));
    assert_eq!(parse_number(b"--1"), Err(Error::InvalidInteger));
    assert_eq!(parse_number(b"+-1"), Err(Error::InvalidInteger));
    assert_eq!(parse_number(b"-+1"), Err(Error::InvalidInteger));
    assert_eq!(parse_number(b"-9223372036854775807"), Ok(Number::Integer(-9223372036854775807)));
    assert_eq!(parse_number(b"-0009223372036854775808"), Ok(Number::Integer(i64::MIN)));
    assert_eq!(parse_number(b"-9223372036854775810"), Err(Error::InvalidInteger));
    assert_eq!(parse_number(b"-18446744073709551616"), Err(Error::InvalidInteger));
    assert_eq!(parse_number(&[0x2D, 0x31, 0x80]), Err(Error::InvalidInteger));
}

#[test]
fn test_float_shapes() {
    for text in [
        &b"1.5"[..], b".5", b"5.", b"-.5", b"+5.", b"1e5", b"1E5", b"1e+5", b"1e-5", b"1.e5",
        b".1e5", b"-1.25E-09", b"0.0", b"00.00e00",
    ] {
        assert_eq!(parse_number(text), Ok(Number::Float(text)));
        assert!(float_of(parse_number(text)).is_ok());
    }
    for text in [
        &b"."[..], b"-.", b"e", b"e5", b"1e", b"1e+", b"1e-", b".e5", b"1..2", b"1.2.3", b"1e5e5",
        b"1e5.0", b"1e5.", b"--1.0", b"+-1.0", b"1.0-", b"1.-0", b"1 .0", b"1e 5", b".a",
        b"1e++5", b"\xFF.", b"1.\xC3\xA9",
    ] {
        assert_eq!(parse_number(text), Err(Error::InvalidFloat));
    }
}

#[test]
fn test_float_text_is_what_the_standard_parser_takes() {
    for text in [
        "1.5", ".5", "5.", "-.5", "+5.", "1e5", "1E5", "1e+5", "1e-5", "1.e5", ".", "-.", "e5",
        "1e", "1e+", ".e5", "1..2", "1e5e5", "1e5.0", "+-1.0", "1.0-", "--1.", "1e++5", "-e",
        "+.e1", "0.e-0", "1e1e", "e", ".+1", "1.+1", "1e.5", "1.5e", "1.5e-", "-1.5e-5",
    ] {
        assert_eq!(is_float_text(text.as_bytes()), text.parse::<f64>().is_ok(), "{}", text);
    }
}

#[test]
fn test_integers_are_what_the_standard_parser_takes() {
    for text in [
        "0", "7", "+7", "-7", "007", "-007", "", "+", "-", "++7", "7+", "1a", "a", " 7", "7 ",
        "18446744073709551615", "18446744073709551616", "9223372036854775807",
        "9223372036854775808", "-9223372036854775808", "-9223372036854775809", "1_000",
    ] {
        assert_eq!(parse_unsigned(text.as_bytes()), text.parse::<u64>().ok(), "{}", text);
        assert_eq!(parse_integer(text.as_bytes()), text.parse::<i64>().ok(), "{}", text);
    }
}

#[test]
fn test_parse_digits() {
    assert_eq!(parse_digits(b"x123", 1, 1000), Some(123));
    assert_eq!(parse_digits(b"x123", 1, 123), Some(123));
    assert_eq!(parse_digits(b"x123", 1, 122), None);
    assert_eq!(parse_digits(b"x123", 4, 1000), None);
    assert_eq!(parse_digits(b"x12a", 1, 1000), None);
    assert_eq!(parse_digits(b"9", 0, 5), None);
    assert_eq!(parse_digits(b"0", 0, 0), Some(0));
    assert_eq!(parse_digits(b"18446744073709551615", 0, u64::MAX), Some(u64::MAX));
    assert_eq!(parse_digits(b"18446744073709551616", 0, u64::MAX), None);
}

#[test]
fn test_digit_and_mantissa_runs() {
    assert!(is_digit_run(b"a123b", 1, 4));
    assert!(!is_digit_run(b"a123b", 1, 5));
    assert!(!is_digit_run(b"a123b", 2, 2));
    assert!(is_mantissa_run(b"1.5", 0, 3));
    assert!(is_mantissa_run(b"15", 0, 2));
    assert!(is_mantissa_run(b".5", 0, 2));
    assert!(is_mantissa_run(b"5.", 0, 2));
    assert!(!is_mantissa_run(b".", 0, 1));
    assert!(!is_mantissa_run(b"1.5", 1, 1));
    assert!(!is_mantissa_run(b"1.2.3", 0, 5));
    assert!(!is_mantissa_run(b"1-5", 0, 3));
}

#[test]
fn test_digits() {
    for chr in 0u8..=255 {
        assert_eq!(is_ascii_digit(chr), chr.is_ascii_digit());
    }
}
