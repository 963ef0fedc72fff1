//! Reading a number token's text as a number.
//!
//! Which of the three readings applies is decided by the bytes that occur in
//! the text, never by its value: a period or an exponent mark asks for a
//! floating-point literal, else a minus sign asks for a signed integer, else
//! the text is read as an unsigned integer.

use crate::constants::{LOWERCASE_E, MINUS, PERIOD, PLUS, UPPERCASE_E};
use vstd::prelude::*;

verus! {

/// A number as its text gives it. A floating-point literal is checked for
/// its shape and handed on as it stands: this library holds no
/// floating-point values, so the conversion is the caller's.
#[derive(Debug, PartialEq)]
pub enum Number<'a> {
    Integer(i64),
    Unsigned(u64),
    Float(&'a [u8]),
}

/// Why a text is not the number its bytes ask for.
#[derive(Clone, Copy, Debug, PartialEq, Eq, Structural)]
pub enum Error {
    InvalidInteger,
    InvalidUnsigned,
    InvalidFloat,
}

/// What a [`Number`] stands for.
pub enum Value {
    Integer(int),
    Unsigned(int),
    Float(Seq<u8>),
}

impl<'a> View for Number<'a> {
    type V = Value;

    open spec fn view(&self) -> Value {
        match self {
            Number::Integer(n) => Value::Integer(*n as int),
            Number::Unsigned(n) => Value::Unsigned(*n as int),
            Number::Float(text) => Value::Float(text@),
        }
    }
}

/// True of the ten decimal digits.
pub open spec fn is_digit(chr: u8) -> bool {
    0x30 <= chr <= 0x39
}

pub open spec fn is_sign(chr: u8) -> bool {
    chr == PLUS || chr == MINUS
}

pub open spec fn is_exponent_mark(chr: u8) -> bool {
    chr == LOWERCASE_E || chr == UPPERCASE_E
}

/// One digit or more, and nothing else.
pub open spec fn is_digits(s: Seq<u8>) -> bool {
    s.len() > 0 && forall|i: int| 0 <= i < s.len() ==> is_digit(#[trigger] s[i])
}

/// The number that a run of decimal digits writes.
pub open spec fn decimal_value(digits: Seq<u8>) -> nat
    decreases digits.len(),
{
    if digits.len() == 0 {
        0
    } else {
        10 * decimal_value(digits.drop_last()) + (digits.last() - 0x30) as nat
    }
}

/// `s` without the sign it may begin with.
pub open spec fn unsigned_part(s: Seq<u8>) -> Seq<u8> {
    if s.len() > 0 && is_sign(s[0]) {
        s.drop_first()
    } else {
        s
    }
}

/// The value of an unsigned integer literal: digits, with or without a plus
/// sign before them. Any other text has none.
pub open spec fn unsigned_value(s: Seq<u8>) -> Option<int> {
    if s.len() > 0 && s[0] == MINUS {
        None
    } else if is_digits(unsigned_part(s)) {
        Some(decimal_value(unsigned_part(s)) as int)
    } else {
        None
    }
}

/// The value of a signed integer literal: digits, with or without a plus or
/// a minus sign before them. Any other text has none.
pub open spec fn integer_value(s: Seq<u8>) -> Option<int> {
    if !is_digits(unsigned_part(s)) {
        None
    } else if s[0] == MINUS {
        Some(-(decimal_value(unsigned_part(s)) as int))
    } else {
        Some(decimal_value(unsigned_part(s)) as int)
    }
}

/// Digits with at most one period among them, and at least one digit.
pub open spec fn is_mantissa(s: Seq<u8>) -> bool {
    &&& forall|i: int| 0 <= i < s.len() ==> is_digit(#[trigger] s[i]) || s[i] == PERIOD
    &&& forall|i: int, j: int| 0 <= i < j < s.len() ==> !(s[i] == PERIOD && s[j] == PERIOD)
    &&& exists|i: int| 0 <= i < s.len() && is_digit(#[trigger] s[i])
}

/// A floating-point literal without its sign: a mantissa, and after it
/// nothing or an exponent mark, a sign or none, and digits.
pub open spec fn is_unsigned_float(body: Seq<u8>) -> bool {
    ||| is_mantissa(body)
    ||| exists|k: int|
        {
            &&& 0 <= k < body.len()
            &&& is_exponent_mark(#[trigger] body[k])
            &&& is_mantissa(body.subrange(0, k))
            &&& is_digits(unsigned_part(body.subrange(k + 1, body.len() as int)))
        }
}

/// A floating-point literal: a sign or none, and an unsigned literal.
pub open spec fn is_float_literal(s: Seq<u8>) -> bool {
    is_unsigned_float(unsigned_part(s))
}

/// A period or an exponent mark stands somewhere in `s`.
pub open spec fn has_float_mark(s: Seq<u8>) -> bool {
    exists|i: int| 0 <= i < s.len() && (#[trigger] s[i] == PERIOD || is_exponent_mark(s[i]))
}

/// The number that the text `s` writes, or why it writes none.
pub open spec fn number_value(s: Seq<u8>) -> Result<Value, Error> {
    if has_float_mark(s) {
        if is_float_literal(s) {
            Ok(Value::Float(s))
        } else {
            Err(Error::InvalidFloat)
        }
    } else if s.contains(MINUS) {
        match integer_value(s) {
            Some(v) if i64::MIN <= v <= i64::MAX => Ok(Value::Integer(v)),
            _ => Err(Error::InvalidInteger),
        }
    } else {
        match unsigned_value(s) {
            Some(v) if v <= u64::MAX => Ok(Value::Unsigned(v)),
            _ => Err(Error::InvalidUnsigned),
        }
    }
}

/// Tells whether `chr` is one of the ten decimal digits.
#[verifier::when_used_as_spec(is_digit)]
pub fn is_ascii_digit(chr: u8) -> (r: bool)
    ensures
        r == is_digit(chr),
{
    0x30 <= chr && chr <= 0x39
}

/// More digits never write a smaller number.
pub proof fn lemma_decimal_value_grows(digits: Seq<u8>, i: int)
    requires
        0 <= i <= digits.len(),
        forall|j: int| 0 <= j < digits.len() ==> is_digit(#[trigger] digits[j]),
    ensures
        decimal_value(digits.subrange(0, i)) <= decimal_value(digits),
    decreases digits.len() - i,
{
    if i == digits.len() {
        assert(digits.subrange(0, i) =~= digits);
    } else {
        lemma_decimal_value_grows(digits, i + 1);
        assert(digits.subrange(0, i + 1).drop_last() =~= digits.subrange(0, i));
    }
}

/// Reads the bytes of `token` from `start` on as decimal digits: their value
/// where there is at least one byte, all are digits and the value is at most
/// `limit`, else `None`.
pub fn parse_digits(token: &[u8], start: usize, limit: u64) -> (r: Option<u64>)
    requires
        start <= token@.len(),
    ensures
        ({
            let digits = token@.subrange(start as int, token@.len() as int);
            r == if is_digits(digits) && decimal_value(digits) <= limit {
                Some(decimal_value(digits) as u64)
            } else {
                None
            }
        }),
{
    let ghost digits = token@.subrange(start as int, token@.len() as int);
    if start == token.len() {
        return None;
    }
    let mut value: u64 = 0;
    let mut i: usize = start;
    while i < token.len()
        invariant
            start <= i <= token@.len(),
            digits == token@.subrange(start as int, token@.len() as int),
            forall|j: int| 0 <= j < i - start ==> is_digit(#[trigger] digits[j]),
            value == decimal_value(digits.subrange(0, i - start)),
            value <= limit,
        decreases token@.len() - i,
    {
        let chr = token[i];
        if !is_ascii_digit(chr) {
            assert(!is_digit(digits[i - start]));
            return None;
        }
        let digit: u64 = (chr - 0x30) as u64;
        proof {
            assert(digits.subrange(0, i - start + 1).drop_last() =~= digits.subrange(
                0,
                i - start,
            ));
            assert(decimal_value(digits.subrange(0, i - start + 1)) == 10 * value + digit);
        }
        if digit > limit || value > (limit - digit) / 10 {
            proof {
                if is_digits(digits) {
                    lemma_decimal_value_grows(digits, i - start + 1);
                }
            }
            return None;
        }
        value = 10 * value + digit;
        i += 1;
    }
    assert(digits.subrange(0, i - start) =~= digits);
    Some(value)
}

/// Reads `token` as an unsigned integer literal: its value where it is one
/// and the value fits 64 bits, else `None`.
pub fn parse_unsigned(token: &[u8]) -> (r: Option<u64>)
    ensures
        r == match unsigned_value(token@) {
            Some(v) if v <= u64::MAX => Some(v as u64),
            _ => None,
        },
{
    if token.len() > 0 && token[0] == MINUS {
        return None;
    }
    let start: usize = if token.len() > 0 && token[0] == PLUS {
        1
    } else {
        0
    };
    assert(unsigned_part(token@) =~= token@.subrange(start as int, token@.len() as int));
    parse_digits(token, start, u64::MAX)
}

/// Reads `token` as a signed integer literal: its value where it is one and
/// the value fits 64 bits, the least of them included, else `None`.
pub fn parse_integer(token: &[u8]) -> (r: Option<i64>)
    ensures
        r == match integer_value(token@) {
            Some(v) if i64::MIN <= v <= i64::MAX => Some(v as i64),
            _ => None,
        },
{
    let negative = token.len() > 0 && token[0] == MINUS;
    let start: usize = if token.len() > 0 && (token[0] == PLUS || token[0] == MINUS) {
        1
    } else {
        0
    };
    assert(unsigned_part(token@) =~= token@.subrange(start as int, token@.len() as int));
    let limit: u64 = if negative {
        0x8000_0000_0000_0000
    } else {
        0x7FFF_FFFF_FFFF_FFFF
    };
    match parse_digits(token, start, limit) {
        None => None,
        Some(magnitude) => {
            if !negative {
                Some(magnitude as i64)
            } else if magnitude == 0x8000_0000_0000_0000 {
                Some(i64::MIN)
            } else {
                Some(-(magnitude as i64))
            }
        },
    }
}

/// Tells whether the bytes of `token` from `from` up to `to` are digits, one
/// at least.
pub fn is_digit_run(token: &[u8], from: usize, to: usize) -> (r: bool)
    requires
        from <= to <= token@.len(),
    ensures
        r == is_digits(token@.subrange(from as int, to as int)),
{
    let ghost run = token@.subrange(from as int, to as int);
    let mut i: usize = from;
    while i < to
        invariant
            from <= i <= to <= token@.len(),
            run == token@.subrange(from as int, to as int),
            forall|j: int| 0 <= j < i - from ==> is_digit(#[trigger] run[j]),
        decreases to - i,
    {
        if !is_ascii_digit(token[i]) {
            assert(!is_digit(run[i - from]));
            return false;
        }
        i += 1;
    }
    from < to
}

/// Tells whether the bytes of `token` from `from` up to `to` are a mantissa.
pub fn is_mantissa_run(token: &[u8], from: usize, to: usize) -> (r: bool)
    requires
        from <= to <= token@.len(),
    ensures
        r == is_mantissa(token@.subrange(from as int, to as int)),
{
    let ghost run = token@.subrange(from as int, to as int);
    let mut seen_digit = false;
    let mut seen_period = false;
    let ghost mut digit_at: int = 0;
    let ghost mut period_at: int = 0;
    let mut i: usize = from;
    while i < to
        invariant
            from <= i <= to <= token@.len(),
            run == token@.subrange(from as int, to as int),
            forall|j: int| 0 <= j < i - from ==> is_digit(#[trigger] run[j]) || run[j] == PERIOD,
            forall|j: int, k: int|
                0 <= j < k < i - from ==> !(run[j] == PERIOD && run[k] == PERIOD),
            seen_digit ==> 0 <= digit_at < i - from && is_digit(run[digit_at]),
            !seen_digit ==> forall|j: int| 0 <= j < i - from ==> !is_digit(#[trigger] run[j]),
            seen_period ==> 0 <= period_at < i - from && run[period_at] == PERIOD,
            !seen_period ==> forall|j: int| 0 <= j < i - from ==> run[j] != PERIOD,
        decreases to - i,
    {
        let chr = token[i];
        assert(chr == run[i - from]);
        if is_ascii_digit(chr) {
            seen_digit = true;
            proof {
                digit_at = i - from;
            }
        } else if chr == PERIOD {
            if seen_period {
                assert(run[period_at] == PERIOD && run[i - from] == PERIOD);
                return false;
            }
            seen_period = true;
            proof {
                period_at = i - from;
            }
        } else {
            assert(!is_digit(run[i - from]));
            return false;
        }
        i += 1;
    }
    seen_digit
}

/// A literal with an exponent mark is cut at the first one: before it the
/// mantissa, after it the exponent.
pub proof fn lemma_float_with_exponent(body: Seq<u8>, at: int)
    requires
        0 <= at < body.len(),
        is_exponent_mark(body[at]),
        forall|j: int| 0 <= j < at ==> !is_exponent_mark(#[trigger] body[j]),
    ensures
        is_unsigned_float(body) <==> is_mantissa(body.subrange(0, at)) && is_digits(
            unsigned_part(body.subrange(at + 1, body.len() as int)),
        ),
{
    assert(!is_mantissa(body)) by {
        assert(!is_digit(body[at]) && body[at] != PERIOD);
    }
    assert forall|k: int|
        0 <= k < body.len() && is_exponent_mark(#[trigger] body[k]) && is_mantissa(
            body.subrange(0, k),
        ) implies k == at by {
        if k > at {
            let head = body.subrange(0, k);
            assert(!is_digit(head[at]) && head[at] != PERIOD);
        }
    }
}

/// A literal without an exponent mark is a mantissa and no more.
pub proof fn lemma_float_without_exponent(body: Seq<u8>)
    requires
        forall|j: int| 0 <= j < body.len() ==> !is_exponent_mark(#[trigger] body[j]),
    ensures
        is_unsigned_float(body) <==> is_mantissa(body),
{
}

/// Tells whether `token` is a floating-point literal.
pub fn is_float_text(token: &[u8]) -> (r: bool)
    ensures
        r == is_float_literal(token@),
{
    let len = token.len();
    let start: usize = if len > 0 && (token[0] == PLUS || token[0] == MINUS) {
        1
    } else {
        0
    };
    let ghost body = token@.subrange(start as int, len as int);
    assert(body =~= unsigned_part(token@));
    let mut mark: usize = start;
    while mark < len && token[mark] != LOWERCASE_E && token[mark] != UPPERCASE_E
        invariant
            start <= mark <= len == token@.len(),
            body == token@.subrange(start as int, len as int),
            forall|j: int| 0 <= j < mark - start ==> !is_exponent_mark(#[trigger] body[j]),
        decreases len - mark,
    {
        mark += 1;
    }
    let mantissa = is_mantissa_run(token, start, mark);
    assert(body.subrange(0, mark - start) =~= token@.subrange(start as int, mark as int));
    if mark == len {
        proof {
            assert(body.subrange(0, mark - start) =~= body);
            lemma_float_without_exponent(body);
        }
        return mantissa;
    }
    let digits_from: usize = if mark + 1 < len && (token[mark + 1] == PLUS || token[mark + 1]
        == MINUS) {
        mark + 2
    } else {
        mark + 1
    };
    let exponent = is_digit_run(token, digits_from, len);
    proof {
        let tail = body.subrange(mark - start + 1, body.len() as int);
        assert(tail =~= token@.subrange(mark + 1, len as int));
        assert(unsigned_part(tail) =~= token@.subrange(digits_from as int, len as int));
        lemma_float_with_exponent(body, mark - start);
    }
    mantissa && exponent
}

/// Reads a number token. The bytes that occur in it choose the reading: a
/// period or an exponent mark, a floating-point literal; else a minus sign,
/// a signed integer; else an unsigned integer. A text that is not what its
/// bytes ask for, or whose value does not fit, fails with the error of that
/// reading and is not read in another way.
pub fn parse_number<'a>(token: &'a [u8]) -> (r: Result<Number<'a>, Error>)
    ensures
        match r {
            Ok(number) => number_value(token@) == Ok::<Value, Error>(number@),
            Err(e) => number_value(token@) == Err::<Value, Error>(e),
        },
{
    let mut has_exponent = false;
    let mut has_period = false;
    let mut has_minus = false;
    let mut i: usize = 0;
    while i < token.len()
        invariant
            i <= token@.len(),
            has_exponent <==> exists|j: int| 0 <= j < i && is_exponent_mark(#[trigger] token@[j]),
            has_period <==> exists|j: int| 0 <= j < i && #[trigger] token@[j] == PERIOD,
            has_minus <==> exists|j: int| 0 <= j < i && #[trigger] token@[j] == MINUS,
        decreases token@.len() - i,
    {
        match token[i] {
            PERIOD => has_period = true,
            MINUS => has_minus = true,
            LOWERCASE_E | UPPERCASE_E => has_exponent = true,
            _ => {},
        }
        i += 1;
    }
    assert(has_float_mark(token@) <==> has_exponent || has_period);
    assert(token@.contains(MINUS) <==> has_minus);
    if has_exponent || has_period {
        if is_float_text(token) {
            Ok(Number::Float(token))
        } else {
            Err(Error::InvalidFloat)
        }
    } else if has_minus {
        match parse_integer(token) {
            Some(n) => Ok(Number::Integer(n)),
            None => Err(Error::InvalidInteger),
        }
    } else {
        match parse_unsigned(token) {
            Some(n) => Ok(Number::Unsigned(n)),
            None => Err(Error::InvalidUnsigned),
        }
    }
}

} // verus!
