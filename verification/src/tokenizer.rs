//! Cutting JSON text into tokens, one call at a time.

use crate::constants::{
    BACKSLASH, CARRIAGE_RETURN, COLON, COMMA, DOUBLE_QUOTE, FALSE, LEFT_CURLY_BRACKET,
    LEFT_SQUARE_BRACKET, LINE_FEED, LOWERCASE_E, MINUS, NULL, PERIOD, PLUS,
    RIGHT_CURLY_BRACKET, RIGHT_SQUARE_BRACKET, SPACE, TAB, TRUE, UPPERCASE_E,
};
use crate::number::{is_ascii_digit, is_digit};
use crate::split::split_mut;
use crate::string::is_string_span;
use vstd::prelude::*;

verus! {

/// Why the text at the cursor is not the start of any token.
#[derive(Clone, Copy, Debug, PartialEq, Eq, Structural)]
pub enum Error {
    /// An opening quote has no closing quote after it.
    UnterminatedString,
    /// The byte at the cursor starts no token.
    UnexpectedByte,
}

pub type TokenizeResult<T> = Result<T, Error>;

/// One classified piece of the buffer. A string carries its span with both
/// quotes, still escaped; a number carries its raw digits and signs.
#[derive(Debug, PartialEq)]
pub enum Token<'a> {
    BeginObject,
    EndObject,
    BeginArray,
    EndArray,
    Comma,
    Colon,
    String(&'a mut [u8]),
    Number(&'a [u8]),
    True,
    False,
    Null,
    Whitespace,
}

/// What a token is, apart from the bytes it carries.
#[derive(Clone, Copy, Debug, PartialEq, Eq, Structural)]
pub enum TokenKind {
    BeginObject,
    EndObject,
    BeginArray,
    EndArray,
    Comma,
    Colon,
    String,
    Number,
    True,
    False,
    Null,
    Whitespace,
}

impl<'a> Token<'a> {
    pub open spec fn kind(&self) -> TokenKind {
        match self {
            Token::BeginObject => TokenKind::BeginObject,
            Token::EndObject => TokenKind::EndObject,
            Token::BeginArray => TokenKind::BeginArray,
            Token::EndArray => TokenKind::EndArray,
            Token::Comma => TokenKind::Comma,
            Token::Colon => TokenKind::Colon,
            Token::String(_) => TokenKind::String,
            Token::Number(_) => TokenKind::Number,
            Token::True => TokenKind::True,
            Token::False => TokenKind::False,
            Token::Null => TokenKind::Null,
            Token::Whitespace => TokenKind::Whitespace,
        }
    }

    /// A string or a number holds exactly the bytes of `span`; the other
    /// tokens hold no bytes.
    pub open spec fn carries(&self, span: Seq<u8>) -> bool {
        match self {
            Token::String(bytes) => bytes@ == span,
            Token::Number(bytes) => bytes@ == span,
            _ => true,
        }
    }
}

/// Space, tab, line feed and carriage return.
pub open spec fn is_whitespace(chr: u8) -> bool {
    chr == SPACE || chr == TAB || chr == LINE_FEED || chr == CARRIAGE_RETURN
}

/// The token that a structural byte stands for.
pub open spec fn structural_kind(chr: u8) -> Option<TokenKind> {
    if chr == LEFT_CURLY_BRACKET {
        Some(TokenKind::BeginObject)
    } else if chr == RIGHT_CURLY_BRACKET {
        Some(TokenKind::EndObject)
    } else if chr == LEFT_SQUARE_BRACKET {
        Some(TokenKind::BeginArray)
    } else if chr == RIGHT_SQUARE_BRACKET {
        Some(TokenKind::EndArray)
    } else if chr == COMMA {
        Some(TokenKind::Comma)
    } else if chr == COLON {
        Some(TokenKind::Colon)
    } else {
        None
    }
}

/// The six bytes that are a token each: braces, brackets, comma and colon.
pub open spec fn is_structural(chr: u8) -> bool {
    structural_kind(chr) is Some
}

/// The bytes a number token is made of: digits, period, `e`, `E`, plus, minus.
pub open spec fn is_number_byte(chr: u8) -> bool {
    is_digit(chr) || chr == PERIOD || chr == LOWERCASE_E || chr == UPPERCASE_E || chr == PLUS
        || chr == MINUS
}

/// The first `n` bytes of `s` are all in `class`, and the byte after them,
/// if there is one, is not: `n` is the length of the longest such prefix.
pub open spec fn is_leading_run(s: Seq<u8>, n: int, class: spec_fn(u8) -> bool) -> bool {
    &&& 0 <= n <= s.len()
    &&& forall|i: int| 0 <= i < n ==> class(#[trigger] s[i])
    &&& n < s.len() ==> !class(s[n])
}

/// The length of the longest prefix of `s` whose bytes are all in `class`.
pub open spec fn leading_run(s: Seq<u8>, class: spec_fn(u8) -> bool) -> int
    decreases s.len(),
{
    if s.len() > 0 && class(s[0]) {
        1 + leading_run(s.drop_first(), class)
    } else {
        0
    }
}

/// The quote at `i` closes a string that opened at 0: the byte before it is
/// no backslash.
pub open spec fn is_terminator(s: Seq<u8>, i: int) -> bool {
    1 <= i < s.len() && s[i] == DOUBLE_QUOTE && s[i - 1] != BACKSLASH
}

/// `i` is where the first closing quote stands.
pub open spec fn is_first_terminator(s: Seq<u8>, i: int) -> bool {
    &&& is_terminator(s, i)
    &&& forall|j: int| 1 <= j < i ==> !is_terminator(s, j)
}

/// Where the first closing quote at or after `from` stands, if there is one.
pub open spec fn first_terminator(s: Seq<u8>, from: int) -> Option<int>
    decreases s.len() - from,
{
    if from >= s.len() {
        None
    } else if is_terminator(s, from) {
        Some(from)
    } else {
        first_terminator(s, from + 1)
    }
}

/// `leading_run` is the one length that `is_leading_run` describes.
pub proof fn lemma_leading_run(s: Seq<u8>, class: spec_fn(u8) -> bool)
    ensures
        is_leading_run(s, leading_run(s, class), class),
        forall|n: int| is_leading_run(s, n, class) ==> n == leading_run(s, class),
    decreases s.len(),
{
    let run = leading_run(s, class);
    if s.len() > 0 && class(s[0]) {
        let tail = s.drop_first();
        lemma_leading_run(tail, class);
        assert forall|i: int| 0 <= i < run implies class(#[trigger] s[i]) by {
            if i > 0 {
                assert(s[i] == tail[i - 1]);
            }
        }
        if run < s.len() {
            assert(s[run] == tail[run - 1]);
        }
    }
    assert forall|n: int| is_leading_run(s, n, class) implies n == run by {
        if n < run {
            assert(class(s[n]));
        } else if run < n {
            assert(class(s[run]));
        }
    }
}

/// `first_terminator` finds the first closing quote at or after `from`, and
/// finds none only where there is none.
pub proof fn lemma_first_terminator(s: Seq<u8>, from: int)
    requires
        1 <= from,
    ensures
        match first_terminator(s, from) {
            Some(i) => {
                &&& from <= i
                &&& is_terminator(s, i)
                &&& forall|j: int| from <= j < i ==> !is_terminator(s, j)
            },
            None => forall|j: int| from <= j ==> !is_terminator(s, j),
        },
    decreases s.len() - from,
{
    if from < s.len() && !is_terminator(s, from) {
        lemma_first_terminator(s, from + 1);
    }
}

/// Tells whether `chr` is a space, a tab, a line feed or a carriage return.
#[verifier::when_used_as_spec(is_whitespace)]
pub fn is_ascii_whitespace(chr: u8) -> (r: bool)
    ensures
        r == is_whitespace(chr),
{
    match chr {
        SPACE | TAB | LINE_FEED | CARRIAGE_RETURN => true,
        _ => false,
    }
}

/// Tells whether `chr` is a brace, a bracket, a comma or a colon.
#[verifier::when_used_as_spec(is_structural)]
pub fn is_structural_char(chr: u8) -> (r: bool)
    ensures
        r == is_structural(chr),
{
    match chr {
        LEFT_CURLY_BRACKET | RIGHT_CURLY_BRACKET | LEFT_SQUARE_BRACKET | RIGHT_SQUARE_BRACKET
        | COMMA | COLON => true,
        _ => false,
    }
}

/// Tells whether `chr` can stand in a number token.
#[verifier::when_used_as_spec(is_number_byte)]
pub fn is_number_char(chr: u8) -> (r: bool)
    ensures
        r == is_number_byte(chr),
{
    is_ascii_digit(chr) || match chr {
        PERIOD | LOWERCASE_E | UPPERCASE_E | PLUS | MINUS => true,
        _ => false,
    }
}

/// Measures the string literal at the front of `data`: `Ok(None)` where
/// `data` does not open with a quote; otherwise the length up to and with the
/// first quote that no backslash stands before, or `UnterminatedString` where
/// no such quote follows.
pub fn find_string_literal(data: &[u8]) -> (r: TokenizeResult<Option<usize>>)
    ensures
        match r {
            Ok(None) => data@.len() == 0 || data@[0] != DOUBLE_QUOTE,
            Ok(Some(n)) => data@[0] == DOUBLE_QUOTE && is_first_terminator(data@, n - 1),
            Err(e) => {
                &&& e == Error::UnterminatedString
                &&& data@.len() > 0 && data@[0] == DOUBLE_QUOTE
                &&& forall|j: int| !is_terminator(data@, j)
            },
        },
{
    if data.len() == 0 || data[0] != DOUBLE_QUOTE {
        return Ok(None);
    }
    let mut i: usize = 1;
    while i < data.len()
        invariant
            1 <= i <= data@.len(),
            data@[0] == DOUBLE_QUOTE,
            forall|j: int| 1 <= j < i ==> !is_terminator(data@, j),
        decreases data@.len() - i,
    {
        if data[i] == DOUBLE_QUOTE && data[i - 1] != BACKSLASH {
            return Ok(Some(i + 1));
        }
        i += 1;
    }
    Err(Error::UnterminatedString)
}

/// Measures the longest run of number bytes at the front of `data`; `None`
/// where the first byte is not one.
pub fn find_number_literal(data: &[u8]) -> (r: Option<usize>)
    ensures
        match r {
            Some(n) => n > 0 && is_leading_run(data@, n as int, |b: u8| is_number_byte(b)),
            None => data@.len() == 0 || !is_number_byte(data@[0]),
        },
{
    let mut end: usize = 0;
    while end < data.len() && is_number_char(data[end])
        invariant
            end <= data@.len(),
            forall|i: int| 0 <= i < end ==> is_number_byte(#[trigger] data@[i]),
        decreases data@.len() - end,
    {
        end += 1;
    }
    if end != 0 {
        Some(end)
    } else {
        None
    }
}

/// Measures the longest run of whitespace at the front of `data`; `None`
/// where the first byte is not whitespace.
pub fn find_whitespace(data: &[u8]) -> (r: Option<usize>)
    ensures
        match r {
            Some(n) => n > 0 && is_leading_run(data@, n as int, |b: u8| is_whitespace(b)),
            None => data@.len() == 0 || !is_whitespace(data@[0]),
        },
{
    let mut end: usize = 0;
    while end < data.len() && is_ascii_whitespace(data[end])
        invariant
            end <= data@.len(),
            forall|i: int| 0 <= i < end ==> is_whitespace(#[trigger] data@[i]),
        decreases data@.len() - end,
    {
        end += 1;
    }
    if end != 0 {
        Some(end)
    } else {
        None
    }
}

/// What happens at the front of the text that is still unread.
pub enum Step {
    /// Nothing is left: the stream has ended.
    End,
    /// A token of this kind takes this many bytes.
    Emit(TokenKind, int),
    /// No token starts here.
    Fail(Error),
}

/// The one step that the text `s` allows, tried in this order: end of text, a
/// structural byte, a keyword, a run of whitespace, a string literal, a run
/// of number bytes; whatever else is an unexpected byte.
pub open spec fn next_step(s: Seq<u8>) -> Step {
    if s.len() == 0 {
        Step::End
    } else if let Some(kind) = structural_kind(s[0]) {
        Step::Emit(kind, 1)
    } else if TRUE@.is_prefix_of(s) {
        Step::Emit(TokenKind::True, 4)
    } else if FALSE@.is_prefix_of(s) {
        Step::Emit(TokenKind::False, 5)
    } else if NULL@.is_prefix_of(s) {
        Step::Emit(TokenKind::Null, 4)
    } else if is_whitespace(s[0]) {
        Step::Emit(TokenKind::Whitespace, leading_run(s, |b: u8| is_whitespace(b)))
    } else if s[0] == DOUBLE_QUOTE {
        match first_terminator(s, 1) {
            Some(i) => Step::Emit(TokenKind::String, i + 1),
            None => Step::Fail(Error::UnterminatedString),
        }
    } else if is_number_byte(s[0]) {
        Step::Emit(TokenKind::Number, leading_run(s, |b: u8| is_number_byte(b)))
    } else {
        Step::Fail(Error::UnexpectedByte)
    }
}

/// Tells whether `data` begins with the bytes of `word`.
pub fn starts_with(data: &[u8], word: &[u8]) -> (r: bool)
    ensures
        r == word@.is_prefix_of(data@),
{
    if data.len() < word.len() {
        return false;
    }
    let mut i: usize = 0;
    while i < word.len()
        invariant
            i <= word@.len() <= data@.len(),
            forall|j: int| 0 <= j < i ==> data@[j] == word@[j],
        decreases word@.len() - i,
    {
        if data[i] != word[i] {
            assert(data@.subrange(0, word@.len() as int)[i as int] != word@[i as int]);
            return false;
        }
        i += 1;
    }
    assert(word@ =~= data@.subrange(0, word@.len() as int));
    true
}

/// Takes the next token off the front of `data`. The result is the token,
/// the end of the stream (`Ok(None)`, on empty `data` alone) or the failure,
/// and beside it what is left of `data`: the bytes after the token, `None`
/// where the token ends the buffer, or all of `data` after a failure.
///
/// The token's bytes and the rest are disjoint pieces of `data`; what `data`
/// holds in the end is what is written through them.
pub fn split_next_token<'a>(data: &'a mut [u8]) -> (r: (
    TokenizeResult<Option<Token<'a>>>,
    Option<&'a mut [u8]>,
))
    ensures
        match next_step(old(data)@) {
            Step::End => {
                &&& r.0 matches Ok(None)
                &&& r.1 is None
                &&& final(data)@ == old(data)@
            },
            Step::Emit(kind, n) => {
                &&& 0 < n <= old(data)@.len()
                &&& r.0 matches Ok(Some(token))
                &&& token.kind() == kind
                &&& token.carries(old(data)@.subrange(0, n))
                &&& match r.1 {
                    Some(rest) => {
                        &&& n < old(data)@.len()
                        &&& rest@ == old(data)@.subrange(n, old(data)@.len() as int)
                    },
                    None => n == old(data)@.len(),
                }
                &&& final(data)@ == (match token {
                    Token::String(bytes) => final(bytes)@,
                    _ => old(data)@.subrange(0, n),
                }) + (match r.1 {
                    Some(rest) => final(rest)@,
                    None => Seq::empty(),
                })
            },
            Step::Fail(e) => {
                &&& r.0 matches Err(failure)
                &&& failure == e
                &&& r.1 matches Some(rest)
                &&& rest@ == old(data)@
                &&& final(data)@ == final(rest)@
            },
        },
{
    if data.len() == 0 {
        return (Ok(None), None);
    }
    let simple_token = match data[0] {
        LEFT_CURLY_BRACKET => Some(Token::BeginObject),
        RIGHT_CURLY_BRACKET => Some(Token::EndObject),
        LEFT_SQUARE_BRACKET => Some(Token::BeginArray),
        RIGHT_SQUARE_BRACKET => Some(Token::EndArray),
        COMMA => Some(Token::Comma),
        COLON => Some(Token::Colon),
        _ => None,
    };

    if let Some(token) = simple_token {
        let (_, remaining) = split_mut(data, 1);
        return (Ok(Some(token)), remaining);
    }
    if starts_with(data, TRUE.as_slice()) {
        let (_, remaining) = split_mut(data, TRUE.len());
        return (Ok(Some(Token::True)), remaining);
    }
    if starts_with(data, FALSE.as_slice()) {
        let (_, remaining) = split_mut(data, FALSE.len());
        return (Ok(Some(Token::False)), remaining);
    }
    if starts_with(data, NULL.as_slice()) {
        let (_, remaining) = split_mut(data, NULL.len());
        return (Ok(Some(Token::Null)), remaining);
    }
    if let Some(len) = find_whitespace(data) {
        proof {
            lemma_leading_run(data@, |b: u8| is_whitespace(b));
        }
        let (_, remaining) = split_mut(data, len);
        return (Ok(Some(Token::Whitespace)), remaining);
    }
    match find_string_literal(data) {
        Err(e) => {
            proof {
                lemma_first_terminator(data@, 1);
            }
            return (Err(e), Some(data));
        },
        Ok(Some(len)) => {
            proof {
                lemma_first_terminator(data@, 1);
            }
            let (string_literal, remaining) = split_mut(data, len);
            return (Ok(Some(Token::String(string_literal))), remaining);
        },
        Ok(None) => {},
    }
    if let Some(len) = find_number_literal(data) {
        proof {
            lemma_leading_run(data@, |b: u8| is_number_byte(b));
        }
        let (number_literal, remaining) = split_mut(data, len);
        return (Ok(Some(Token::Number(number_literal))), remaining);
    }
    (Err(Error::UnexpectedByte), Some(data))
}

/// The cursor over a buffer: the text that no token has been taken from yet.
///
/// After a failure the cursor stays where it is, so every later call meets
/// the same bytes and fails in the same way; `remaining` shows them.
pub struct Tokenizer<'a> {
    data: Option<&'a mut [u8]>,
}

impl<'a> View for Tokenizer<'a> {
    type V = Seq<u8>;

    /// The text that is still unread.
    open spec fn view(&self) -> Seq<u8> {
        match self.cursor() {
            Some(data) => data@,
            None => Seq::empty(),
        }
    }
}

impl<'a> Tokenizer<'a> {
    /// The piece of the buffer that the cursor holds: all of it that no
    /// token has taken. `None` once the buffer is used up.
    pub closed spec fn cursor(&self) -> Option<&'a mut [u8]> {
        self.data
    }

    /// A cursor at the front of `data`. It holds `data` itself: what is
    /// written through the tokens it hands out is written into `data`.
    pub fn new(data: &'a mut [u8]) -> (r: Self)
        ensures
            r@ == old(data)@,
            r.cursor() matches Some(held) && held@ == old(data)@ && final(held)@ == final(data)@,
    {
        Tokenizer { data: Some(data) }
    }

    /// The text that is still unread.
    pub fn remaining(&self) -> (r: &[u8])
        ensures
            r@ == self@,
    {
        match &self.data {
            Some(data) => &**data,
            None => &[],
        }
    }

    /// Gives the cursor up and hands back what it holds: the piece of the
    /// buffer that no token has taken, `None` once the buffer is used up.
    pub fn into_remaining(self) -> (r: Option<&'a mut [u8]>)
        ensures
            r == self.cursor(),
    {
        self.data
    }

    /// Takes the next token: `Ok(Some(..))` with the token, whose span then
    /// leaves the cursor; `Ok(None)` at the end of the stream; or the
    /// failure, which leaves the cursor as it was.
    ///
    /// The span and what the cursor keeps are the unread text cut in two: a
    /// string token holds its span of the buffer itself, and what is written
    /// through it is written there.
    pub fn next(&mut self) -> (r: TokenizeResult<Option<Token<'a>>>)
        ensures
            match next_step(old(self)@) {
                Step::End => {
                    &&& r matches Ok(None)
                    &&& final(self)@ == Seq::<u8>::empty()
                    &&& final(self).cursor() is None
                    &&& old(self).cursor() matches Some(held) ==> final(held)@ == held@
                },
                Step::Emit(kind, n) => {
                    &&& 0 < n <= old(self)@.len()
                    &&& r matches Ok(Some(token))
                    &&& token.kind() == kind
                    &&& token.carries(old(self)@.subrange(0, n))
                    &&& final(self)@ == old(self)@.subrange(n, old(self)@.len() as int)
                    &&& old(self)@ == old(self)@.subrange(0, n) + final(self)@
                    &&& token_spans(old(self)@) == seq![old(self)@.subrange(0, n)] + token_spans(
                        final(self)@,
                    )
                    &&& unread(old(self)@) == unread(final(self)@)
                    &&& old(self).cursor() matches Some(held)
                    &&& final(held)@ == (match token {
                        Token::String(bytes) => final(bytes)@,
                        _ => held@.subrange(0, n),
                    }) + (match final(self).cursor() {
                        Some(rest) => final(rest)@,
                        None => Seq::empty(),
                    })
                },
                Step::Fail(e) => {
                    &&& r matches Err(failure)
                    &&& failure == e
                    &&& final(self)@ == old(self)@
                    &&& token_spans(old(self)@) == Seq::<Seq<u8>>::empty()
                    &&& unread(old(self)@) == old(self)@
                    &&& old(self).cursor() matches Some(held)
                    &&& final(self).cursor() matches Some(kept)
                    &&& final(held)@ == final(kept)@
                },
            },
    {
        let data_option = self.data.take();
        let (token, remaining_data) = match data_option {
            Some(data) => split_next_token(data),
            None => (Ok(None), None),
        };
        self.data = remaining_data;
        proof {
            let text = old(self)@;
            if let Step::Emit(_, n) = next_step(text) {
                let rest = text.subrange(n, text.len() as int);
                assert(self@ == rest);
                assert(text =~= text.subrange(0, n) + rest);
                assert(token_spans(text) == seq![text.subrange(0, n)] + token_spans(rest));
                assert(unread(text) == unread(rest));
            }
        }
        token
    }
}

/// A token's length is never zero and never more than what is unread.
pub proof fn lemma_step_in_bounds(s: Seq<u8>)
    ensures
        next_step(s) matches Step::Emit(_, n) ==> 0 < n <= s.len(),
{
    lemma_leading_run(s, |b: u8| is_whitespace(b));
    lemma_leading_run(s, |b: u8| is_number_byte(b));
    lemma_first_terminator(s, 1);
}

/// The spans of the tokens that come out of `s`, in order, up to the end of
/// the stream or to the first failure.
pub open spec fn token_spans(s: Seq<u8>) -> Seq<Seq<u8>>
    decreases s.len(),
{
    if let Step::Emit(_, n) = next_step(s) {
        if 0 < n <= s.len() {
            seq![s.subrange(0, n)] + token_spans(s.subrange(n, s.len() as int))
        } else {
            seq![]
        }
    } else {
        seq![]
    }
}

/// What of `s` no token has taken when the stream stops: nothing at its end,
/// the text from the failing byte on after a failure.
pub open spec fn unread(s: Seq<u8>) -> Seq<u8>
    decreases s.len(),
{
    if let Step::Emit(_, n) = next_step(s) {
        if 0 < n <= s.len() {
            unread(s.subrange(n, s.len() as int))
        } else {
            s
        }
    } else {
        s
    }
}

/// The tokens partition the text: their spans, joined in the order in which
/// they come out, and after them what the stream left unread, are the text
/// itself, byte for byte. Where the stream runs to its end, nothing is left
/// unread and the spans alone are the text.
pub proof fn lemma_spans_partition(s: Seq<u8>)
    ensures
        token_spans(s).flatten() + unread(s) == s,
        unread(s).len() == 0 || next_step(unread(s)) is Fail,
        forall|i: int| 0 <= i < token_spans(s).len() ==> (#[trigger] token_spans(s)[i]).len() > 0,
    decreases s.len(),
{
    lemma_step_in_bounds(s);
    if let Step::Emit(_, n) = next_step(s) {
        let head = s.subrange(0, n);
        let tail = s.subrange(n, s.len() as int);
        lemma_spans_partition(tail);
        let spans = token_spans(s);
        assert(spans.first() == head);
        assert(spans.drop_first() =~= token_spans(tail));
        assert(spans.flatten() == head + token_spans(tail).flatten());
        assert(head + token_spans(tail).flatten() + unread(tail) =~= head + (token_spans(
            tail,
        ).flatten() + unread(tail)));
        assert(head + tail =~= s);
        assert forall|i: int| 0 <= i < spans.len() implies (#[trigger] spans[i]).len() > 0 by {
            if i > 0 {
                assert(spans[i] == token_spans(tail)[i - 1]);
            }
        }
    } else {
        assert(token_spans(s).flatten() =~= Seq::<u8>::empty());
        assert(Seq::<u8>::empty() + s =~= s);
    }
}

/// A failure is final: the cursor does not move, so the step after a failed
/// step is the same failed step.
pub proof fn lemma_failure_is_final(s: Seq<u8>)
    requires
        next_step(s) is Fail,
    ensures
        token_spans(s).len() == 0,
        unread(s) == s,
        next_step(unread(s)) == next_step(s),
{
}

/// A string token is a span as the string decoder asks for it: two bytes
/// at least, a quote at either end.
pub proof fn lemma_string_token_is_span(s: Seq<u8>)
    ensures
        next_step(s) matches Step::Emit(TokenKind::String, n) ==> is_string_span(
            s.subrange(0, n),
        ),
{
    lemma_first_terminator(s, 1);
}

} // verus!
