//! The tokenizer: from bytes to lexical tokens.

use vstd::prelude::*;
use crate::ascii::{byte_is_space, byte_is_word, is_word, spaces_end, lemma_spaces_end_bounds};
use crate::error::ErrorKind;
use crate::number::{
    is_canonical, lemma_lex_number_canonical, lex_number, scan_number, starts_number, NumberLex,
    READER_BUFFER_SIZE,
};

verus! {

/// One lexical unit. A number token carries its power of ten and its sign;
/// its digits are in the scratch buffer of whoever lexed it.
#[derive(Clone, Copy, Debug, PartialEq, Eq, Structural)]
pub enum Token {
    Null,
    False,
    True,
    Number(i32, bool),
    QuoteStart,
    ArrayBegin,
    ArrayEnd,
    ObjectBegin,
    ObjectEnd,
    Comma,
    Colon,
}

/// What reading something from a given index of the input comes to: a value
/// and the index of the first byte behind what was read, or a failure.
pub enum Lex<T> {
    Done { value: T, end: int },
    Fail { kind: ErrorKind },
}

/// Lexes one of the words `null`, `false` and `true` at `p`. The word must
/// be spelled out, and no letter, digit or `_` may follow it.
pub open spec fn lex_word(s: Seq<u8>, p: int, word: Seq<u8>, token: Token) -> Lex<Token> {
    let end = p + word.len();
    if end <= s.len() && s.subrange(p, end) == word && (end == s.len() || !is_word(s[end])) {
        Lex::Done { value: token, end }
    } else {
        Lex::Fail { kind: ErrorKind::UnexpectedToken }
    }
}

pub open spec fn word_null() -> Seq<u8> {
    seq![0x6e, 0x75, 0x6c, 0x6c]
}

pub open spec fn word_false() -> Seq<u8> {
    seq![0x66, 0x61, 0x6c, 0x73, 0x65]
}

pub open spec fn word_true() -> Seq<u8> {
    seq![0x74, 0x72, 0x75, 0x65]
}

/// Lexes the token that follows any white space at `i`. After a
/// `QuoteStart` the index stands behind the opening quote.
pub open spec fn lex_token(s: Seq<u8>, i: int) -> Lex<Token> {
    let p = spaces_end(s, i);
    if p >= s.len() {
        Lex::Fail { kind: ErrorKind::UnexpectedEndOfInput }
    } else if s[p] == 0x6e {
        lex_word(s, p, word_null(), Token::Null)
    } else if s[p] == 0x66 {
        lex_word(s, p, word_false(), Token::False)
    } else if s[p] == 0x74 {
        lex_word(s, p, word_true(), Token::True)
    } else if starts_number(s[p]) {
        match lex_number(s, p) {
            NumberLex::Number { digits, exponent, negative, end } => Lex::Done {
                value: Token::Number(exponent as i32, negative),
                end,
            },
            NumberLex::Fail { kind } => Lex::Fail { kind },
        }
    } else if s[p] == 0x22 {
        Lex::Done { value: Token::QuoteStart, end: p + 1 }
    } else if s[p] == 0x5b {
        Lex::Done { value: Token::ArrayBegin, end: p + 1 }
    } else if s[p] == 0x5d {
        Lex::Done { value: Token::ArrayEnd, end: p + 1 }
    } else if s[p] == 0x7b {
        Lex::Done { value: Token::ObjectBegin, end: p + 1 }
    } else if s[p] == 0x7d {
        Lex::Done { value: Token::ObjectEnd, end: p + 1 }
    } else if s[p] == 0x2c {
        Lex::Done { value: Token::Comma, end: p + 1 }
    } else if s[p] == 0x3a {
        Lex::Done { value: Token::Colon, end: p + 1 }
    } else {
        Lex::Fail { kind: ErrorKind::UnexpectedToken }
    }
}

/// The digits of the number token at `i`, and no digits where the token is
/// no number.
pub open spec fn token_digits(s: Seq<u8>, i: int) -> Seq<u8> {
    let p = spaces_end(s, i);
    if p < s.len() && starts_number(s[p]) {
        match lex_number(s, p) {
            NumberLex::Number { digits, exponent, negative, end } => digits,
            NumberLex::Fail { kind } => Seq::empty(),
        }
    } else {
        Seq::empty()
    }
}

/// Every token takes at least one byte and ends inside the input, and the
/// digits of a number token are in canonical form.
pub proof fn lemma_lex_token_bounds(s: Seq<u8>, i: int)
    requires
        0 <= i <= s.len(),
    ensures
        match lex_token(s, i) {
            Lex::Done { value, end } => i < end <= s.len() && (match value {
                Token::Number(exponent, negative) => is_canonical(
                    token_digits(s, i),
                    exponent as int,
                    negative,
                ),
                _ => true,
            }),
            Lex::Fail { .. } => true,
        },
{
    lemma_spaces_end_bounds(s, i);
    let p = spaces_end(s, i);
    if p < s.len() {
        if starts_number(s[p]) && s[p] != 0x6e && s[p] != 0x66 && s[p] != 0x74 {
            lemma_lex_number_canonical(s, p);
        }
    }
}

/// A token as the lexer hands it on.
#[derive(Clone, Copy, Debug)]
pub struct Scanned {
    /// The token.
    pub token: Token,
    /// How many digits were stored, for a number token.
    pub len: usize,
    /// The index of the first byte behind the token.
    pub end: usize,
}

/// Matches one of the words at `p`.
fn scan_word(input: &[u8], p: usize, word: &[u8], token: Token) -> (r: Result<Scanned, ErrorKind>)
    requires
        p <= input.len(),
        word.len() <= 5,
    ensures
        match lex_word(input@, p as int, word@, token) {
            Lex::Done { value, end } => r is Ok && r->Ok_0.token == value && r->Ok_0.end == end
                && r->Ok_0.len == 0,
            Lex::Fail { kind } => r == Err::<Scanned, ErrorKind>(kind),
        },
{
    let n = word.len();
    if input.len() - p < n {
        return Err(ErrorKind::UnexpectedToken);
    }
    let mut k: usize = 0;
    while k < n
        invariant
            k <= n,
            n == word.len(),
            p + n <= input.len(),
            input@.subrange(p as int, p + k) == word@.take(k as int),
        decreases n - k,
    {
        if input[p + k] != word[k] {
            proof {
                assert(input@.subrange(p as int, p + n)[k as int] != word@[k as int]);
            }
            return Err(ErrorKind::UnexpectedToken);
        }
        proof {
            assert(input@.subrange(p as int, p + k + 1) =~= input@.subrange(p as int, p + k).push(
                input@[p + k],
            ));
            assert(word@.take(k + 1) =~= word@.take(k as int).push(word@[k as int]));
        }
        k += 1;
    }
    proof {
        assert(word@.take(n as int) =~= word@);
    }
    if p + n < input.len() && byte_is_word(input[p + n]) {
        return Err(ErrorKind::UnexpectedToken);
    }
    Ok(Scanned { token, len: 0, end: p + n })
}

/// Lexes the token that follows any white space at `start`. The digits of a
/// number token go to the front of `digits`; any other token leaves `digits`
/// as it is.
pub fn scan_token(input: &[u8], start: usize, digits: &mut [u8; READER_BUFFER_SIZE]) -> (r: Result<
    Scanned,
    ErrorKind,
>)
    requires
        start <= input.len(),
    ensures
        match lex_token(input@, start as int) {
            Lex::Done { value, end } => {
                &&& r is Ok
                &&& r->Ok_0.token == value
                &&& r->Ok_0.end == end
                &&& start < end <= input.len()
                &&& match value {
                    Token::Number(exponent, negative) => {
                        &&& r->Ok_0.len == token_digits(input@, start as int).len()
                        &&& final(digits)@.take(r->Ok_0.len as int) == token_digits(
                            input@,
                            start as int,
                        )
                        &&& is_canonical(token_digits(input@, start as int), exponent as int, negative)
                    },
                    _ => r->Ok_0.len == 0 && *final(digits) == *old(digits),
                }
            },
            Lex::Fail { kind } => r == Err::<Scanned, ErrorKind>(kind),
        },
{
    let mut p: usize = start;
    while p < input.len() && byte_is_space(input[p])
        invariant
            start <= p <= input.len(),
            spaces_end(input@, start as int) == spaces_end(input@, p as int),
        decreases input.len() - p,
    {
        p += 1;
    }
    proof {
        lemma_lex_token_bounds(input@, start as int);
    }
    if p >= input.len() {
        return Err(ErrorKind::UnexpectedEndOfInput);
    }
    let c = input[p];
    if c == 0x6e {
        let word: [u8; 4] = [0x6e, 0x75, 0x6c, 0x6c];
        proof {
            assert(word@ =~= word_null());
        }
        scan_word(input, p, word.as_slice(), Token::Null)
    } else if c == 0x66 {
        let word: [u8; 5] = [0x66, 0x61, 0x6c, 0x73, 0x65];
        proof {
            assert(word@ =~= word_false());
        }
        scan_word(input, p, word.as_slice(), Token::False)
    } else if c == 0x74 {
        let word: [u8; 4] = [0x74, 0x72, 0x75, 0x65];
        proof {
            assert(word@ =~= word_true());
        }
        scan_word(input, p, word.as_slice(), Token::True)
    } else if (0x30 <= c && c <= 0x39) || c == 0x2d || c == 0x2e {
        let n = scan_number(input, p, digits)?;
        Ok(Scanned { token: Token::Number(n.exponent, n.negative), len: n.len, end: n.end })
    } else if c == 0x22 {
        Ok(Scanned { token: Token::QuoteStart, len: 0, end: p + 1 })
    } else if c == 0x5b {
        Ok(Scanned { token: Token::ArrayBegin, len: 0, end: p + 1 })
    } else if c == 0x5d {
        Ok(Scanned { token: Token::ArrayEnd, len: 0, end: p + 1 })
    } else if c == 0x7b {
        Ok(Scanned { token: Token::ObjectBegin, len: 0, end: p + 1 })
    } else if c == 0x7d {
        Ok(Scanned { token: Token::ObjectEnd, len: 0, end: p + 1 })
    } else if c == 0x2c {
        Ok(Scanned { token: Token::Comma, len: 0, end: p + 1 })
    } else if c == 0x3a {
        Ok(Scanned { token: Token::Colon, len: 0, end: p + 1 })
    } else {
        Err(ErrorKind::UnexpectedToken)
    }
}

} // verus!
