//! Reading a value as a boolean, as text, as bytes or as a character,
//! whatever kind of value the document holds.

use vstd::prelude::*;
use vstd::utf8::{decode_first_scalar, encode_utf8, is_scalar, valid_first_scalar, valid_utf8};
use crate::error::{Error, ErrorKind};
use crate::format::number_text;
use crate::number::READER_BUFFER_SIZE;
use crate::reader::{describe, fails_with, truncated, Reader};
use crate::skip::{skip_value, skip_value_after};
use crate::text::{lex_string, lex_string_end, next_len};
use crate::token::{lex_token, token_digits, word_false, word_null, word_true, Lex, Token};
use crate::trusted::{char_from_u32, string_from_utf8};

verus! {

/// Reads a value as a boolean. `null` is false, a number is true unless it
/// is zero, a string is true unless it is empty, and an array or an object
/// is true.
pub open spec fn lex_bool(s: Seq<u8>, i: int) -> Lex<bool> {
    match lex_token(s, i) {
        Lex::Fail { kind } => Lex::Fail { kind },
        Lex::Done { value: token, end } => match token {
            Token::Null | Token::False => Lex::Done { value: false, end },
            Token::True => Lex::Done { value: true, end },
            Token::Number(_, _) => Lex::Done { value: token_digits(s, i).len() != 0, end },
            Token::QuoteStart => if 0 <= end < s.len() && s[end] == 0x22 {
                Lex::Done { value: false, end: end + 1 }
            } else {
                match lex_string_end(s, end) {
                    Lex::Fail { kind } => Lex::Fail { kind },
                    Lex::Done { value, end: after } => Lex::Done { value: true, end: after },
                }
            },
            Token::ArrayBegin | Token::ObjectBegin => match skip_value_after(s, token, end) {
                Lex::Fail { kind } => Lex::Fail { kind },
                Lex::Done { value, end: after } => Lex::Done { value: true, end: after },
            },
            _ => Lex::Fail { kind: ErrorKind::UnexpectedToken },
        },
    }
}

/// Reads a value as text, in bytes. `null`, `false` and `true` give their
/// own spelling, a number gives its canonical text, which must fit the
/// scratch buffer, and a string gives what it holds. An array or an object
/// is rejected.
pub open spec fn lex_text(s: Seq<u8>, i: int) -> Lex<Seq<u8>> {
    match lex_token(s, i) {
        Lex::Fail { kind } => Lex::Fail { kind },
        Lex::Done { value: token, end } => match token {
            Token::Null => Lex::Done { value: word_null(), end },
            Token::False => Lex::Done { value: word_false(), end },
            Token::True => Lex::Done { value: word_true(), end },
            Token::Number(exponent, negative) => {
                let text = number_text(token_digits(s, i), exponent as int, negative);
                if text.len() <= READER_BUFFER_SIZE {
                    Lex::Done { value: text, end }
                } else {
                    Lex::Fail { kind: ErrorKind::NumberTooBig }
                }
            },
            Token::QuoteStart => lex_string(s, end, Seq::empty()),
            _ => Lex::Fail { kind: ErrorKind::UnexpectedToken },
        },
    }
}

/// Reads a value as a blob. `null` is the empty blob, a string gives the
/// bytes that it holds, and every other value is rejected.
pub open spec fn lex_blob(s: Seq<u8>, i: int) -> Lex<Seq<u8>> {
    match lex_token(s, i) {
        Lex::Fail { kind } => Lex::Fail { kind },
        Lex::Done { value: token, end } => match token {
            Token::Null => Lex::Done { value: Seq::empty(), end },
            Token::QuoteStart => lex_string(s, end, Seq::empty()),
            _ => Lex::Fail { kind: ErrorKind::UnexpectedToken },
        },
    }
}

/// Reads a value as one character: the first character of its text, as far
/// as the scratch buffer holds the text. An empty text has none, and a text
/// that does not start with a UTF-8 character is rejected.
pub open spec fn lex_char(s: Seq<u8>, i: int) -> Lex<char> {
    match lex_text(s, i) {
        Lex::Fail { kind } => Lex::Fail { kind },
        Lex::Done { value: text, end } => if text.len() == 0 {
            Lex::Fail { kind: ErrorKind::UnexpectedToken }
        } else if valid_first_scalar(truncated(text)) {
            Lex::Done { value: decode_first_scalar(truncated(text)) as char, end }
        } else {
            Lex::Fail { kind: ErrorKind::InvalidUtf8 }
        },
    }
}

/// The first character of `bytes`, if they start with one.
fn first_char(bytes: &[u8]) -> (r: Option<char>)
    ensures
        match r {
            Some(c) => valid_first_scalar(bytes@) && c == decode_first_scalar(bytes@) as char,
            None => !valid_first_scalar(bytes@),
        },
{
    let n = bytes.len();
    if n == 0 {
        return None;
    }
    let b0 = bytes[0];
    let point: u32 = if b0 <= 0x7f {
        let p: u32 = (b0 & 0x7f) as u32;
        assert(p <= 0x7f) by (bit_vector)
            requires
                p == (b0 & 0x7f) as u32,
        ;
        p
    } else if 0xc0 <= b0 && b0 <= 0xdf {
        if n < 2 || !(0x80 <= bytes[1] && bytes[1] <= 0xbf) {
            return None;
        }
        let b1 = bytes[1];
        let p: u32 = (((b0 & 0x1f) as u32) << 6) | ((b1 & 0x3f) as u32);
        assert(p <= 0x7ff) by (bit_vector)
            requires
                p == (((b0 & 0x1f) as u32) << 6) | ((b1 & 0x3f) as u32),
        ;
        if p < 0x80 {
            return None;
        }
        p
    } else if 0xe0 <= b0 && b0 <= 0xef {
        if n < 3 || !(0x80 <= bytes[1] && bytes[1] <= 0xbf) || !(0x80 <= bytes[2] && bytes[2]
            <= 0xbf) {
            return None;
        }
        let b1 = bytes[1];
        let b2 = bytes[2];
        let p: u32 = (((b0 & 0x0f) as u32) << 12) | (((b1 & 0x3f) as u32) << 6) | ((b2
            & 0x3f) as u32);
        assert(p <= 0xffff) by (bit_vector)
            requires
                p == (((b0 & 0x0f) as u32) << 12) | (((b1 & 0x3f) as u32) << 6) | ((b2
                    & 0x3f) as u32),
        ;
        if p < 0x800 || (0xd800 <= p && p <= 0xdfff) {
            return None;
        }
        p
    } else if 0xf0 <= b0 && b0 <= 0xf7 {
        if n < 4 || !(0x80 <= bytes[1] && bytes[1] <= 0xbf) || !(0x80 <= bytes[2] && bytes[2]
            <= 0xbf) || !(0x80 <= bytes[3] && bytes[3] <= 0xbf) {
            return None;
        }
        let b1 = bytes[1];
        let b2 = bytes[2];
        let b3 = bytes[3];
        let p: u32 = (((b0 & 0x07) as u32) << 18) | (((b1 & 0x3f) as u32) << 12) | (((b2
            & 0x3f) as u32) << 6) | ((b3 & 0x3f) as u32);
        if p < 0x10000 || p > 0x10ffff {
            return None;
        }
        p
    } else {
        return None;
    };
    proof {
        assert(is_scalar(point));
        assert(valid_first_scalar(bytes@));
        assert(point == decode_first_scalar(bytes@));
    }
    let c = char_from_u32(point);
    proof {
        if c is Some {
            vstd::utf8::char_u32_cast(c->Some_0, point);
        }
    }
    c
}

/// The spelling of `null`.
fn null_word() -> (word: [u8; 4])
    ensures
        word@ == word_null(),
{
    let word: [u8; 4] = [0x6e, 0x75, 0x6c, 0x6c];
    proof {
        assert(word@ =~= word_null());
    }
    word
}

/// The spelling of `false`.
fn false_word() -> (word: [u8; 5])
    ensures
        word@ == word_false(),
{
    let word: [u8; 5] = [0x66, 0x61, 0x6c, 0x73, 0x65];
    proof {
        assert(word@ =~= word_false());
    }
    word
}

/// The spelling of `true`.
fn true_word() -> (word: [u8; 4])
    ensures
        word@ == word_true(),
{
    let word: [u8; 4] = [0x74, 0x72, 0x75, 0x65];
    proof {
        assert(word@ =~= word_true());
    }
    word
}

impl Reader {
    /// Reads one value and forgets it.
    pub fn read_and_discard(&mut self) -> (r: Result<(), Error>)
        requires
            old(self).wf(),
        ensures
            final(self).follows(old(self)),
            final(self).last_index() == old(self).last_index(),
            match skip_value(old(self).input(), old(self).position()) {
                Lex::Done { value, end } => r is Ok && final(self).position() == end,
                Lex::Fail { kind } => fails_with(r, kind, old(self).path()),
            },
    {
        let token = self.next_token()?;
        self.skip_rest(token)
    }

    /// Reads one value as a boolean.
    pub fn read_bool(&mut self) -> (r: Result<bool, Error>)
        requires
            old(self).wf(),
        ensures
            final(self).follows(old(self)),
            final(self).last_index() == old(self).last_index(),
            match lex_bool(old(self).input(), old(self).position()) {
                Lex::Done { value, end } => r == Ok::<bool, Error>(value) && final(self).position()
                    == end,
                Lex::Fail { kind } => fails_with(r, kind, old(self).path()),
            },
    {
        let token = self.next_token()?;
        match token {
            Token::Null | Token::False => Ok(false),
            Token::True => Ok(true),
            Token::Number(_, _) => Ok(self.get_key().len() != 0),
            Token::QuoteStart => {
                if self.at_quote() {
                    self.take_byte();
                        Ok(false)
                } else {
                    self.skip_rest(token)?;
                        Ok(true)
                }
            },
            Token::ArrayBegin | Token::ObjectBegin => {
                self.skip_rest(token)?;
                Ok(true)
            },
            _ => Err(self.refuse(token, "boolean")),
        }
    }

    /// Reads one value as a blob: the bytes that a string holds, whatever
    /// they are.
    pub fn read_blob(&mut self) -> (r: Result<Vec<u8>, Error>)
        requires
            old(self).wf(),
        ensures
            final(self).follows(old(self)),
            final(self).last_index() == old(self).last_index(),
            match lex_blob(old(self).input(), old(self).position()) {
                Lex::Done { value, end } => r is Ok && r->Ok_0@ == value && final(self).position()
                    == end,
                Lex::Fail { kind } => fails_with(r, kind, old(self).path()),
            },
    {
        let token = self.next_token()?;
        match token {
            Token::Null => Ok(Vec::new()),
            Token::QuoteStart => self.read_blob_contents(),
            _ => Err(self.refuse(token, "string")),
        }
    }

    /// Reads a blob part by part, so that a blob of any length passes
    /// through the scratch buffer. The first call, with `first`, reads the
    /// start of the value and the first part of the blob; every further
    /// call reads the next part. After each call the part is in the scratch
    /// buffer, for `get_key` to hand out, and the result says whether
    /// another part follows: one does where the blob goes on and the buffer
    /// cannot take what its next byte, or its next escape, gives. The
    /// parts, one after the other, are the blob.
    pub fn pipe_blob(&mut self, first: bool) -> (r: Result<bool, Error>)
        requires
            old(self).wf(),
        ensures
            final(self).follows(old(self)),
            final(self).last_index() == old(self).last_index(),
            ({
                let blob = if first {
                    lex_blob(old(self).input(), old(self).position())
                } else {
                    lex_string(old(self).input(), old(self).position(), Seq::empty())
                };
                match r {
                    Ok(more) => if more {
                        &&& blob == lex_string(
                            old(self).input(),
                            final(self).position(),
                            final(self).scratch(),
                        )
                        &&& old(self).position() < final(self).position()
                        &&& final(self).scratch().len() + next_len(
                            old(self).input(),
                            final(self).position(),
                        ) > READER_BUFFER_SIZE
                    } else {
                        blob == (Lex::Done {
                            value: final(self).scratch(),
                            end: final(self).position(),
                        })
                    },
                    Err(e) => blob == (Lex::<Seq<u8>>::Fail { kind: e.kind })
                        && e.path@ == old(self).path(),
                }
            }),
    {
        if first {
            let token = self.next_token()?;
            match token {
                Token::Null => {
                    let none: [u8; 0] = [];
                    self.set_scratch(none.as_slice());
                    proof {
                        assert(none@ =~= Seq::<u8>::empty());
                    }
                    return Ok(false);
                },
                Token::QuoteStart => {},
                _ => {
                    return Err(self.refuse(token, "string"));
                },
            }
        }
        self.read_chunk()
    }

    /// Reads one value as text into the scratch buffer, as far as it fits.
    fn read_text(&mut self) -> (r: Result<(), Error>)
        requires
            old(self).wf(),
        ensures
            final(self).follows(old(self)),
            final(self).last_index() == old(self).last_index(),
            match lex_text(old(self).input(), old(self).position()) {
                Lex::Done { value, end } => r is Ok && final(self).scratch() == truncated(value)
                    && final(self).position() == end,
                Lex::Fail { kind } => fails_with(r, kind, old(self).path()),
            },
    {
        let token = self.next_token()?;
        match token {
            Token::Null => {
                let word = null_word();
                self.set_scratch(word.as_slice());
                Ok(())
            },
            Token::False => {
                let word = false_word();
                self.set_scratch(word.as_slice());
                Ok(())
            },
            Token::True => {
                let word = true_word();
                self.set_scratch(word.as_slice());
                Ok(())
            },
            Token::Number(exponent, negative) => self.number_to_scratch(exponent, negative),
            Token::QuoteStart => {
                self.read_string_contents_as_bytes()?;
                Ok(())
            },
            _ => Err(self.refuse(token, "string")),
        }
    }

    /// Reads one value as text into the scratch buffer and hands out what
    /// the buffer holds. A text that is longer than the buffer is cut off.
    pub fn read_bytes(&mut self) -> (r: Result<&[u8], Error>)
        requires
            old(self).wf(),
        ensures
            final(self).follows(old(self)),
            final(self).last_index() == old(self).last_index(),
            match lex_text(old(self).input(), old(self).position()) {
                Lex::Done { value, end } => r is Ok && r->Ok_0@ == truncated(value)
                    && final(self).scratch() == truncated(value) && final(self).position() == end,
                Lex::Fail { kind } => fails_with(r, kind, old(self).path()),
            },
    {
        self.read_text()?;
        Ok(self.get_key())
    }

    /// Reads one value as one character.
    pub fn read_char(&mut self) -> (r: Result<char, Error>)
        requires
            old(self).wf(),
        ensures
            final(self).follows(old(self)),
            final(self).last_index() == old(self).last_index(),
            match lex_char(old(self).input(), old(self).position()) {
                Lex::Done { value, end } => r == Ok::<char, Error>(value) && final(self).position()
                    == end,
                Lex::Fail { kind } => fails_with(r, kind, old(self).path()),
            },
    {
        self.read_text()?;
        let text = self.get_key();
        if text.len() == 0 {
            return Err(
                self.fail(ErrorKind::UnexpectedToken, "Expected a character, got empty string"),
            );
        }
        match first_char(text) {
            Some(c) => Ok(c),
            None => Err(self.fail(ErrorKind::InvalidUtf8, describe(ErrorKind::InvalidUtf8))),
        }
    }

    /// Reads one value as text. The text must be UTF-8.
    pub fn read_string(&mut self) -> (r: Result<String, Error>)
        requires
            old(self).wf(),
        ensures
            final(self).follows(old(self)),
            final(self).last_index() == old(self).last_index(),
            match lex_text(old(self).input(), old(self).position()) {
                Lex::Done { value, end } => if valid_utf8(value) {
                    r is Ok && encode_utf8(r->Ok_0@) == value && final(self).position() == end
                } else {
                    fails_with(r, ErrorKind::InvalidUtf8, old(self).path())
                },
                Lex::Fail { kind } => fails_with(r, kind, old(self).path()),
            },
    {
        let token = self.next_token()?;
        let bytes: Vec<u8> = match token {
            Token::Null => {
                let word = null_word();
                vstd::slice::slice_to_vec(word.as_slice())
            },
            Token::False => {
                let word = false_word();
                vstd::slice::slice_to_vec(word.as_slice())
            },
            Token::True => {
                let word = true_word();
                vstd::slice::slice_to_vec(word.as_slice())
            },
            Token::Number(exponent, negative) => {
                self.number_to_scratch(exponent, negative)?;
                vstd::slice::slice_to_vec(self.get_key())
            },
            Token::QuoteStart => self.read_blob_contents()?,
            _ => {
                return Err(self.refuse(token, "string"));
            },
        };
        match string_from_utf8(bytes) {
            Some(text) => Ok(text),
            None => Err(self.fail(ErrorKind::InvalidUtf8, describe(ErrorKind::InvalidUtf8))),
        }
    }
}

} // verus!
