//! Reading a value as a number, whatever kind of value the document holds.

use vstd::prelude::*;
use crate::error::{Error, ErrorKind};
use crate::integer::{decimal_to_signed, decimal_to_unsigned, decimal_trunc};
use crate::number::{is_canonical, lex_quoted_number, Decimal, READER_BUFFER_SIZE};
use crate::reader::{describe, fails_with, Reader};
use crate::text::lex_string;
use crate::token::{lex_token, token_digits, Lex, Token};

verus! {

/// The number zero.
pub open spec fn decimal_zero() -> Decimal {
    Decimal { digits: Seq::empty(), exponent: 0, negative: false }
}

/// The number one.
pub open spec fn decimal_one() -> Decimal {
    Decimal { digits: seq![0x31u8], exponent: 0, negative: false }
}

/// Reads a value as a decimal number. `null` and `false` are zero, `true`
/// is one, a number is itself, and a string is the number that its text
/// spells, if the text fits the scratch buffer and spells one. An array or
/// an object is rejected.
pub open spec fn lex_decimal(s: Seq<u8>, i: int) -> Lex<Decimal> {
    match lex_token(s, i) {
        Lex::Fail { kind } => Lex::Fail { kind },
        Lex::Done { value: token, end } => match token {
            Token::Null | Token::False => Lex::Done { value: decimal_zero(), end },
            Token::True => Lex::Done { value: decimal_one(), end },
            Token::Number(exponent, negative) => Lex::Done {
                value: Decimal { digits: token_digits(s, i), exponent: exponent as int, negative },
                end,
            },
            Token::QuoteStart => match lex_string(s, end, Seq::empty()) {
                Lex::Fail { kind } => Lex::Fail { kind },
                Lex::Done { value: text, end: after } => if text.len() > READER_BUFFER_SIZE {
                    Lex::Fail { kind: ErrorKind::InvalidNumberFormat }
                } else {
                    match lex_quoted_number(text) {
                        Ok(d) => Lex::Done { value: d, end: after },
                        Err(kind) => Lex::Fail { kind },
                    }
                },
            },
            _ => Lex::Fail { kind: ErrorKind::UnexpectedToken },
        },
    }
}

/// Reads a value as an integer between `min` and `max`: the whole part of
/// the number that the value is read as. A whole part outside the bounds
/// is a number too big.
pub open spec fn lex_integer(s: Seq<u8>, i: int, min: int, max: int) -> Lex<int> {
    match lex_decimal(s, i) {
        Lex::Fail { kind } => Lex::Fail { kind },
        Lex::Done { value: d, end } => {
            let v = decimal_trunc(d.digits, d.exponent, d.negative);
            if min <= v <= max {
                Lex::Done { value: v, end }
            } else {
                Lex::Fail { kind: ErrorKind::NumberTooBig }
            }
        },
    }
}

impl Reader {
    /// Reads one value as a decimal number. The result is the power of ten
    /// and the sign; the digits are in the scratch buffer.
    pub fn read_number(&mut self) -> (r: Result<(i32, bool), Error>)
        requires
            old(self).wf(),
        ensures
            final(self).follows(old(self)),
            final(self).last_index() == old(self).last_index(),
            match lex_decimal(old(self).input(), old(self).position()) {
                Lex::Done { value, end } => {
                    &&& r == Ok::<(i32, bool), Error>((value.exponent as i32, value.negative))
                    &&& final(self).scratch() == value.digits
                    &&& is_canonical(value.digits, value.exponent, value.negative)
                    &&& final(self).position() == end
                },
                Lex::Fail { kind } => fails_with(r, kind, old(self).path()),
            },
    {
        let token = self.next_token()?;
        match token {
            Token::Null | Token::False => {
                let none: [u8; 0] = [];
                self.set_scratch(none.as_slice());
                proof {
                    assert(none@ =~= Seq::<u8>::empty());
                }
                Ok((0, false))
            },
            Token::True => {
                let one: [u8; 1] = [0x31];
                self.set_scratch(one.as_slice());
                proof {
                    assert(one@ =~= seq![0x31u8]);
                }
                Ok((0, false))
            },
            Token::Number(exponent, negative) => Ok((exponent, negative)),
            Token::QuoteStart => {
                let complete = self.read_string_contents_as_bytes()?;
                if !complete {
                    return Err(
                        self.fail(
                            ErrorKind::InvalidNumberFormat,
                            describe(ErrorKind::InvalidNumberFormat),
                        ),
                    );
                }
                self.scratch_to_number()
            },
            _ => Err(self.refuse(token, "number")),
        }
    }

    /// Reads one value as a signed integer between `min` and `max`.
    fn read_signed(&mut self, min: i128, max: i128) -> (r: Result<i128, Error>)
        requires
            old(self).wf(),
            min < 0 <= max,
        ensures
            final(self).follows(old(self)),
            final(self).last_index() == old(self).last_index(),
            match lex_integer(old(self).input(), old(self).position(), min as int, max as int) {
                Lex::Done { value, end } => r == Ok::<i128, Error>(value as i128)
                    && final(self).position() == end,
                Lex::Fail { kind } => fails_with(r, kind, old(self).path()),
            },
    {
        let (exponent, negative) = self.read_number()?;
        match decimal_to_signed(self.get_key(), exponent, negative, min, max) {
            Some(v) => Ok(v),
            None => Err(self.fail(ErrorKind::NumberTooBig, describe(ErrorKind::NumberTooBig))),
        }
    }

    /// Reads one value as an unsigned integer up to `max`.
    fn read_unsigned(&mut self, max: u128) -> (r: Result<u128, Error>)
        requires
            old(self).wf(),
        ensures
            final(self).follows(old(self)),
            final(self).last_index() == old(self).last_index(),
            match lex_integer(old(self).input(), old(self).position(), 0, max as int) {
                Lex::Done { value, end } => r == Ok::<u128, Error>(value as u128)
                    && final(self).position() == end,
                Lex::Fail { kind } => fails_with(r, kind, old(self).path()),
            },
    {
        let (exponent, negative) = self.read_number()?;
        match decimal_to_unsigned(self.get_key(), exponent, negative, max) {
            Some(v) => Ok(v),
            None => Err(self.fail(ErrorKind::NumberTooBig, describe(ErrorKind::NumberTooBig))),
        }
    }

    /// Reads one value as an `i8`.
    pub fn read_i8(&mut self) -> (r: Result<i8, Error>)
        requires
            old(self).wf(),
        ensures
            final(self).follows(old(self)),
            final(self).last_index() == old(self).last_index(),
            match lex_integer(
                old(self).input(),
                old(self).position(),
                i8::MIN as int,
                i8::MAX as int,
            ) {
                Lex::Done { value, end } => r == Ok::<i8, Error>(value as i8)
                    && final(self).position() == end,
                Lex::Fail { kind } => fails_with(r, kind, old(self).path()),
            },
    {
        let v = self.read_signed(i8::MIN as i128, i8::MAX as i128)?;
        Ok(v as i8)
    }

    /// Reads one value as an `i16`.
    pub fn read_i16(&mut self) -> (r: Result<i16, Error>)
        requires
            old(self).wf(),
        ensures
            final(self).follows(old(self)),
            final(self).last_index() == old(self).last_index(),
            match lex_integer(
                old(self).input(),
                old(self).position(),
                i16::MIN as int,
                i16::MAX as int,
            ) {
                Lex::Done { value, end } => r == Ok::<i16, Error>(value as i16)
                    && final(self).position() == end,
                Lex::Fail { kind } => fails_with(r, kind, old(self).path()),
            },
    {
        let v = self.read_signed(i16::MIN as i128, i16::MAX as i128)?;
        Ok(v as i16)
    }

    /// Reads one value as an `i32`.
    pub fn read_i32(&mut self) -> (r: Result<i32, Error>)
        requires
            old(self).wf(),
        ensures
            final(self).follows(old(self)),
            final(self).last_index() == old(self).last_index(),
            match lex_integer(
                old(self).input(),
                old(self).position(),
                i32::MIN as int,
                i32::MAX as int,
            ) {
                Lex::Done { value, end } => r == Ok::<i32, Error>(value as i32)
                    && final(self).position() == end,
                Lex::Fail { kind } => fails_with(r, kind, old(self).path()),
            },
    {
        let v = self.read_signed(i32::MIN as i128, i32::MAX as i128)?;
        Ok(v as i32)
    }

    /// Reads one value as an `i64`.
    pub fn read_i64(&mut self) -> (r: Result<i64, Error>)
        requires
            old(self).wf(),
        ensures
            final(self).follows(old(self)),
            final(self).last_index() == old(self).last_index(),
            match lex_integer(
                old(self).input(),
                old(self).position(),
                i64::MIN as int,
                i64::MAX as int,
            ) {
                Lex::Done { value, end } => r == Ok::<i64, Error>(value as i64)
                    && final(self).position() == end,
                Lex::Fail { kind } => fails_with(r, kind, old(self).path()),
            },
    {
        let v = self.read_signed(i64::MIN as i128, i64::MAX as i128)?;
        Ok(v as i64)
    }

    /// Reads one value as an `i128`.
    pub fn read_i128(&mut self) -> (r: Result<i128, Error>)
        requires
            old(self).wf(),
        ensures
            final(self).follows(old(self)),
            final(self).last_index() == old(self).last_index(),
            match lex_integer(
                old(self).input(),
                old(self).position(),
                i128::MIN as int,
                i128::MAX as int,
            ) {
                Lex::Done { value, end } => r == Ok::<i128, Error>(value as i128)
                    && final(self).position() == end,
                Lex::Fail { kind } => fails_with(r, kind, old(self).path()),
            },
    {
        let v = self.read_signed(i128::MIN as i128, i128::MAX as i128)?;
        Ok(v as i128)
    }

    /// Reads one value as an `isize`.
    pub fn read_isize(&mut self) -> (r: Result<isize, Error>)
        requires
            old(self).wf(),
        ensures
            final(self).follows(old(self)),
            final(self).last_index() == old(self).last_index(),
            match lex_integer(
                old(self).input(),
                old(self).position(),
                isize::MIN as int,
                isize::MAX as int,
            ) {
                Lex::Done { value, end } => r == Ok::<isize, Error>(value as isize)
                    && final(self).position() == end,
                Lex::Fail { kind } => fails_with(r, kind, old(self).path()),
            },
    {
        let v = self.read_signed(isize::MIN as i128, isize::MAX as i128)?;
        Ok(v as isize)
    }

    /// Reads one value as a `u8`.
    pub fn read_u8(&mut self) -> (r: Result<u8, Error>)
        requires
            old(self).wf(),
        ensures
            final(self).follows(old(self)),
            final(self).last_index() == old(self).last_index(),
            match lex_integer(old(self).input(), old(self).position(), 0, u8::MAX as int) {
                Lex::Done { value, end } => r == Ok::<u8, Error>(value as u8)
                    && final(self).position() == end,
                Lex::Fail { kind } => fails_with(r, kind, old(self).path()),
            },
    {
        let v = self.read_unsigned(u8::MAX as u128)?;
        Ok(v as u8)
    }

    /// Reads one value as a `u16`.
    pub fn read_u16(&mut self) -> (r: Result<u16, Error>)
        requires
            old(self).wf(),
        ensures
            final(self).follows(old(self)),
            final(self).last_index() == old(self).last_index(),
            match lex_integer(old(self).input(), old(self).position(), 0, u16::MAX as int) {
                Lex::Done { value, end } => r == Ok::<u16, Error>(value as u16)
                    && final(self).position() == end,
                Lex::Fail { kind } => fails_with(r, kind, old(self).path()),
            },
    {
        let v = self.read_unsigned(u16::MAX as u128)?;
        Ok(v as u16)
    }

    /// Reads one value as a `u32`.
    pub fn read_u32(&mut self) -> (r: Result<u32, Error>)
        requires
            old(self).wf(),
        ensures
            final(self).follows(old(self)),
            final(self).last_index() == old(self).last_index(),
            match lex_integer(old(self).input(), old(self).position(), 0, u32::MAX as int) {
                Lex::Done { value, end } => r == Ok::<u32, Error>(value as u32)
                    && final(self).position() == end,
                Lex::Fail { kind } => fails_with(r, kind, old(self).path()),
            },
    {
        let v = self.read_unsigned(u32::MAX as u128)?;
        Ok(v as u32)
    }

    /// Reads one value as a `u64`.
    pub fn read_u64(&mut self) -> (r: Result<u64, Error>)
        requires
            old(self).wf(),
        ensures
            final(self).follows(old(self)),
            final(self).last_index() == old(self).last_index(),
            match lex_integer(old(self).input(), old(self).position(), 0, u64::MAX as int) {
                Lex::Done { value, end } => r == Ok::<u64, Error>(value as u64)
                    && final(self).position() == end,
                Lex::Fail { kind } => fails_with(r, kind, old(self).path()),
            },
    {
        let v = self.read_unsigned(u64::MAX as u128)?;
        Ok(v as u64)
    }

    /// Reads one value as a `u128`.
    pub fn read_u128(&mut self) -> (r: Result<u128, Error>)
        requires
            old(self).wf(),
        ensures
            final(self).follows(old(self)),
            final(self).last_index() == old(self).last_index(),
            match lex_integer(old(self).input(), old(self).position(), 0, u128::MAX as int) {
                Lex::Done { value, end } => r == Ok::<u128, Error>(value as u128)
                    && final(self).position() == end,
                Lex::Fail { kind } => fails_with(r, kind, old(self).path()),
            },
    {
        let v = self.read_unsigned(u128::MAX as u128)?;
        Ok(v as u128)
    }

    /// Reads one value as a `usize`.
    pub fn read_usize(&mut self) -> (r: Result<usize, Error>)
        requires
            old(self).wf(),
        ensures
            final(self).follows(old(self)),
            final(self).last_index() == old(self).last_index(),
            match lex_integer(old(self).input(), old(self).position(), 0, usize::MAX as int) {
                Lex::Done { value, end } => r == Ok::<usize, Error>(value as usize)
                    && final(self).position() == end,
                Lex::Fail { kind } => fails_with(r, kind, old(self).path()),
            },
    {
        let v = self.read_unsigned(usize::MAX as u128)?;
        Ok(v as usize)
    }
}

} // verus!
