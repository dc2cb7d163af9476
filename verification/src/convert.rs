//! From a `Value` to the types of the language.

use vstd::prelude::*;
use vstd::arithmetic::power::{lemma_pow0, lemma_pow1, lemma_pow_adds, pow};
use vstd::std_specs::convert::TryFromSpecImpl;
use vstd::utf8::{encode_utf8, valid_utf8};
use crate::ascii::{
    all_digits, byte_is_digit, is_digit, lemma_digits_value_zeros, lemma_nat_text,
    lemma_nat_text_first, lemma_nat_text_len, nat_digits, nat_text, zeros,
};
use crate::integer::{decimal_to_signed, decimal_to_unsigned, decimal_trunc};
use crate::format::{number_text, push_number_text};
use crate::number::{
    lex_quoted_number, scan_quoted_number, trailing_zeros, Decimal, READER_BUFFER_SIZE,
};
use crate::token::{word_false, word_null, word_true};
use crate::trusted::{char_to_string, string_from_utf8};
use crate::value::{Node, Value};

verus! {

/// Whether every byte is a decimal digit.
pub fn only_digits(bytes: &[u8]) -> (r: bool)
    ensures
        r == all_digits(bytes@),
{
    let mut i: usize = 0;
    while i < bytes.len()
        invariant
            i <= bytes.len(),
            forall|j: int| 0 <= j < i ==> is_digit(#[trigger] bytes@[j]),
        decreases bytes.len() - i,
    {
        if !byte_is_digit(bytes[i]) {
            return false;
        }
        i += 1;
    }
    true
}

/// The number that a value is taken for: `null` and `false` are zero,
/// `true` is one, a number with proper digits is itself, and a string of no
/// more than `READER_BUFFER_SIZE` bytes is the number that it spells.
/// Nothing else is taken for a number.
pub open spec fn value_decimal(v: Value) -> Option<Decimal> {
    match v {
        Value::Null => Some(Decimal { digits: Seq::empty(), exponent: 0, negative: false }),
        Value::Bool(b) => Some(
            Decimal {
                digits: if b {
                    seq![0x31u8]
                } else {
                    Seq::empty()
                },
                exponent: 0,
                negative: false,
            },
        ),
        Value::Number(digits, exponent, negative) => if all_digits(digits@) {
            Some(Decimal { digits: digits@, exponent: exponent as int, negative })
        } else {
            None
        },
        Value::String(text) => if encode_utf8(text@).len() > READER_BUFFER_SIZE {
            None
        } else {
            match lex_quoted_number(encode_utf8(text@)) {
                Ok(d) => Some(d),
                Err(_) => None,
            }
        },
        _ => None,
    }
}

/// The whole part of the number that a value is taken for, if there is one
/// and it lies between `min` and `max`.
pub open spec fn value_integer(v: Value, min: int, max: int) -> Option<int> {
    match value_decimal(v) {
        Some(d) => {
            let t = decimal_trunc(d.digits, d.exponent, d.negative);
            if min <= t <= max {
                Some(t)
            } else {
                None
            }
        },
        None => None,
    }
}

/// The digits, as far as there are any, the exponent and the sign of the
/// number that a value is taken for.
fn value_to_decimal(v: &Value, digits: &mut [u8; READER_BUFFER_SIZE]) -> (r: Option<
    (usize, i32, bool),
>)
    ensures
        match value_decimal(*v) {
            Some(d) => {
                &&& r is Some
                &&& !(*v is Number) ==> r->Some_0.0 == d.digits.len() && final(digits)@.take(
                    d.digits.len() as int,
                ) == d.digits
                &&& r->Some_0.1 == d.exponent
                &&& r->Some_0.2 == d.negative
                &&& all_digits(d.digits)
            },
            None => r is None,
        },
{
    match v {
        Value::Null => {
            proof {
                assert(digits@.take(0) =~= Seq::<u8>::empty());
            }
            Some((0, 0, false))
        },
        Value::Bool(b) => {
            if *b {
                digits[0] = 0x31;
                proof {
                    assert(digits@.take(1) =~= seq![0x31u8]);
                }
                Some((1, 0, false))
            } else {
                proof {
                    assert(digits@.take(0) =~= Seq::<u8>::empty());
                }
                Some((0, 0, false))
            }
        },
        Value::Number(own, exponent, negative) => {
            if only_digits(own.as_slice()) {
                Some((0, *exponent, *negative))
            } else {
                None
            }
        },
        Value::String(text) => {
            let bytes = text.as_str().as_bytes();
            if bytes.len() > READER_BUFFER_SIZE {
                return None;
            }
            match scan_quoted_number(bytes, digits) {
                Ok(n) => Some((n.len, n.exponent, n.negative)),
                Err(_) => None,
            }
        },
        _ => None,
    }
}

/// The whole part of the number that a value is taken for, as a signed
/// integer.
pub fn value_to_signed(v: &Value, min: i128, max: i128) -> (r: Option<i128>)
    requires
        min < 0 <= max,
    ensures
        r == (match value_integer(*v, min as int, max as int) {
            Some(t) => Some(t as i128),
            None => None,
        }),
{
    let mut digits = [0u8; READER_BUFFER_SIZE];
    let (len, exponent, negative) = value_to_decimal(v, &mut digits)?;
    match v {
        Value::Number(own, _, _) => decimal_to_signed(own.as_slice(), exponent, negative, min, max),
        _ => {
            let slice = vstd::slice::slice_subrange(digits.as_slice(), 0, len);
            proof {
                assert(slice@ =~= digits@.take(len as int));
            }
            decimal_to_signed(slice, exponent, negative, min, max)
        },
    }
}

/// The whole part of the number that a value is taken for, as an unsigned
/// integer.
pub fn value_to_unsigned(v: &Value, max: u128) -> (r: Option<u128>)
    ensures
        r == (match value_integer(*v, 0, max as int) {
            Some(t) => Some(t as u128),
            None => None,
        }),
{
    let mut digits = [0u8; READER_BUFFER_SIZE];
    let (len, exponent, negative) = value_to_decimal(v, &mut digits)?;
    match v {
        Value::Number(own, _, _) => decimal_to_unsigned(own.as_slice(), exponent, negative, max),
        _ => {
            let slice = vstd::slice::slice_subrange(digits.as_slice(), 0, len);
            proof {
                assert(slice@ =~= digits@.take(len as int));
            }
            decimal_to_unsigned(slice, exponent, negative, max)
        },
    }
}

impl TryFrom<Value> for i8 {
    type Error = ();

    /// The whole part of the number that the value is taken for.
    fn try_from(value: Value) -> (r: Result<Self, ()>) {
        match value_to_signed(&value, i8::MIN as i128, i8::MAX as i128) {
            Some(v) => Ok(v as i8),
            None => Err(()),
        }
    }
}

impl TryFromSpecImpl<Value> for i8 {
    open spec fn obeys_try_from_spec() -> bool {
        true
    }

    open spec fn try_from_spec(v: Value) -> Result<Self, ()> {
        match value_integer(v, i8::MIN as int, i8::MAX as int) {
            Some(t) => Ok(t as i8),
            None => Err(()),
        }
    }
}

impl TryFrom<Value> for i16 {
    type Error = ();

    /// The whole part of the number that the value is taken for.
    fn try_from(value: Value) -> (r: Result<Self, ()>) {
        match value_to_signed(&value, i16::MIN as i128, i16::MAX as i128) {
            Some(v) => Ok(v as i16),
            None => Err(()),
        }
    }
}

impl TryFromSpecImpl<Value> for i16 {
    open spec fn obeys_try_from_spec() -> bool {
        true
    }

    open spec fn try_from_spec(v: Value) -> Result<Self, ()> {
        match value_integer(v, i16::MIN as int, i16::MAX as int) {
            Some(t) => Ok(t as i16),
            None => Err(()),
        }
    }
}

impl TryFrom<Value> for i32 {
    type Error = ();

    /// The whole part of the number that the value is taken for.
    fn try_from(value: Value) -> (r: Result<Self, ()>) {
        match value_to_signed(&value, i32::MIN as i128, i32::MAX as i128) {
            Some(v) => Ok(v as i32),
            None => Err(()),
        }
    }
}

impl TryFromSpecImpl<Value> for i32 {
    open spec fn obeys_try_from_spec() -> bool {
        true
    }

    open spec fn try_from_spec(v: Value) -> Result<Self, ()> {
        match value_integer(v, i32::MIN as int, i32::MAX as int) {
            Some(t) => Ok(t as i32),
            None => Err(()),
        }
    }
}

impl TryFrom<Value> for i64 {
    type Error = ();

    /// The whole part of the number that the value is taken for.
    fn try_from(value: Value) -> (r: Result<Self, ()>) {
        match value_to_signed(&value, i64::MIN as i128, i64::MAX as i128) {
            Some(v) => Ok(v as i64),
            None => Err(()),
        }
    }
}

impl TryFromSpecImpl<Value> for i64 {
    open spec fn obeys_try_from_spec() -> bool {
        true
    }

    open spec fn try_from_spec(v: Value) -> Result<Self, ()> {
        match value_integer(v, i64::MIN as int, i64::MAX as int) {
            Some(t) => Ok(t as i64),
            None => Err(()),
        }
    }
}

impl TryFrom<Value> for i128 {
    type Error = ();

    /// The whole part of the number that the value is taken for.
    fn try_from(value: Value) -> (r: Result<Self, ()>) {
        match value_to_signed(&value, i128::MIN as i128, i128::MAX as i128) {
            Some(v) => Ok(v as i128),
            None => Err(()),
        }
    }
}

impl TryFromSpecImpl<Value> for i128 {
    open spec fn obeys_try_from_spec() -> bool {
        true
    }

    open spec fn try_from_spec(v: Value) -> Result<Self, ()> {
        match value_integer(v, i128::MIN as int, i128::MAX as int) {
            Some(t) => Ok(t as i128),
            None => Err(()),
        }
    }
}

impl TryFrom<Value> for isize {
    type Error = ();

    /// The whole part of the number that the value is taken for.
    fn try_from(value: Value) -> (r: Result<Self, ()>) {
        match value_to_signed(&value, isize::MIN as i128, isize::MAX as i128) {
            Some(v) => Ok(v as isize),
            None => Err(()),
        }
    }
}

impl TryFromSpecImpl<Value> for isize {
    open spec fn obeys_try_from_spec() -> bool {
        true
    }

    open spec fn try_from_spec(v: Value) -> Result<Self, ()> {
        match value_integer(v, isize::MIN as int, isize::MAX as int) {
            Some(t) => Ok(t as isize),
            None => Err(()),
        }
    }
}

impl TryFrom<Value> for u8 {
    type Error = ();

    /// The whole part of the number that the value is taken for.
    fn try_from(value: Value) -> (r: Result<Self, ()>) {
        match value_to_unsigned(&value, u8::MAX as u128) {
            Some(v) => Ok(v as u8),
            None => Err(()),
        }
    }
}

impl TryFromSpecImpl<Value> for u8 {
    open spec fn obeys_try_from_spec() -> bool {
        true
    }

    open spec fn try_from_spec(v: Value) -> Result<Self, ()> {
        match value_integer(v, 0, u8::MAX as int) {
            Some(t) => Ok(t as u8),
            None => Err(()),
        }
    }
}

impl TryFrom<Value> for u16 {
    type Error = ();

    /// The whole part of the number that the value is taken for.
    fn try_from(value: Value) -> (r: Result<Self, ()>) {
        match value_to_unsigned(&value, u16::MAX as u128) {
            Some(v) => Ok(v as u16),
            None => Err(()),
        }
    }
}

impl TryFromSpecImpl<Value> for u16 {
    open spec fn obeys_try_from_spec() -> bool {
        true
    }

    open spec fn try_from_spec(v: Value) -> Result<Self, ()> {
        match value_integer(v, 0, u16::MAX as int) {
            Some(t) => Ok(t as u16),
            None => Err(()),
        }
    }
}

impl TryFrom<Value> for u32 {
    type Error = ();

    /// The whole part of the number that the value is taken for.
    fn try_from(value: Value) -> (r: Result<Self, ()>) {
        match value_to_unsigned(&value, u32::MAX as u128) {
            Some(v) => Ok(v as u32),
            None => Err(()),
        }
    }
}

impl TryFromSpecImpl<Value> for u32 {
    open spec fn obeys_try_from_spec() -> bool {
        true
    }

    open spec fn try_from_spec(v: Value) -> Result<Self, ()> {
        match value_integer(v, 0, u32::MAX as int) {
            Some(t) => Ok(t as u32),
            None => Err(()),
        }
    }
}

impl TryFrom<Value> for u64 {
    type Error = ();

    /// The whole part of the number that the value is taken for.
    fn try_from(value: Value) -> (r: Result<Self, ()>) {
        match value_to_unsigned(&value, u64::MAX as u128) {
            Some(v) => Ok(v as u64),
            None => Err(()),
        }
    }
}

impl TryFromSpecImpl<Value> for u64 {
    open spec fn obeys_try_from_spec() -> bool {
        true
    }

    open spec fn try_from_spec(v: Value) -> Result<Self, ()> {
        match value_integer(v, 0, u64::MAX as int) {
            Some(t) => Ok(t as u64),
            None => Err(()),
        }
    }
}

impl TryFrom<Value> for u128 {
    type Error = ();

    /// The whole part of the number that the value is taken for.
    fn try_from(value: Value) -> (r: Result<Self, ()>) {
        match value_to_unsigned(&value, u128::MAX as u128) {
            Some(v) => Ok(v as u128),
            None => Err(()),
        }
    }
}

impl TryFromSpecImpl<Value> for u128 {
    open spec fn obeys_try_from_spec() -> bool {
        true
    }

    open spec fn try_from_spec(v: Value) -> Result<Self, ()> {
        match value_integer(v, 0, u128::MAX as int) {
            Some(t) => Ok(t as u128),
            None => Err(()),
        }
    }
}

impl TryFrom<Value> for usize {
    type Error = ();

    /// The whole part of the number that the value is taken for.
    fn try_from(value: Value) -> (r: Result<Self, ()>) {
        match value_to_unsigned(&value, usize::MAX as u128) {
            Some(v) => Ok(v as usize),
            None => Err(()),
        }
    }
}

impl TryFromSpecImpl<Value> for usize {
    open spec fn obeys_try_from_spec() -> bool {
        true
    }

    open spec fn try_from_spec(v: Value) -> Result<Self, ()> {
        match value_integer(v, 0, usize::MAX as int) {
            Some(t) => Ok(t as usize),
            None => Err(()),
        }
    }
}

impl TryFrom<Value> for () {
    type Error = ();

    /// `null` is the unit; nothing else is.
    fn try_from(value: Value) -> (r: Result<Self, ()>) {
        match value {
            Value::Null => Ok(()),
            _ => Err(()),
        }
    }
}

impl TryFromSpecImpl<Value> for () {
    open spec fn obeys_try_from_spec() -> bool {
        true
    }

    open spec fn try_from_spec(v: Value) -> Result<Self, ()> {
        if v is Null {
            Ok(())
        } else {
            Err(())
        }
    }
}

/// Whether one of the bytes is not the digit zero.
pub open spec fn has_nonzero(digits: Seq<u8>) -> bool {
    exists|i: int| 0 <= i < digits.len() && #[trigger] digits[i] != 0x30
}

/// What a value is taken for as a boolean: `null` is false, a number is
/// true unless all its digits are zero, and a string, an array and an
/// object are true.
pub open spec fn value_bool(v: Value) -> bool {
    match v {
        Value::Null => false,
        Value::Bool(b) => b,
        Value::Number(digits, _, _) => has_nonzero(digits@),
        _ => true,
    }
}

fn any_nonzero(digits: &[u8]) -> (r: bool)
    ensures
        r == has_nonzero(digits@),
{
    let mut i: usize = 0;
    while i < digits.len()
        invariant
            i <= digits.len(),
            forall|j: int| 0 <= j < i ==> #[trigger] digits@[j] == 0x30,
        decreases digits.len() - i,
    {
        if digits[i] != 0x30 {
            return true;
        }
        i += 1;
    }
    false
}

impl TryFrom<Value> for bool {
    type Error = ();

    fn try_from(value: Value) -> (r: Result<Self, ()>) {
        match value {
            Value::Null => Ok(false),
            Value::Bool(b) => Ok(b),
            Value::Number(digits, _, _) => Ok(any_nonzero(digits.as_slice())),
            _ => Ok(true),
        }
    }
}

impl TryFromSpecImpl<Value> for bool {
    open spec fn obeys_try_from_spec() -> bool {
        true
    }

    open spec fn try_from_spec(v: Value) -> Result<Self, ()> {
        Ok(value_bool(v))
    }
}

/// What a value is taken for as a character: the first character of its
/// text. A number below zero gives `-`, and zero gives `0`. An empty
/// string, an array and an object give nothing.
pub open spec fn value_char(v: Value) -> Option<char> {
    match v {
        Value::Null => Some('n'),
        Value::Bool(b) => Some(
            if b {
                't'
            } else {
                'f'
            },
        ),
        Value::Number(digits, _, negative) => Some(
            if negative {
                '-'
            } else if digits@.len() == 0 {
                '0'
            } else {
                digits@[0] as char
            },
        ),
        Value::String(text) => if text@.len() > 0 {
            Some(text@[0])
        } else {
            None
        },
        _ => None,
    }
}

impl TryFrom<Value> for char {
    type Error = ();

    fn try_from(value: Value) -> (r: Result<Self, ()>) {
        match value {
            Value::Null => Ok('n'),
            Value::Bool(b) => Ok(
                if b {
                    't'
                } else {
                    'f'
                },
            ),
            Value::Number(digits, _, negative) => {
                if negative {
                    Ok('-')
                } else if digits.len() == 0 {
                    Ok('0')
                } else {
                    Ok(digits[0] as char)
                }
            },
            Value::String(text) => {
                let s = text.as_str();
                if s.is_empty() {
                    Err(())
                } else {
                    Ok(s.get_char(0))
                }
            },
            _ => Err(()),
        }
    }
}

impl TryFromSpecImpl<Value> for char {
    open spec fn obeys_try_from_spec() -> bool {
        true
    }

    open spec fn try_from_spec(v: Value) -> Result<Self, ()> {
        match value_char(v) {
            Some(c) => Ok(c),
            None => Err(()),
        }
    }
}

/// What a value is taken for as text, in bytes: `null`, `false` and `true`
/// give their spelling, a number gives its canonical text, and a string
/// gives what it holds. An array and an object give nothing.
pub open spec fn value_string(v: Value) -> Option<Seq<u8>> {
    match v {
        Value::Null => Some(word_null()),
        Value::Bool(b) => Some(
            if b {
                word_true()
            } else {
                word_false()
            },
        ),
        Value::Number(digits, exponent, negative) => Some(
            number_text(digits@, exponent as int, negative),
        ),
        Value::String(text) => Some(encode_utf8(text@)),
        _ => None,
    }
}

impl TryFrom<Value> for String {
    type Error = ();

    /// The text that the value is taken for. A string is handed on as it
    /// is. The text of a number whose digits are not digits may fail to be
    /// UTF-8, and then there is no text.
    fn try_from(value: Value) -> (r: Result<Self, ()>)
        ensures
            match value_string(value) {
                Some(text) => if valid_utf8(text) {
                    r is Ok && encode_utf8(r->Ok_0@) == text
                } else {
                    r is Err
                },
                None => r is Err,
            },
            value is String ==> r == Ok::<String, ()>(value->String_0),
    {
        let mut out: Vec<u8> = Vec::new();
        match value {
            Value::Null => {
                out.push(0x6e);
                out.push(0x75);
                out.push(0x6c);
                out.push(0x6c);
                proof {
                    assert(out@ =~= word_null());
                }
            },
            Value::Bool(b) => {
                if b {
                    out.push(0x74);
                    out.push(0x72);
                    out.push(0x75);
                    out.push(0x65);
                    proof {
                        assert(out@ =~= word_true());
                    }
                } else {
                    out.push(0x66);
                    out.push(0x61);
                    out.push(0x6c);
                    out.push(0x73);
                    out.push(0x65);
                    proof {
                        assert(out@ =~= word_false());
                    }
                }
            },
            Value::Number(digits, exponent, negative) => {
                push_number_text(&mut out, digits.as_slice(), exponent, negative);
                proof {
                    assert(Seq::<u8>::empty() + number_text(digits@, exponent as int, negative)
                        =~= number_text(digits@, exponent as int, negative));
                }
            },
            Value::String(text) => {
                proof {
                    vstd::utf8::encode_utf8_valid_utf8(text@);
                }
                return Ok(text);
            },
            _ => {
                return Err(());
            },
        }
        match string_from_utf8(out) {
            Some(text) => Ok(text),
            None => Err(()),
        }
    }
}

impl TryFromSpecImpl<Value> for String {
    open spec fn obeys_try_from_spec() -> bool {
        false
    }

    open spec fn try_from_spec(v: Value) -> Result<Self, ()> {
        arbitrary()
    }
}

/// The decimal number, in canonical form, that an integer is.
pub open spec fn int_decimal(v: int) -> Decimal {
    if v == 0 {
        Decimal { digits: Seq::empty(), exponent: 0, negative: false }
    } else {
        let text = nat_text(
            (if v < 0 {
                -v
            } else {
                v
            }) as nat,
        );
        let k = trailing_zeros(text);
        Decimal { digits: text.take(text.len() - k), exponent: k as int, negative: v < 0 }
    }
}

/// The decimal number that an integer is, is in canonical form where the
/// integer has no more than `READER_BUFFER_SIZE` digits, and it is the
/// integer.
pub proof fn lemma_int_decimal(v: int)
    ensures
        decimal_trunc(int_decimal(v).digits, int_decimal(v).exponent, int_decimal(v).negative) == v,
        all_digits(int_decimal(v).digits),
        int_decimal(v).digits.len() > 0 ==> int_decimal(v).digits[0] != 0x30 && int_decimal(
            v,
        ).digits.last() != 0x30,
        int_decimal(v).exponent >= 0,
        v == 0 <==> int_decimal(v).digits.len() == 0,
{
    if v == 0 {
        lemma_pow0(10);
    } else {
        let n = (if v < 0 {
            -v
        } else {
            v
        }) as nat;
        let text = nat_text(n);
        let k = trailing_zeros(text);
        let digits = text.take(text.len() - k);
        lemma_nat_text(n);
        lemma_nat_text_first(n);
        crate::number::lemma_trailing_zeros_cut(text);
        if k == text.len() {
            assert(text[0] == 0x30);
        }
        assert(digits[0] == text[0]);
        assert(text =~= digits + zeros(k)) by {
            assert forall|i: int| 0 <= i < text.len() implies text[i] == (digits + zeros(k))[i] by {
                if i >= digits.len() {
                    assert(text[i] == 0x30);
                }
            }
        }
        lemma_digits_value_zeros(digits, k);
        assert forall|i: int| 0 <= i < digits.len() implies is_digit(#[trigger] digits[i]) by {
            assert(is_digit(text[i]));
        }
    }
}

/// The value that is the integer with the given magnitude and sign.
pub fn integer_value(magnitude: u64, negative: bool) -> (r: Value)
    requires
        negative ==> magnitude > 0,
    ensures
        r@ == (Node::Number {
            digits: int_decimal(
                if negative {
                    -(magnitude as int)
                } else {
                    magnitude as int
                },
            ).digits,
            exponent: int_decimal(
                if negative {
                    -(magnitude as int)
                } else {
                    magnitude as int
                },
            ).exponent,
            negative,
        }),
        r.well_formed(),
{
    let ghost v: int = if negative {
        -(magnitude as int)
    } else {
        magnitude as int
    };
    proof {
        lemma_int_decimal(v);
    }
    if magnitude == 0 {
        return Value::Number(Vec::new(), 0, false);
    }
    let mut text = nat_digits(magnitude as u128);
    let ghost full = text@;
    proof {
        lemma_u64_text_len(magnitude as nat);
        lemma_nat_text_first(magnitude as nat);
    }
    let mut k: i32 = 0;
    while text.len() > 0 && text[text.len() - 1] == 0x30
        invariant
            0 <= k <= 20,
            full.len() <= 20,
            text@.len() + k == full.len(),
            text@ == full.take(full.len() - k),
            trailing_zeros(full) == trailing_zeros(text@) + k,
        decreases text@.len(),
    {
        proof {
            assert(text@.drop_last() =~= full.take(full.len() - k - 1));
        }
        text.pop();
        k += 1;
    }
    proof {
        if text@.len() > 0 {
            assert(text@.last() != 0x30);
        }
        assert(trailing_zeros(text@) == 0);
    }
    Value::Number(text, k, negative)
}

/// The decimal text of a `u64` has at most twenty digits.
pub proof fn lemma_u64_text_len(n: nat)
    requires
        n <= u64::MAX,
    ensures
        nat_text(n).len() <= 20,
{
    lemma_pow_20();
    lemma_nat_text_len(n, 20);
}

/// Ten to the twentieth is more than a `u64` holds.
proof fn lemma_pow_20()
    ensures
        pow(10, 20) == 100000000000000000000int,
{
    lemma_pow1(10);
    lemma_pow_adds(10, 1, 1);
    assert(pow(10, 2) == 100);
    lemma_pow_adds(10, 2, 2);
    assert(pow(10, 4) == 10000) by {
        assert(pow(10, 4) == pow(10, 2) * pow(10, 2));
    }
    lemma_pow_adds(10, 4, 4);
    assert(pow(10, 8) == 100000000) by {
        assert(pow(10, 8) == pow(10, 4) * pow(10, 4));
    }
    lemma_pow_adds(10, 8, 8);
    assert(pow(10, 16) == 10000000000000000int) by {
        assert(pow(10, 16) == pow(10, 8) * pow(10, 8));
    }
    lemma_pow_adds(10, 16, 4);
    assert(pow(10, 20) == pow(10, 16) * pow(10, 4));
}

impl TryFrom<i8> for Value {
    type Error = ();

    /// The number that the integer is, in canonical form.
    fn try_from(value: i8) -> (r: Result<Self, ()>)
        ensures
            r is Ok,
            r->Ok_0.well_formed(),
            r->Ok_0@ == (Node::Number {
                digits: int_decimal(value as int).digits,
                exponent: int_decimal(value as int).exponent,
                negative: value < 0,
            }),
    {
        if value >= 0 {
            Ok(integer_value(value as u64, false))
        } else {
            Ok(integer_value((-(value as i128)) as u64, true))
        }
    }
}

impl TryFromSpecImpl<i8> for Value {
    open spec fn obeys_try_from_spec() -> bool {
        false
    }

    open spec fn try_from_spec(v: i8) -> Result<Self, ()> {
        arbitrary()
    }
}

impl TryFrom<i16> for Value {
    type Error = ();

    /// The number that the integer is, in canonical form.
    fn try_from(value: i16) -> (r: Result<Self, ()>)
        ensures
            r is Ok,
            r->Ok_0.well_formed(),
            r->Ok_0@ == (Node::Number {
                digits: int_decimal(value as int).digits,
                exponent: int_decimal(value as int).exponent,
                negative: value < 0,
            }),
    {
        if value >= 0 {
            Ok(integer_value(value as u64, false))
        } else {
            Ok(integer_value((-(value as i128)) as u64, true))
        }
    }
}

impl TryFromSpecImpl<i16> for Value {
    open spec fn obeys_try_from_spec() -> bool {
        false
    }

    open spec fn try_from_spec(v: i16) -> Result<Self, ()> {
        arbitrary()
    }
}

impl TryFrom<i32> for Value {
    type Error = ();

    /// The number that the integer is, in canonical form.
    fn try_from(value: i32) -> (r: Result<Self, ()>)
        ensures
            r is Ok,
            r->Ok_0.well_formed(),
            r->Ok_0@ == (Node::Number {
                digits: int_decimal(value as int).digits,
                exponent: int_decimal(value as int).exponent,
                negative: value < 0,
            }),
    {
        if value >= 0 {
            Ok(integer_value(value as u64, false))
        } else {
            Ok(integer_value((-(value as i128)) as u64, true))
        }
    }
}

impl TryFromSpecImpl<i32> for Value {
    open spec fn obeys_try_from_spec() -> bool {
        false
    }

    open spec fn try_from_spec(v: i32) -> Result<Self, ()> {
        arbitrary()
    }
}

impl TryFrom<i64> for Value {
    type Error = ();

    /// The number that the integer is, in canonical form.
    fn try_from(value: i64) -> (r: Result<Self, ()>)
        ensures
            r is Ok,
            r->Ok_0.well_formed(),
            r->Ok_0@ == (Node::Number {
                digits: int_decimal(value as int).digits,
                exponent: int_decimal(value as int).exponent,
                negative: value < 0,
            }),
    {
        if value >= 0 {
            Ok(integer_value(value as u64, false))
        } else {
            Ok(integer_value((-(value as i128)) as u64, true))
        }
    }
}

impl TryFromSpecImpl<i64> for Value {
    open spec fn obeys_try_from_spec() -> bool {
        false
    }

    open spec fn try_from_spec(v: i64) -> Result<Self, ()> {
        arbitrary()
    }
}

impl TryFrom<isize> for Value {
    type Error = ();

    /// The number that the integer is, in canonical form.
    fn try_from(value: isize) -> (r: Result<Self, ()>)
        ensures
            r is Ok,
            r->Ok_0.well_formed(),
            r->Ok_0@ == (Node::Number {
                digits: int_decimal(value as int).digits,
                exponent: int_decimal(value as int).exponent,
                negative: value < 0,
            }),
    {
        if value >= 0 {
            Ok(integer_value(value as u64, false))
        } else {
            Ok(integer_value((-(value as i128)) as u64, true))
        }
    }
}

impl TryFromSpecImpl<isize> for Value {
    open spec fn obeys_try_from_spec() -> bool {
        false
    }

    open spec fn try_from_spec(v: isize) -> Result<Self, ()> {
        arbitrary()
    }
}

impl TryFrom<u8> for Value {
    type Error = ();

    /// The number that the integer is, in canonical form.
    fn try_from(value: u8) -> (r: Result<Self, ()>)
        ensures
            r is Ok,
            r->Ok_0.well_formed(),
            r->Ok_0@ == (Node::Number {
                digits: int_decimal(value as int).digits,
                exponent: int_decimal(value as int).exponent,
                negative: false,
            }),
    {
        Ok(integer_value(value as u64, false))
    }
}

impl TryFromSpecImpl<u8> for Value {
    open spec fn obeys_try_from_spec() -> bool {
        false
    }

    open spec fn try_from_spec(v: u8) -> Result<Self, ()> {
        arbitrary()
    }
}

impl TryFrom<u16> for Value {
    type Error = ();

    /// The number that the integer is, in canonical form.
    fn try_from(value: u16) -> (r: Result<Self, ()>)
        ensures
            r is Ok,
            r->Ok_0.well_formed(),
            r->Ok_0@ == (Node::Number {
                digits: int_decimal(value as int).digits,
                exponent: int_decimal(value as int).exponent,
                negative: false,
            }),
    {
        Ok(integer_value(value as u64, false))
    }
}

impl TryFromSpecImpl<u16> for Value {
    open spec fn obeys_try_from_spec() -> bool {
        false
    }

    open spec fn try_from_spec(v: u16) -> Result<Self, ()> {
        arbitrary()
    }
}

impl TryFrom<u32> for Value {
    type Error = ();

    /// The number that the integer is, in canonical form.
    fn try_from(value: u32) -> (r: Result<Self, ()>)
        ensures
            r is Ok,
            r->Ok_0.well_formed(),
            r->Ok_0@ == (Node::Number {
                digits: int_decimal(value as int).digits,
                exponent: int_decimal(value as int).exponent,
                negative: false,
            }),
    {
        Ok(integer_value(value as u64, false))
    }
}

impl TryFromSpecImpl<u32> for Value {
    open spec fn obeys_try_from_spec() -> bool {
        false
    }

    open spec fn try_from_spec(v: u32) -> Result<Self, ()> {
        arbitrary()
    }
}

impl TryFrom<u64> for Value {
    type Error = ();

    /// The number that the integer is, in canonical form.
    fn try_from(value: u64) -> (r: Result<Self, ()>)
        ensures
            r is Ok,
            r->Ok_0.well_formed(),
            r->Ok_0@ == (Node::Number {
                digits: int_decimal(value as int).digits,
                exponent: int_decimal(value as int).exponent,
                negative: false,
            }),
    {
        Ok(integer_value(value as u64, false))
    }
}

impl TryFromSpecImpl<u64> for Value {
    open spec fn obeys_try_from_spec() -> bool {
        false
    }

    open spec fn try_from_spec(v: u64) -> Result<Self, ()> {
        arbitrary()
    }
}

impl TryFrom<usize> for Value {
    type Error = ();

    /// The number that the integer is, in canonical form.
    fn try_from(value: usize) -> (r: Result<Self, ()>)
        ensures
            r is Ok,
            r->Ok_0.well_formed(),
            r->Ok_0@ == (Node::Number {
                digits: int_decimal(value as int).digits,
                exponent: int_decimal(value as int).exponent,
                negative: false,
            }),
    {
        Ok(integer_value(value as u64, false))
    }
}

impl TryFromSpecImpl<usize> for Value {
    open spec fn obeys_try_from_spec() -> bool {
        false
    }

    open spec fn try_from_spec(v: usize) -> Result<Self, ()> {
        arbitrary()
    }
}

impl TryFrom<()> for Value {
    type Error = ();

    fn try_from(value: ()) -> (r: Result<Self, ()>) {
        Ok(Value::Null)
    }
}

impl TryFromSpecImpl<()> for Value {
    open spec fn obeys_try_from_spec() -> bool {
        true
    }

    open spec fn try_from_spec(v: ()) -> Result<Self, ()> {
        Ok(Value::Null)
    }
}

impl TryFrom<bool> for Value {
    type Error = ();

    fn try_from(value: bool) -> (r: Result<Self, ()>) {
        Ok(Value::Bool(value))
    }
}

impl TryFromSpecImpl<bool> for Value {
    open spec fn obeys_try_from_spec() -> bool {
        true
    }

    open spec fn try_from_spec(v: bool) -> Result<Self, ()> {
        Ok(Value::Bool(v))
    }
}

impl TryFrom<char> for Value {
    type Error = ();

    /// The string that holds the character and nothing else.
    fn try_from(value: char) -> (r: Result<Self, ()>)
        ensures
            r is Ok,
            r->Ok_0 is String,
            r->Ok_0->String_0@ == seq![value],
    {
        Ok(Value::String(char_to_string(value)))
    }
}

impl TryFromSpecImpl<char> for Value {
    open spec fn obeys_try_from_spec() -> bool {
        false
    }

    open spec fn try_from_spec(v: char) -> Result<Self, ()> {
        arbitrary()
    }
}

impl TryFrom<String> for Value {
    type Error = ();

    fn try_from(value: String) -> (r: Result<Self, ()>) {
        Ok(Value::String(value))
    }
}

impl TryFromSpecImpl<String> for Value {
    open spec fn obeys_try_from_spec() -> bool {
        true
    }

    open spec fn try_from_spec(v: String) -> Result<Self, ()> {
        Ok(Value::String(v))
    }
}

impl TryFrom<Vec<Value>> for Value {
    type Error = ();

    fn try_from(value: Vec<Value>) -> (r: Result<Self, ()>) {
        Ok(Value::Array(value))
    }
}

impl TryFromSpecImpl<Vec<Value>> for Value {
    open spec fn obeys_try_from_spec() -> bool {
        true
    }

    open spec fn try_from_spec(v: Vec<Value>) -> Result<Self, ()> {
        Ok(Value::Array(v))
    }
}

impl std::str::FromStr for Value {
    type Err = ();

    /// The string that holds the text.
    fn from_str(value: &str) -> (r: Result<Self, ()>)
        ensures
            r is Ok,
            r->Ok_0 is String,
            r->Ok_0->String_0@ == value@,
    {
        Ok(Value::String(value.to_owned()))
    }
}

} // verus!
