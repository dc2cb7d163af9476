//! Number literals: from bytes to decimal digits and a power of ten.
//!
//! A number is never turned into a binary float here. The lexer keeps its
//! significant digits, without the zeros in front of them or behind them, and
//! the power of ten that the digits are to be scaled by.

use vstd::prelude::*;
use crate::ascii::{
    all_digits, byte_is_digit, byte_is_space, digits_end, digits_value, is_digit,
    lemma_digits_end_bounds, lemma_digits_value_push, spaces_end,
};
use crate::error::ErrorKind;

verus! {

/// How many bytes the scratch buffer of a reader holds, and so how many
/// significant digits a number may have.
pub const READER_BUFFER_SIZE: usize = 128;

/// A byte of the part of a literal in front of its exponent: a digit or the
/// decimal point.
pub open spec fn is_mantissa_byte(c: u8) -> bool {
    is_digit(c) || c == 0x2e
}

/// The first index at or after `i` that holds neither a digit nor a point.
pub open spec fn mantissa_end(s: Seq<u8>, i: int) -> int
    decreases s.len() - i,
{
    if 0 <= i < s.len() && is_mantissa_byte(s[i]) {
        mantissa_end(s, i + 1)
    } else {
        i
    }
}

/// What is known of a mantissa once its bytes have been read.
pub struct Mantissa {
    /// The digits from the first one that is not zero onward.
    pub kept: Seq<u8>,
    /// Whether a decimal point was seen.
    pub dot: bool,
    /// How many digits stand behind the first decimal point.
    pub frac: nat,
}

/// Reads the digits and points of `r` from left to right. Zeros in front of
/// the first other digit are dropped; a point after the first one changes
/// nothing.
pub open spec fn scan_mantissa(r: Seq<u8>) -> Mantissa
    decreases r.len(),
{
    if r.len() == 0 {
        Mantissa { kept: Seq::empty(), dot: false, frac: 0 }
    } else {
        let m = scan_mantissa(r.drop_last());
        let c = r.last();
        if c == 0x2e {
            Mantissa { kept: m.kept, dot: true, frac: m.frac }
        } else {
            Mantissa {
                kept: if c == 0x30 && m.kept.len() == 0 {
                    m.kept
                } else {
                    m.kept.push(c)
                },
                dot: m.dot,
                frac: if m.dot {
                    m.frac + 1
                } else {
                    m.frac
                },
            }
        }
    }
}

/// How many zeros stand at the end of `d`.
pub open spec fn trailing_zeros(d: Seq<u8>) -> nat
    decreases d.len(),
{
    if d.len() > 0 && d.last() == 0x30 {
        trailing_zeros(d.drop_last()) + 1
    } else {
        0
    }
}

/// What lexing the exponent of a literal gives.
pub enum ExponentLex {
    /// The exponent, and the index of the first byte behind it.
    Exponent { value: int, end: int },
    /// The literal is rejected.
    Fail { kind: ErrorKind },
}

/// Lexes what follows the `e` or `E` of a literal: a sign or a digit, then
/// digits. A sign with no digit behind it spells zero. The exponent must be
/// one that `i32` holds.
pub open spec fn lex_exponent(s: Seq<u8>, i: int) -> ExponentLex {
    if i >= s.len() {
        ExponentLex::Fail { kind: ErrorKind::UnexpectedEndOfInput }
    } else if s[i] == 0x2b || s[i] == 0x2d || is_digit(s[i]) {
        let first = if is_digit(s[i]) {
            i
        } else {
            i + 1
        };
        let end = digits_end(s, first);
        let n = digits_value(s.subrange(first, end)) as int;
        let value = if s[i] == 0x2d {
            -n
        } else {
            n
        };
        if value < i32::MIN || value > i32::MAX {
            ExponentLex::Fail { kind: ErrorKind::NumberTooBig }
        } else {
            ExponentLex::Exponent { value, end }
        }
    } else {
        ExponentLex::Fail { kind: ErrorKind::InvalidNumberFormat }
    }
}

/// What lexing a number literal gives.
pub enum NumberLex {
    /// The number `digits * 10^exponent`, negated if `negative`, and the
    /// index of the first byte behind the literal.
    Number { digits: Seq<u8>, exponent: int, negative: bool, end: int },
    /// The literal is rejected.
    Fail { kind: ErrorKind },
}

/// Whether digits, exponent and sign are those of a number in the form that
/// the lexer puts every number in: at most `READER_BUFFER_SIZE` digits, the
/// first and the last of them not zero, an exponent that fits `i32`; and zero
/// is no digits, exponent zero, no sign.
pub open spec fn is_canonical(digits: Seq<u8>, exponent: int, negative: bool) -> bool {
    &&& digits.len() <= READER_BUFFER_SIZE
    &&& all_digits(digits)
    &&& i32::MIN <= exponent <= i32::MAX
    &&& digits.len() > 0 ==> digits[0] != 0x30 && digits.last() != 0x30
    &&& digits.len() == 0 ==> exponent == 0 && !negative
}

/// Puts together what the parts of a literal gave. Zero loses its sign and
/// its exponent; any other number must have digits that fit the buffer and
/// an exponent that fits `i32`.
pub open spec fn finish_number(digits: Seq<u8>, exponent: int, negative: bool, end: int) -> NumberLex {
    if digits.len() > READER_BUFFER_SIZE {
        NumberLex::Fail { kind: ErrorKind::NumberTooBig }
    } else if digits.len() == 0 {
        NumberLex::Number { digits, exponent: 0, negative: false, end }
    } else if exponent < i32::MIN || exponent > i32::MAX {
        NumberLex::Fail { kind: ErrorKind::NumberTooBig }
    } else {
        NumberLex::Number { digits, exponent, negative, end }
    }
}

/// Lexes a number literal behind its sign, from index `m0`: any digits and
/// points, and an optional exponent. The zeros at the end of the digits go
/// into the exponent, one power of ten each, and every digit behind the
/// point takes one power away.
pub open spec fn lex_magnitude(s: Seq<u8>, m0: int, negative: bool) -> NumberLex {
    let m1 = mantissa_end(s, m0);
    let m = scan_mantissa(s.subrange(m0, m1));
    let zeros = trailing_zeros(m.kept);
    let digits = m.kept.take(m.kept.len() - zeros);
    if m1 < s.len() && (s[m1] == 0x65 || s[m1] == 0x45) {
        match lex_exponent(s, m1 + 1) {
            ExponentLex::Fail { kind } => NumberLex::Fail { kind },
            ExponentLex::Exponent { value, end } => finish_number(
                digits,
                value + zeros - m.frac,
                negative,
                end,
            ),
        }
    } else {
        finish_number(digits, zeros - m.frac, negative, m1)
    }
}

/// Lexes the number literal that starts at `start`: an optional `-`, which
/// must not be the last byte of the input, and then the number.
pub open spec fn lex_number(s: Seq<u8>, start: int) -> NumberLex {
    let negative = 0 <= start < s.len() && s[start] == 0x2d;
    let m0 = if negative {
        start + 1
    } else {
        start
    };
    if negative && m0 >= s.len() {
        NumberLex::Fail { kind: ErrorKind::UnexpectedEndOfInput }
    } else {
        lex_magnitude(s, m0, negative)
    }
}

/// Whether a byte can start a number literal: a digit, `-` or `.`.
pub open spec fn starts_number(c: u8) -> bool {
    is_digit(c) || c == 0x2d || c == 0x2e
}

/// A decimal number: `digits * 10^exponent`, negated if `negative`.
pub struct Decimal {
    pub digits: Seq<u8>,
    pub exponent: int,
    pub negative: bool,
}

/// Reads the text of a string as a number: white space, a number literal,
/// white space, and nothing else. A text that is empty, or that is no
/// number, is rejected.
pub open spec fn lex_quoted_number(t: Seq<u8>) -> Result<Decimal, ErrorKind> {
    let p = spaces_end(t, 0);
    if p >= t.len() || !starts_number(t[p]) {
        Err(ErrorKind::InvalidNumberFormat)
    } else {
        match lex_number(t, p) {
            NumberLex::Fail { kind } => Err(
                if kind == ErrorKind::NumberTooBig {
                    ErrorKind::NumberTooBig
                } else {
                    ErrorKind::InvalidNumberFormat
                },
            ),
            NumberLex::Number { digits, exponent, negative, end } => if spaces_end(t, end)
                >= t.len() {
                Ok(Decimal { digits, exponent, negative })
            } else {
                Err(ErrorKind::InvalidNumberFormat)
            },
        }
    }
}

/// A number as the lexer hands it on. Its digits are in the buffer that the
/// lexer was given.
#[derive(Clone, Copy, Debug)]
pub struct ScannedNumber {
    /// How many digits the buffer holds.
    pub len: usize,
    /// The power of ten.
    pub exponent: i32,
    /// Whether the number is below zero.
    pub negative: bool,
    /// The index of the first byte behind the literal.
    pub end: usize,
}

pub proof fn lemma_scan_mantissa_push(r: Seq<u8>, c: u8)
    ensures
        scan_mantissa(r.push(c)) == (if c == 0x2e {
            Mantissa { kept: scan_mantissa(r).kept, dot: true, frac: scan_mantissa(r).frac }
        } else {
            Mantissa {
                kept: if c == 0x30 && scan_mantissa(r).kept.len() == 0 {
                    scan_mantissa(r).kept
                } else {
                    scan_mantissa(r).kept.push(c)
                },
                dot: scan_mantissa(r).dot,
                frac: if scan_mantissa(r).dot {
                    scan_mantissa(r).frac + 1
                } else {
                    scan_mantissa(r).frac
                },
            }
        }),
{
    assert(r.push(c).drop_last() =~= r);
}

pub proof fn lemma_trailing_zeros_push(d: Seq<u8>, c: u8)
    ensures
        trailing_zeros(d.push(c)) == (if c == 0x30 {
            trailing_zeros(d) + 1
        } else {
            0
        }),
        trailing_zeros(d) <= d.len(),
    decreases d.len(),
{
    assert(d.push(c).drop_last() =~= d);
    if d.len() > 0 && d.last() == 0x30 {
        lemma_trailing_zeros_push(d.drop_last(), d.last());
    }
}

/// What `scan_mantissa` keeps is digits, starts with a digit that is not
/// zero, and is no longer than what was read.
pub proof fn lemma_scan_mantissa_kept(r: Seq<u8>)
    requires
        forall|i: int| 0 <= i < r.len() ==> is_mantissa_byte(#[trigger] r[i]),
    ensures
        all_digits(scan_mantissa(r).kept),
        scan_mantissa(r).kept.len() > 0 ==> scan_mantissa(r).kept[0] != 0x30,
        scan_mantissa(r).kept.len() <= r.len(),
        scan_mantissa(r).frac <= r.len(),
    decreases r.len(),
{
    if r.len() > 0 {
        lemma_scan_mantissa_kept(r.drop_last());
    }
}

/// Cutting the zeros off the end leaves digits that do not end in zero.
pub proof fn lemma_trailing_zeros_cut(d: Seq<u8>)
    ensures
        trailing_zeros(d) <= d.len(),
        trailing_zeros(d) < d.len() ==> d[d.len() - trailing_zeros(d) - 1] != 0x30,
        forall|i: int| d.len() - trailing_zeros(d) <= i < d.len() ==> #[trigger] d[i] == 0x30,
    decreases d.len(),
{
    if d.len() > 0 && d.last() == 0x30 {
        let p = d.drop_last();
        lemma_trailing_zeros_cut(p);
        assert forall|i: int| d.len() - trailing_zeros(d) <= i < d.len() implies #[trigger] d[i]
            == 0x30 by {
            if i < d.len() - 1 {
                assert(p[i] == 0x30);
            }
        }
    }
}

pub proof fn lemma_mantissa_end_bounds(s: Seq<u8>, i: int)
    requires
        0 <= i <= s.len(),
    ensures
        i <= mantissa_end(s, i) <= s.len(),
        mantissa_end(s, i) < s.len() ==> !is_mantissa_byte(s[mantissa_end(s, i)]),
        forall|j: int| i <= j < mantissa_end(s, i) ==> is_mantissa_byte(#[trigger] s[j]),
    decreases s.len() - i,
{
    if i < s.len() && is_mantissa_byte(s[i]) {
        lemma_mantissa_end_bounds(s, i + 1);
    }
}

/// A number that the lexer accepts is in canonical form, and its literal
/// lies inside the input.
pub proof fn lemma_lex_number_canonical(s: Seq<u8>, start: int)
    requires
        0 <= start <= s.len(),
    ensures
        match lex_number(s, start) {
            NumberLex::Number { digits, exponent, negative, end } => is_canonical(
                digits,
                exponent,
                negative,
            ) && start <= end <= s.len() && (start < s.len() && (s[start] == 0x2d
                || is_mantissa_byte(s[start])) ==> start < end),
            NumberLex::Fail { .. } => true,
        },
{
    let negative = 0 <= start < s.len() && s[start] == 0x2d;
    let m0 = if negative {
        start + 1
    } else {
        start
    };
    if !(negative && m0 >= s.len()) {
        let m1 = mantissa_end(s, m0);
        lemma_mantissa_end_bounds(s, m0);
        let r = s.subrange(m0, m1);
        lemma_scan_mantissa_kept(r);
        let m = scan_mantissa(r);
        lemma_trailing_zeros_cut(m.kept);
        let zeros = trailing_zeros(m.kept);
        let digits = m.kept.take(m.kept.len() - zeros);
        assert(all_digits(digits));
        if m1 < s.len() && (s[m1] == 0x65 || s[m1] == 0x45) {
            if m1 + 1 < s.len() {
                let first = if is_digit(s[m1 + 1]) {
                    m1 + 1
                } else {
                    m1 + 2
                };
                if first <= s.len() {
                    lemma_digits_end_bounds(s, first);
                }
            }
        }
    }
}

/// Reads the exponent of a literal, from the byte behind its `e` on.
fn scan_exponent(input: &[u8], i: usize) -> (r: Result<(i32, usize), ErrorKind>)
    requires
        i <= input.len(),
    ensures
        match lex_exponent(input@, i as int) {
            ExponentLex::Exponent { value, end } => r == Ok::<(i32, usize), ErrorKind>(
                (value as i32, end as usize),
            ) && i32::MIN <= value <= i32::MAX && i <= end <= input.len(),
            ExponentLex::Fail { kind } => r == Err::<(i32, usize), ErrorKind>(kind),
        },
{
    let len = input.len();
    if i >= len {
        return Err(ErrorKind::UnexpectedEndOfInput);
    }
    let c = input[i];
    if !(c == 0x2b || c == 0x2d || byte_is_digit(c)) {
        return Err(ErrorKind::InvalidNumberFormat);
    }
    let first: usize = if byte_is_digit(c) {
        i
    } else {
        i + 1
    };
    let mut j: usize = first;
    let mut n: i64 = 0;
    let mut too_big = false;
    proof {
        assert(input@.subrange(first as int, first as int) =~= Seq::<u8>::empty());
    }
    while j < len && byte_is_digit(input[j])
        invariant
            first <= j <= len,
            len == input.len(),
            digits_end(input@, first as int) == digits_end(input@, j as int),
            !too_big ==> n == digits_value(input@.subrange(first as int, j as int)),
            too_big ==> digits_value(input@.subrange(first as int, j as int)) > 0x8000_0000,
            0 <= n <= 0x8000_0000,
        decreases len - j,
    {
        let d = input[j];
        proof {
            assert(input@.subrange(first as int, j + 1) =~= input@.subrange(
                first as int,
                j as int,
            ).push(d));
            lemma_digits_value_push(input@.subrange(first as int, j as int), d);
        }
        if !too_big {
            let next: i64 = n * 10 + (d - 0x30) as i64;
            if next > 0x8000_0000 {
                too_big = true;
            } else {
                n = next;
            }
        }
        j += 1;
    }
    if too_big {
        Err(ErrorKind::NumberTooBig)
    } else if c == 0x2d {
        Ok(((-n) as i32, j))
    } else if n > i32::MAX as i64 {
        Err(ErrorKind::NumberTooBig)
    } else {
        Ok((n as i32, j))
    }
}

/// Lexes the number literal that starts at `start` and stores its digits at
/// the front of `digits`.
pub fn scan_number(input: &[u8], start: usize, digits: &mut [u8; READER_BUFFER_SIZE]) -> (r: Result<
    ScannedNumber,
    ErrorKind,
>)
    requires
        start <= input.len(),
    ensures
        match lex_number(input@, start as int) {
            NumberLex::Number { digits: d, exponent, negative, end } => {
                &&& r is Ok
                &&& r->Ok_0.len == d.len()
                &&& r->Ok_0.exponent == exponent
                &&& r->Ok_0.negative == negative
                &&& r->Ok_0.end == end
                &&& final(digits)@.take(d.len() as int) == d
                &&& is_canonical(d, exponent, negative)
                &&& start <= end <= input.len()
            },
            NumberLex::Fail { kind } => r == Err::<ScannedNumber, ErrorKind>(kind),
        },
{
    let len = input.len();
    let mut i: usize = start;
    let mut negative = false;
    if i < len && input[i] == 0x2d {
        negative = true;
        i += 1;
        if i >= len {
            return Err(ErrorKind::UnexpectedEndOfInput);
        }
    }
    let m0: usize = i;
    let mut n: usize = 0;
    let mut zeros: usize = 0;
    let mut frac: usize = 0;
    let mut dot = false;
    proof {
        assert(input@.subrange(m0 as int, m0 as int) =~= Seq::<u8>::empty());
        lemma_lex_number_canonical(input@, start as int);
    }
    while i < len && byte_is_mantissa(input[i])
        invariant
            m0 <= i <= len,
            len == input.len(),
            mantissa_end(input@, m0 as int) == mantissa_end(input@, i as int),
            n == scan_mantissa(input@.subrange(m0 as int, i as int)).kept.len(),
            frac == scan_mantissa(input@.subrange(m0 as int, i as int)).frac,
            dot == scan_mantissa(input@.subrange(m0 as int, i as int)).dot,
            zeros == trailing_zeros(scan_mantissa(input@.subrange(m0 as int, i as int)).kept),
            n <= i - m0,
            frac <= i - m0,
            zeros <= n,
            forall|j: int|
                0 <= j < n && j < READER_BUFFER_SIZE ==> digits@[j] == scan_mantissa(
                    input@.subrange(m0 as int, i as int),
                ).kept[j],
        decreases len - i,
    {
        let c = input[i];
        proof {
            let r = input@.subrange(m0 as int, i as int);
            assert(input@.subrange(m0 as int, i + 1) =~= r.push(c));
            lemma_scan_mantissa_push(r, c);
            lemma_trailing_zeros_push(scan_mantissa(r).kept, c);
        }
        if c == 0x2e {
            dot = true;
        } else {
            if dot {
                frac += 1;
            }
            if c != 0x30 || n > 0 {
                if n < READER_BUFFER_SIZE {
                    digits[n] = c;
                }
                n += 1;
                if c == 0x30 {
                    zeros += 1;
                } else {
                    zeros = 0;
                }
            }
        }
        i += 1;
    }
    let m1: usize = i;
    let ghost m = scan_mantissa(input@.subrange(m0 as int, m1 as int));
    let mut literal: i32 = 0;
    let mut end: usize = m1;
    if m1 < len && (input[m1] == 0x65 || input[m1] == 0x45) {
        let (value, after) = scan_exponent(input, m1 + 1)?;
        literal = value;
        end = after;
    }
    let count: usize = n - zeros;
    proof {
        if count <= READER_BUFFER_SIZE {
            assert(digits@.take(count as int) =~= m.kept.take(m.kept.len() - zeros));
        }
    }
    if count > READER_BUFFER_SIZE {
        return Err(ErrorKind::NumberTooBig);
    }
    if count == 0 {
        return Ok(ScannedNumber { len: 0, exponent: 0, negative: false, end });
    }
    let exponent: i128 = literal as i128 + zeros as i128 - frac as i128;
    if exponent < i32::MIN as i128 || exponent > i32::MAX as i128 {
        return Err(ErrorKind::NumberTooBig);
    }
    Ok(ScannedNumber { len: count, exponent: exponent as i32, negative, end })
}

pub fn byte_is_mantissa(c: u8) -> (r: bool)
    ensures
        r == is_mantissa_byte(c),
{
    byte_is_digit(c) || c == 0x2e
}

/// Reads the text `t` as a number and stores its digits at the front of
/// `digits`.
pub fn scan_quoted_number(t: &[u8], digits: &mut [u8; READER_BUFFER_SIZE]) -> (r: Result<
    ScannedNumber,
    ErrorKind,
>)
    ensures
        match lex_quoted_number(t@) {
            Ok(d) => {
                &&& r is Ok
                &&& r->Ok_0.len == d.digits.len()
                &&& r->Ok_0.exponent == d.exponent
                &&& r->Ok_0.negative == d.negative
                &&& final(digits)@.take(d.digits.len() as int) == d.digits
                &&& is_canonical(d.digits, d.exponent, d.negative)
            },
            Err(kind) => r == Err::<ScannedNumber, ErrorKind>(kind),
        },
{
    let mut p: usize = 0;
    while p < t.len() && byte_is_space(t[p])
        invariant
            p <= t.len(),
            spaces_end(t@, 0) == spaces_end(t@, p as int),
        decreases t.len() - p,
    {
        p += 1;
    }
    if p >= t.len() || !(byte_is_digit(t[p]) || t[p] == 0x2d || t[p] == 0x2e) {
        return Err(ErrorKind::InvalidNumberFormat);
    }
    match scan_number(t, p, digits) {
        Err(kind) => match kind {
            ErrorKind::NumberTooBig => Err(ErrorKind::NumberTooBig),
            _ => Err(ErrorKind::InvalidNumberFormat),
        },
        Ok(n) => {
            let mut q: usize = n.end;
            while q < t.len() && byte_is_space(t[q])
                invariant
                    n.end <= q <= t.len(),
                    spaces_end(t@, n.end as int) == spaces_end(t@, q as int),
                decreases t.len() - q,
            {
                q += 1;
            }
            if q < t.len() {
                return Err(ErrorKind::InvalidNumberFormat);
            }
            Ok(n)
        },
    }
}

} // verus!
