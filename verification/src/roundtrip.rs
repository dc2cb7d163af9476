//! Writing a number and reading it again gives the number back.

use vstd::prelude::*;
use vstd::arithmetic::power::pow;
use crate::encode::quoted;
use crate::escape::{escape_byte, escape_seq, hex_digit, lemma_escape_concat};
use crate::scalar::lex_blob;
use crate::text::{hex4_value, hex_value, lex_string, lex_unicode};
use crate::token::Lex;
use crate::ascii::{
    all_digits, digits_end, digits_value, int_text, is_digit, lemma_nat_text, nat_text, zeros,
};
use crate::format::{magnitude_text, number_text, FORMAT_NUM_WIDTH};
use crate::number::{
    is_canonical, is_mantissa_byte, lemma_scan_mantissa_push, lemma_trailing_zeros_push,
    lemma_trailing_zeros_cut, lex_exponent, lex_magnitude, lex_number, mantissa_end,
    scan_mantissa, trailing_zeros, ExponentLex, Mantissa, NumberLex, READER_BUFFER_SIZE,
};

verus! {

/// Where only digits and points stand up to `k`, and none stands at `k`,
/// the mantissa ends at `k`.
pub proof fn lemma_mantissa_end_at(s: Seq<u8>, i: int, k: int)
    requires
        0 <= i <= k <= s.len(),
        forall|j: int| i <= j < k ==> is_mantissa_byte(#[trigger] s[j]),
        k < s.len() ==> !is_mantissa_byte(s[k]),
    ensures
        mantissa_end(s, i) == k,
    decreases k - i,
{
    if i < k {
        lemma_mantissa_end_at(s, i + 1, k);
    }
}

/// Where only digits stand up to `k`, and none stands at `k`, the digits end
/// at `k`.
pub proof fn lemma_digits_end_at(s: Seq<u8>, i: int, k: int)
    requires
        0 <= i <= k <= s.len(),
        forall|j: int| i <= j < k ==> is_digit(#[trigger] s[j]),
        k < s.len() ==> !is_digit(s[k]),
    ensures
        digits_end(s, i) == k,
    decreases k - i,
{
    if i < k {
        lemma_digits_end_at(s, i + 1, k);
    }
}

/// Digits behind what was read are kept as they are, unless they are zeros
/// in front of the first digit of all.
pub proof fn lemma_scan_digits(x: Seq<u8>, d: Seq<u8>)
    requires
        all_digits(d),
        scan_mantissa(x).kept.len() > 0 || d.len() == 0 || d[0] != 0x30,
    ensures
        scan_mantissa(x + d) == (Mantissa {
            kept: scan_mantissa(x).kept + d,
            dot: scan_mantissa(x).dot,
            frac: if scan_mantissa(x).dot {
                scan_mantissa(x).frac + d.len()
            } else {
                scan_mantissa(x).frac
            },
        }),
    decreases d.len(),
{
    let m = scan_mantissa(x);
    if d.len() == 0 {
        assert(x + d =~= x);
        assert(m.kept + d =~= m.kept);
    } else {
        let front = d.drop_last();
        let c = d.last();
        assert(is_digit(d[d.len() - 1]));
        assert(front.len() > 0 ==> front[0] == d[0]);
        lemma_scan_digits(x, front);
        assert(x + d =~= (x + front).push(c));
        lemma_scan_mantissa_push(x + front, c);
        assert((m.kept + front).push(c) =~= m.kept + d);
        if (m.kept + front).len() == 0 {
            assert(d[0] == c);
        }
    }
}

/// Zeros in front of the first other digit are not kept.
pub proof fn lemma_scan_zeros(x: Seq<u8>, p: nat)
    requires
        scan_mantissa(x).kept.len() == 0,
    ensures
        scan_mantissa(x + zeros(p)) == (Mantissa {
            kept: Seq::empty(),
            dot: scan_mantissa(x).dot,
            frac: if scan_mantissa(x).dot {
                scan_mantissa(x).frac + p
            } else {
                scan_mantissa(x).frac
            },
        }),
    decreases p,
{
    let m = scan_mantissa(x);
    if p == 0 {
        assert(x + zeros(0) =~= x);
        assert(m.kept =~= Seq::<u8>::empty());
    } else {
        lemma_scan_zeros(x, (p - 1) as nat);
        assert(x + zeros(p) =~= (x + zeros((p - 1) as nat)).push(0x30u8));
        lemma_scan_mantissa_push(x + zeros((p - 1) as nat), 0x30u8);
    }
}

/// Zeros that are put behind digits are zeros at the end, besides those
/// that were there.
pub proof fn lemma_trailing_zeros_added(d: Seq<u8>, e: nat)
    ensures
        trailing_zeros(d + zeros(e)) == trailing_zeros(d) + e,
    decreases e,
{
    if e == 0 {
        assert(d + zeros(0) =~= d);
    } else {
        lemma_trailing_zeros_added(d, (e - 1) as nat);
        assert(d + zeros(e) =~= (d + zeros((e - 1) as nat)).push(0x30u8));
        lemma_trailing_zeros_push(d + zeros((e - 1) as nat), 0x30u8);
    }
}

/// Whether digits and an exponent are such as the formatter is given for a
/// number that is not zero: digits that the buffer holds and that do not
/// start with zero, and an exponent that `i32` holds, also when the zeros
/// at the end of the digits are added to it.
pub open spec fn is_written(digits: Seq<u8>, exponent: int) -> bool {
    &&& 0 < digits.len() <= READER_BUFFER_SIZE
    &&& all_digits(digits)
    &&& digits[0] != 0x30
    &&& i32::MIN <= exponent <= i32::MAX
    &&& exponent + trailing_zeros(digits) <= i32::MAX
}

/// The digits without the zeros at their end.
pub open spec fn cut_digits(digits: Seq<u8>) -> Seq<u8> {
    digits.take(digits.len() - trailing_zeros(digits))
}

/// Digits that do not start with zero are not all cut off.
proof fn lemma_cut_not_empty(digits: Seq<u8>)
    requires
        digits.len() > 0,
        digits[0] != 0x30,
    ensures
        trailing_zeros(digits) < digits.len(),
        cut_digits(digits).len() > 0,
        cut_digits(digits).len() <= digits.len(),
{
    lemma_trailing_zeros_cut(digits);
    if trailing_zeros(digits) == digits.len() {
        assert(digits[0] == 0x30);
    }
}

/// The text of an exponent reads as the exponent.
proof fn lemma_exponent_round_trip(s: Seq<u8>, i: int, exponent: int)
    requires
        0 <= i,
        i32::MIN <= exponent <= i32::MAX,
        s.len() == i + int_text(exponent).len(),
        s.subrange(i, s.len() as int) == int_text(exponent),
    ensures
        lex_exponent(s, i) == (ExponentLex::Exponent { value: exponent, end: s.len() as int }),
{
    let t = int_text(exponent);
    if exponent < 0 {
        let digits = nat_text((-exponent) as nat);
        lemma_nat_text((-exponent) as nat);
        assert(t[0] == 0x2d);
        assert(s[i] == t[0]);
        assert forall|j: int| i + 1 <= j < s.len() implies is_digit(#[trigger] s[j]) by {
            assert(s[j] == t[j - i]);
            assert(t[j - i] == digits[j - i - 1]);
        }
        lemma_digits_end_at(s, i + 1, s.len() as int);
        assert(s.subrange(i + 1, s.len() as int) =~= digits) by {
            assert forall|j: int| 0 <= j < digits.len() implies s.subrange(
                i + 1,
                s.len() as int,
            )[j] == digits[j] by {
                assert(s[j + i + 1] == t[j + 1]);
            }
        }
    } else {
        let digits = nat_text(exponent as nat);
        lemma_nat_text(exponent as nat);
        assert(s[i] == t[0]);
        assert(is_digit(digits[0]));
        assert forall|j: int| i <= j < s.len() implies is_digit(#[trigger] s[j]) by {
            assert(s[j] == t[j - i]);
        }
        lemma_digits_end_at(s, i, s.len() as int);
        assert(s.subrange(i, s.len() as int) =~= digits);
    }
}

/// The digits and zeros of a number written out in full read as the number.
proof fn lemma_plain_round_trip(s: Seq<u8>, m0: int, digits: Seq<u8>, exponent: int, negative: bool)
    requires
        0 <= m0,
        is_written(digits, exponent),
        exponent >= 0,
        s.len() == m0 + digits.len() + exponent,
        s.subrange(m0, s.len() as int) == digits + zeros(exponent as nat),
    ensures
        lex_magnitude(s, m0, negative) == (NumberLex::Number {
            digits: cut_digits(digits),
            exponent: exponent + trailing_zeros(digits),
            negative,
            end: s.len() as int,
        }),
{
    let body = digits + zeros(exponent as nat);
    assert forall|j: int| m0 <= j < s.len() implies is_mantissa_byte(#[trigger] s[j]) by {
        assert(s[j] == body[j - m0]);
        if j - m0 < digits.len() {
            assert(is_digit(digits[j - m0]));
        }
    }
    lemma_mantissa_end_at(s, m0, s.len() as int);
    assert(all_digits(body)) by {
        assert forall|j: int| 0 <= j < body.len() implies is_digit(#[trigger] body[j]) by {
            if j < digits.len() {
                assert(is_digit(digits[j]));
            }
        }
    }
    assert(body[0] == digits[0]);
    lemma_scan_digits(Seq::empty(), body);
    assert(Seq::<u8>::empty() + body =~= body);
    lemma_trailing_zeros_added(digits, exponent as nat);
    lemma_cut_not_empty(digits);
    assert(body.take(body.len() - (trailing_zeros(digits) + exponent)) =~= cut_digits(digits));
}

/// The digits of a number with a point among them read as the number.
proof fn lemma_fraction_round_trip(
    s: Seq<u8>,
    m0: int,
    digits: Seq<u8>,
    exponent: int,
    negative: bool,
)
    requires
        0 <= m0,
        is_written(digits, exponent),
        exponent < 0,
        -exponent < digits.len(),
        s.len() == m0 + digits.len() + 1,
        s.subrange(m0, s.len() as int) == digits.take(digits.len() + exponent) + seq![0x2eu8]
            + digits.skip(digits.len() + exponent),
    ensures
        lex_magnitude(s, m0, negative) == (NumberLex::Number {
            digits: cut_digits(digits),
            exponent: exponent + trailing_zeros(digits),
            negative,
            end: s.len() as int,
        }),
{
    let k = digits.len() + exponent;
    let a = digits.take(k);
    let b = digits.skip(k);
    let body = a + seq![0x2eu8] + b;
    assert forall|j: int| m0 <= j < s.len() implies is_mantissa_byte(#[trigger] s[j]) by {
        assert(s[j] == body[j - m0]);
        if j - m0 < k {
            assert(is_digit(digits[j - m0]));
        } else if j - m0 > k {
            assert(is_digit(digits[j - m0 - 1]));
        }
    }
    lemma_mantissa_end_at(s, m0, s.len() as int);
    assert(all_digits(a)) by {
        assert forall|j: int| 0 <= j < a.len() implies is_digit(#[trigger] a[j]) by {
            assert(is_digit(digits[j]));
        }
    }
    assert(all_digits(b)) by {
        assert forall|j: int| 0 <= j < b.len() implies is_digit(#[trigger] b[j]) by {
            assert(is_digit(digits[j + k]));
        }
    }
    assert(a[0] == digits[0]);
    lemma_scan_digits(Seq::empty(), a);
    assert(Seq::<u8>::empty() + a =~= a);
    lemma_scan_mantissa_push(a, 0x2eu8);
    lemma_scan_digits(a.push(0x2eu8), b);
    assert(a.push(0x2eu8) + b =~= body);
    assert(a + b =~= digits);
    lemma_cut_not_empty(digits);
}

/// The digits of a number behind `0.` and zeros read as the number.
proof fn lemma_small_round_trip(s: Seq<u8>, m0: int, digits: Seq<u8>, exponent: int, negative: bool)
    requires
        0 <= m0,
        is_written(digits, exponent),
        exponent < 0,
        -exponent >= digits.len(),
        s.len() == m0 + 2 - exponent,
        s.subrange(m0, s.len() as int) == seq![0x30u8, 0x2eu8] + zeros(
            (-exponent - digits.len()) as nat,
        ) + digits,
    ensures
        lex_magnitude(s, m0, negative) == (NumberLex::Number {
            digits: cut_digits(digits),
            exponent: exponent + trailing_zeros(digits),
            negative,
            end: s.len() as int,
        }),
{
    let p = (-exponent - digits.len()) as nat;
    let body = seq![0x30u8, 0x2eu8] + zeros(p) + digits;
    assert forall|j: int| m0 <= j < s.len() implies is_mantissa_byte(#[trigger] s[j]) by {
        assert(s[j] == body[j - m0]);
        if j - m0 >= 2 + p {
            assert(is_digit(digits[j - m0 - 2 - p]));
        }
    }
    lemma_mantissa_end_at(s, m0, s.len() as int);
    let x0 = Seq::<u8>::empty().push(0x30u8);
    lemma_scan_mantissa_push(Seq::empty(), 0x30u8);
    let x1 = x0.push(0x2eu8);
    lemma_scan_mantissa_push(x0, 0x2eu8);
    lemma_scan_zeros(x1, p);
    lemma_scan_digits(x1 + zeros(p), digits);
    assert(x1 + zeros(p) + digits =~= body);
    assert(Seq::<u8>::empty() + digits =~= digits);
    lemma_cut_not_empty(digits);
}

/// The digits of a number, `e` and its exponent read as the number.
proof fn lemma_scientific_round_trip(
    s: Seq<u8>,
    m0: int,
    digits: Seq<u8>,
    exponent: int,
    negative: bool,
)
    requires
        0 <= m0,
        is_written(digits, exponent),
        s.len() == m0 + digits.len() + 1 + int_text(exponent).len(),
        s.subrange(m0, s.len() as int) == digits + seq![0x65u8] + int_text(exponent),
    ensures
        lex_magnitude(s, m0, negative) == (NumberLex::Number {
            digits: cut_digits(digits),
            exponent: exponent + trailing_zeros(digits),
            negative,
            end: s.len() as int,
        }),
{
    let body = digits + seq![0x65u8] + int_text(exponent);
    let m1 = m0 + digits.len();
    assert forall|j: int| m0 <= j < m1 implies is_mantissa_byte(#[trigger] s[j]) by {
        assert(s[j] == body[j - m0]);
        assert(is_digit(digits[j - m0]));
    }
    assert(s[m1] == body[m1 - m0]);
    lemma_mantissa_end_at(s, m0, m1);
    assert(s.subrange(m0, m1) =~= digits) by {
        assert forall|j: int| 0 <= j < digits.len() implies s.subrange(m0, m1)[j] == digits[j] by {
            assert(s[j + m0] == body[j]);
        }
    }
    lemma_scan_digits(Seq::empty(), digits);
    assert(Seq::<u8>::empty() + digits =~= digits);
    lemma_cut_not_empty(digits);
    assert(s.subrange(m1 + 1, s.len() as int) =~= int_text(exponent)) by {
        assert forall|j: int| 0 <= j < int_text(exponent).len() implies s.subrange(
            m1 + 1,
            s.len() as int,
        )[j] == int_text(exponent)[j] by {
            assert(s[j + m1 + 1] == body[j + m1 + 1 - m0]);
        }
    }
    lemma_exponent_round_trip(s, m1 + 1, exponent);
}

/// The text of a number spells that number, whatever zeros its digits end
/// in: lexing the text from the start takes all of the text and gives the
/// sign, the digits without the zeros at their end, and the exponent with
/// one more for each of those zeros. The digits that are read, scaled by
/// ten for each zero that went into the exponent, are worth what the
/// digits that were written are worth, and what is read is in canonical
/// form.
pub proof fn lemma_number_text_reads(digits: Seq<u8>, exponent: int, negative: bool)
    requires
        is_written(digits, exponent),
    ensures
        lex_number(number_text(digits, exponent, negative), 0) == (NumberLex::Number {
            digits: cut_digits(digits),
            exponent: exponent + trailing_zeros(digits),
            negative,
            end: number_text(digits, exponent, negative).len() as int,
        }),
        digits_value(cut_digits(digits)) * pow(10, trailing_zeros(digits)) == digits_value(digits),
        is_canonical(cut_digits(digits), exponent + trailing_zeros(digits), negative),
{
    let s = number_text(digits, exponent, negative);
    let body = magnitude_text(digits, exponent);
    let m0: int = if negative {
        1
    } else {
        0
    };
    assert(s.subrange(m0, s.len() as int) =~= body);
    assert(is_digit(digits[0]));
    assert(body.len() > 0 && is_digit(body[0])) by {
        let n = digits.len() as int;
        if exponent >= 0 && n + exponent <= FORMAT_NUM_WIDTH {
            assert(body[0] == digits[0]);
        } else if exponent < 0 && -exponent < n {
            assert(body[0] == digits[0]);
        } else if exponent < 0 && -exponent <= FORMAT_NUM_WIDTH {
        } else {
            assert(body[0] == digits[0]);
        }
    }
    assert(s[m0] == body[0]);
    if negative {
        assert(s[0] == 0x2d);
    } else {
        assert(s[0] != 0x2d);
    }
    let n = digits.len() as int;
    if exponent >= 0 && n + exponent <= FORMAT_NUM_WIDTH {
        lemma_plain_round_trip(s, m0, digits, exponent, negative);
    } else if exponent < 0 && -exponent < n {
        lemma_fraction_round_trip(s, m0, digits, exponent, negative);
    } else if exponent < 0 && -exponent <= FORMAT_NUM_WIDTH {
        lemma_small_round_trip(s, m0, digits, exponent, negative);
    } else {
        lemma_scientific_round_trip(s, m0, digits, exponent, negative);
    }
    crate::canonical::lemma_cut_value(digits);
    lemma_cut_not_empty(digits);
    lemma_trailing_zeros_cut(digits);
    let cut = cut_digits(digits);
    assert(cut[0] == digits[0]);
    assert forall|i: int| 0 <= i < cut.len() implies is_digit(#[trigger] cut[i]) by {
        assert(is_digit(digits[i]));
    }
}

/// The text of a number reads as the number: for any number in canonical
/// form, lexing its text from the start takes all of the text and gives the
/// digits, the exponent and the sign of the number.
pub proof fn lemma_number_round_trip(digits: Seq<u8>, exponent: int, negative: bool)
    requires
        is_canonical(digits, exponent, negative),
    ensures
        lex_number(number_text(digits, exponent, negative), 0) == (NumberLex::Number {
            digits,
            exponent,
            negative,
            end: number_text(digits, exponent, negative).len() as int,
        }),
{
    let s = number_text(digits, exponent, negative);
    if digits.len() == 0 {
        assert(s =~= seq![0x30u8]);
        lemma_mantissa_end_at(s, 0, 1);
        assert(s.subrange(0, 1) =~= Seq::<u8>::empty().push(0x30u8));
        lemma_scan_mantissa_push(Seq::empty(), 0x30u8);
        assert(digits =~= Seq::<u8>::empty());
        assert(Seq::<u8>::empty().take(0) =~= Seq::<u8>::empty());
    } else {
        assert(trailing_zeros(digits) == 0);
        assert(cut_digits(digits) =~= digits);
        lemma_number_text_reads(digits, exponent, negative);
    }
}

/// Reading a number, writing it and reading what was written gives the same
/// digits, the same exponent and the same sign as the first reading did.
pub proof fn lemma_read_write_read(s: Seq<u8>, start: int)
    requires
        0 <= start <= s.len(),
    ensures
        match lex_number(s, start) {
            NumberLex::Number { digits, exponent, negative, end } => lex_number(
                number_text(digits, exponent, negative),
                0,
            ) == (NumberLex::Number {
                digits,
                exponent,
                negative,
                end: number_text(digits, exponent, negative).len() as int,
            }),
            NumberLex::Fail { .. } => true,
        },
{
    crate::number::lemma_lex_number_canonical(s, start);
    match lex_number(s, start) {
        NumberLex::Number { digits, exponent, negative, end } => {
            lemma_number_round_trip(digits, exponent, negative);
        },
        NumberLex::Fail { .. } => {},
    }
}

/// The escaped form of one byte.
proof fn lemma_escape_one(c: u8)
    ensures
        escape_seq(seq![c]) == escape_byte(c),
{
    let one = seq![c];
    assert(one.drop_last() =~= Seq::<u8>::empty());
    assert(escape_seq(one.drop_last()) =~= Seq::<u8>::empty());
    assert(one.last() == c);
    assert(escape_seq(one) =~= escape_byte(c));
}

/// The hexadecimal digit for a number below sixteen reads as the number.
proof fn lemma_hex_digit(n: u8)
    requires
        n < 16,
    ensures
        hex_value(hex_digit(n)) == n,
{
}

/// Decoding the escaped form of one byte gives the byte: where `s` holds
/// the escaped form of `c` from `i` on, a string that is decoded from `i`
/// goes on behind the escaped form with `c` added to what it holds.
proof fn lemma_unescape_byte(s: Seq<u8>, i: int, c: u8, acc: Seq<u8>)
    requires
        0 <= i,
        i + escape_byte(c).len() < s.len(),
        s.subrange(i, i + escape_byte(c).len()) == escape_byte(c),
    ensures
        lex_string(s, i, acc) == lex_string(s, i + escape_byte(c).len(), acc.push(c)),
{
    let e = escape_byte(c);
    assert forall|j: int| 0 <= j < e.len() implies s[i + j] == #[trigger] e[j] by {
        assert(s.subrange(i, i + e.len())[j] == e[j]);
    }
    assert(acc + seq![c] =~= acc.push(c));
    if c == 0x22 || c == 0x5c {
        assert(s[i] == e[0] && s[i + 1] == e[1]);
    } else if c == 0x09 || c == 0x0d || c == 0x0a || c == 0x08 || c == 0x0c {
        assert(s[i] == e[0] && s[i + 1] == e[1]);
    } else if c < 0x20 {
        assert(s[i] == e[0] && s[i + 1] == e[1] && s[i + 2] == e[2] && s[i + 3] == e[3] && s[i + 4]
            == e[4] && s[i + 5] == e[5]);
        lemma_hex_digit(c / 16);
        lemma_hex_digit(c % 16);
        reveal(lex_unicode);
        assert(hex4_value(s, i + 2) == c);
        let u = c as u32;
        assert((u & 0x7F) as u8 == c) by (bit_vector)
            requires
                u == c as u32,
                c < 0x20,
        ;
        assert(vstd::utf8::encode_scalar(u) =~= seq![c]);
    } else {
        assert(s[i] == e[0]);
    }
}

/// Decoding what was escaped gives back what there was: where `s` holds
/// the escaped form of `q` from `i` on, and a quote behind it, a string that
/// is decoded from `i` ends behind that quote and holds `q`, behind what it
/// held before.
pub proof fn lemma_unescape(s: Seq<u8>, i: int, q: Seq<u8>, acc: Seq<u8>)
    requires
        0 <= i,
        i + escape_seq(q).len() < s.len(),
        s.subrange(i, i + escape_seq(q).len()) == escape_seq(q),
        s[i + escape_seq(q).len()] == 0x22,
    ensures
        lex_string(s, i, acc) == (Lex::Done {
            value: acc + q,
            end: i + escape_seq(q).len() + 1,
        }),
    decreases q.len(),
{
    if q.len() == 0 {
        assert(escape_seq(q) =~= Seq::<u8>::empty());
        assert(acc + q =~= acc);
    } else {
        let c = q[0];
        let rest = q.drop_first();
        assert(q =~= seq![c] + rest);
        lemma_escape_concat(seq![c], rest);
        lemma_escape_one(c);
        let e = escape_byte(c);
        let whole = escape_seq(q);
        assert(whole =~= e + escape_seq(rest));
        assert(s.subrange(i, i + e.len()) =~= e) by {
            assert forall|j: int| 0 <= j < e.len() implies s.subrange(i, i + e.len())[j]
                == e[j] by {
                assert(s.subrange(i, i + whole.len())[j] == whole[j]);
            }
        }
        lemma_unescape_byte(s, i, c, acc);
        assert(s.subrange(i + e.len(), i + e.len() + escape_seq(rest).len()) =~= escape_seq(rest))
            by {
            assert forall|j: int| 0 <= j < escape_seq(rest).len() implies s.subrange(
                i + e.len(),
                i + e.len() + escape_seq(rest).len(),
            )[j] == escape_seq(rest)[j] by {
                assert(s.subrange(i, i + whole.len())[j + e.len()] == whole[j + e.len()]);
            }
        }
        lemma_unescape(s, i + e.len(), rest, acc.push(c));
        assert(acc.push(c) + rest =~= acc + q);
    }
}

/// Bytes that are escaped and put between quotes read, as a blob, as the
/// bytes that they were: escaping and decoding are inverse to each other,
/// for every byte there is.
pub proof fn lemma_blob_round_trip(bytes: Seq<u8>)
    ensures
        lex_blob(quoted(bytes), 0) == (Lex::Done {
            value: bytes,
            end: quoted(bytes).len() as int,
        }),
{
    let s = quoted(bytes);
    let e = escape_seq(bytes);
    assert(s[0] == 0x22);
    assert(s[1 + e.len() as int] == 0x22);
    assert(s.subrange(1, 1 + e.len() as int) =~= e);
    lemma_unescape(s, 1, bytes, Seq::empty());
    assert(Seq::<u8>::empty() + bytes =~= bytes);
    assert(!crate::ascii::is_space(s[0]));
}

} // verus!
