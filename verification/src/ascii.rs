//! Classes of bytes that the JSON grammar tells apart.

use vstd::prelude::*;
use vstd::arithmetic::power::{lemma_pow0, lemma_pow1, lemma_pow_adds, pow};
use vstd::utf8::valid_utf8;

verus! {

/// The four bytes that JSON allows between tokens.
pub open spec fn is_space(c: u8) -> bool {
    c == 0x20 || c == 0x09 || c == 0x0a || c == 0x0d
}

/// An ASCII decimal digit.
pub open spec fn is_digit(c: u8) -> bool {
    0x30 <= c <= 0x39
}

/// A byte that may continue an identifier: a letter, a digit or `_`.
pub open spec fn is_word(c: u8) -> bool {
    is_digit(c) || (0x41 <= c <= 0x5a) || (0x61 <= c <= 0x7a) || c == 0x5f
}

/// Every byte of `s` is a decimal digit.
pub open spec fn all_digits(s: Seq<u8>) -> bool {
    forall|i: int| 0 <= i < s.len() ==> is_digit(#[trigger] s[i])
}

/// The number that a sequence of decimal digits spells, the first digit
/// being the most significant.
pub open spec fn digits_value(s: Seq<u8>) -> nat
    decreases s.len(),
{
    if s.len() == 0 {
        0
    } else {
        digits_value(s.drop_last()) * 10 + (s.last() - 0x30) as nat
    }
}

/// The first index at or after `i` that holds no decimal digit.
pub open spec fn digits_end(s: Seq<u8>, i: int) -> int
    decreases s.len() - i,
{
    if 0 <= i < s.len() && is_digit(s[i]) {
        digits_end(s, i + 1)
    } else {
        i
    }
}

/// The first index at or after `i` that holds no white space.
pub open spec fn spaces_end(s: Seq<u8>, i: int) -> int
    decreases s.len() - i,
{
    if 0 <= i < s.len() && is_space(s[i]) {
        spaces_end(s, i + 1)
    } else {
        i
    }
}

/// `n` zeros.
pub open spec fn zeros(n: nat) -> Seq<u8> {
    Seq::new(n, |i: int| 0x30u8)
}

/// The decimal digits of a natural number, without zeros in front.
pub open spec fn nat_text(n: nat) -> Seq<u8>
    decreases n,
{
    if n < 10 {
        seq![(0x30 + n) as u8]
    } else {
        nat_text(n / 10).push((0x30 + n % 10) as u8)
    }
}

/// The decimal text of an integer: `-` in front of a negative one, no sign
/// otherwise.
pub open spec fn int_text(n: int) -> Seq<u8> {
    if n < 0 {
        seq![0x2du8] + nat_text((-n) as nat)
    } else {
        nat_text(n as nat)
    }
}

pub fn byte_is_space(c: u8) -> (r: bool)
    ensures
        r == is_space(c),
{
    c == 0x20 || c == 0x09 || c == 0x0a || c == 0x0d
}

pub fn byte_is_digit(c: u8) -> (r: bool)
    ensures
        r == is_digit(c),
{
    0x30 <= c && c <= 0x39
}

pub fn byte_is_word(c: u8) -> (r: bool)
    ensures
        r == is_word(c),
{
    byte_is_digit(c) || (0x41 <= c && c <= 0x5a) || (0x61 <= c && c <= 0x7a) || c == 0x5f
}

pub proof fn lemma_digits_value_push(s: Seq<u8>, c: u8)
    ensures
        digits_value(s.push(c)) == digits_value(s) * 10 + (c - 0x30) as nat,
{
    assert(s.push(c).drop_last() =~= s);
}

pub proof fn lemma_spaces_end_bounds(s: Seq<u8>, i: int)
    requires
        0 <= i <= s.len(),
    ensures
        i <= spaces_end(s, i) <= s.len(),
        spaces_end(s, i) < s.len() ==> !is_space(s[spaces_end(s, i)]),
        forall|j: int| i <= j < spaces_end(s, i) ==> is_space(#[trigger] s[j]),
    decreases s.len() - i,
{
    if i < s.len() && is_space(s[i]) {
        lemma_spaces_end_bounds(s, i + 1);
    }
}

pub proof fn lemma_digits_end_bounds(s: Seq<u8>, i: int)
    requires
        0 <= i <= s.len(),
    ensures
        i <= digits_end(s, i) <= s.len(),
        digits_end(s, i) < s.len() ==> !is_digit(s[digits_end(s, i)]),
        forall|j: int| i <= j < digits_end(s, i) ==> is_digit(#[trigger] s[j]),
    decreases s.len() - i,
{
    if i < s.len() && is_digit(s[i]) {
        lemma_digits_end_bounds(s, i + 1);
    }
}

/// The decimal digits of a number.
pub fn nat_digits(n: u128) -> (text: Vec<u8>)
    ensures
        text@ == nat_text(n as nat),
    decreases n,
{
    if n < 10 {
        let mut text: Vec<u8> = Vec::new();
        text.push(0x30 + n as u8);
        proof {
            assert(text@ =~= nat_text(n as nat));
        }
        text
    } else {
        let mut text = nat_digits(n / 10);
        text.push(0x30 + (n % 10) as u8);
        text
    }
}

/// The decimal text of a number is digits, at least one, and spells the
/// number.
pub proof fn lemma_nat_text(n: nat)
    ensures
        all_digits(nat_text(n)),
        nat_text(n).len() >= 1,
        digits_value(nat_text(n)) == n,
    decreases n,
{
    if n < 10 {
        let c = (0x30 + n) as u8;
        assert(nat_text(n) =~= Seq::<u8>::empty().push(c));
        lemma_digits_value_push(Seq::empty(), c);
        assert(digits_value(Seq::<u8>::empty()) == 0);
        assert((c - 0x30) as nat == n);
    } else {
        lemma_nat_text(n / 10);
        let front = nat_text(n / 10);
        let c = (0x30 + n % 10) as u8;
        lemma_digits_value_push(front, c);
        assert((c - 0x30) as nat == n % 10);
        assert(nat_text(n) == front.push(c));
        assert forall|i: int| 0 <= i < nat_text(n).len() implies is_digit(
            #[trigger] nat_text(n)[i],
        ) by {
            if i < front.len() {
                assert(is_digit(front[i]));
            }
        }
    }
}

/// The decimal text of a number below `10^k` has at most `k` digits.
pub proof fn lemma_nat_text_len(n: nat, k: nat)
    requires
        k >= 1,
        n < pow(10, k),
    ensures
        nat_text(n).len() <= k,
    decreases k,
{
    if n >= 10 {
        lemma_pow1(10);
        if k == 1 {
            assert(false);
        }
        lemma_pow_adds(10, 1, (k - 1) as nat);
        lemma_nat_text_len(n / 10, (k - 1) as nat);
    }
}

/// The decimal text of a number that is not zero does not start with zero.
pub proof fn lemma_nat_text_first(n: nat)
    requires
        n > 0,
    ensures
        nat_text(n)[0] != 0x30,
    decreases n,
{
    if n >= 10 {
        lemma_nat_text_first(n / 10);
        lemma_nat_text(n / 10);
    }
}

/// The decimal text of a number has only bytes below `0x80`.
pub proof fn lemma_nat_text_ascii(n: nat)
    ensures
        forall|i: int| 0 <= i < nat_text(n).len() ==> #[trigger] nat_text(n)[i] < 0x80,
    decreases n,
{
    if n >= 10 {
        lemma_nat_text_ascii(n / 10);
        let front = nat_text(n / 10);
        assert forall|i: int| 0 <= i < nat_text(n).len() implies #[trigger] nat_text(n)[i]
            < 0x80 by {
            if i < front.len() {
                assert(front[i] < 0x80);
            }
        }
    }
}

/// The decimal text of a number is UTF-8.
pub proof fn lemma_nat_text_utf8(n: nat)
    ensures
        valid_utf8(nat_text(n)),
{
    lemma_nat_text_ascii(n);
    let bytes = nat_text(n);
    assert(bytes.subrange(0, 0) =~= Seq::<u8>::empty());
    vstd::utf8::partial_valid_utf8_extend_ascii_block(bytes, 0, bytes.len() as int);
    assert(bytes.subrange(0, bytes.len() as int) =~= bytes);
}

/// Zeros behind digits multiply what the digits spell by ten, each.
pub proof fn lemma_digits_value_zeros(d: Seq<u8>, k: nat)
    ensures
        digits_value(d + zeros(k)) == digits_value(d) * pow(10, k),
    decreases k,
{
    if k == 0 {
        lemma_pow0(10);
        assert(d + zeros(0) =~= d);
    } else {
        lemma_digits_value_zeros(d, (k - 1) as nat);
        assert(d + zeros(k) =~= (d + zeros((k - 1) as nat)).push(0x30u8));
        lemma_digits_value_push(d + zeros((k - 1) as nat), 0x30u8);
        lemma_pow_adds(10, (k - 1) as nat, 1);
        lemma_pow1(10);
        let v = digits_value(d) as int;
        let p = pow(10, (k - 1) as nat);
        assert(v * p * 10 == v * (p * 10)) by (nonlinear_arith);
    }
}

} // verus!
