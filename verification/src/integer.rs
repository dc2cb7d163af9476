//! From a decimal number to an integer: the whole part of the number, where
//! it fits.

use vstd::prelude::*;
use vstd::arithmetic::div_mod::{
    lemma_basic_div, lemma_div_denominator, lemma_fundamental_div_mod_converse,
};
use vstd::arithmetic::power::{
    lemma_pow0, lemma_pow1, lemma_pow_adds, lemma_pow_increases, lemma_pow_positive, pow,
};
use crate::ascii::{all_digits, digits_value};

verus! {

/// The whole part of `digits * 10^exponent`: the digits with zeros behind
/// them for an exponent of zero or more, and the digits without their last
/// ones for an exponent below zero.
pub open spec fn decimal_magnitude(digits: Seq<u8>, exponent: int) -> int {
    if exponent >= 0 {
        digits_value(digits) * pow(10, exponent as nat)
    } else {
        digits_value(digits) as int / pow(10, (-exponent) as nat)
    }
}

/// The number `digits * 10^exponent`, negated if `negative`, cut down to a
/// whole number toward zero.
pub open spec fn decimal_trunc(digits: Seq<u8>, exponent: int, negative: bool) -> int {
    if negative {
        -decimal_magnitude(digits, exponent)
    } else {
        decimal_magnitude(digits, exponent)
    }
}

/// The front of a number spells no more than the number.
pub proof fn lemma_digits_value_prefix(d: Seq<u8>, k: int)
    requires
        all_digits(d),
        0 <= k <= d.len(),
    ensures
        digits_value(d.take(k)) <= digits_value(d),
    decreases d.len() - k,
{
    if k == d.len() {
        assert(d.take(k) =~= d);
    } else {
        let p = d.drop_last();
        assert(p.take(k) =~= d.take(k));
        assert(is_digit_byte(d.last())) by {
            assert(crate::ascii::is_digit(d[d.len() - 1]));
        }
        lemma_digits_value_prefix(p, k);
    }
}

spec fn is_digit_byte(c: u8) -> bool {
    0x30 <= c <= 0x39
}

/// A number of `n` digits is below `10^n`.
pub proof fn lemma_digits_value_bound(d: Seq<u8>)
    requires
        all_digits(d),
    ensures
        digits_value(d) < pow(10, d.len()),
    decreases d.len(),
{
    if d.len() == 0 {
        lemma_pow0(10);
    } else {
        let p = d.drop_last();
        lemma_digits_value_bound(p);
        assert(crate::ascii::is_digit(d[d.len() - 1]));
        lemma_pow_adds(10, p.len(), 1);
        lemma_pow1(10);
        let vp = digits_value(p) as int;
        let pw = pow(10, p.len());
        assert(vp * 10 + 9 < pw * 10) by (nonlinear_arith)
            requires
                vp < pw,
        ;
    }
}

/// Dividing by `10^j` takes the last `j` digits away.
pub proof fn lemma_digits_value_div(d: Seq<u8>, j: nat)
    requires
        all_digits(d),
        j <= d.len(),
    ensures
        digits_value(d) as int / pow(10, j) == digits_value(d.take(d.len() - j)),
    decreases j,
{
    if j == 0 {
        lemma_pow0(10);
        assert(d.take(d.len() as int) =~= d);
    } else {
        let p = d.drop_last();
        let v = digits_value(d) as int;
        let vp = digits_value(p) as int;
        let l = (d.last() - 0x30) as int;
        assert(crate::ascii::is_digit(d[d.len() - 1]));
        lemma_fundamental_div_mod_converse(v, 10, vp, l);
        lemma_pow_adds(10, 1, (j - 1) as nat);
        lemma_pow1(10);
        lemma_pow_positive(10, (j - 1) as nat);
        lemma_div_denominator(v, 10, pow(10, (j - 1) as nat));
        lemma_digits_value_div(p, (j - 1) as nat);
        assert(p.take(p.len() - (j - 1)) =~= d.take(d.len() - j));
    }
}

/// With an exponent below zero, the whole part of a number is what its
/// digits spell without the last ones, as many as the exponent says.
pub proof fn lemma_magnitude_cut(d: Seq<u8>, exponent: int)
    requires
        all_digits(d),
        exponent < 0,
    ensures
        decimal_magnitude(d, exponent) == (if -exponent >= d.len() {
            0
        } else {
            digits_value(d.take(d.len() + exponent)) as int
        }),
{
    let j = (-exponent) as nat;
    if j >= d.len() {
        lemma_digits_value_bound(d);
        lemma_pow_increases(10, d.len(), j);
        lemma_basic_div(digits_value(d) as int, pow(10, j));
    } else {
        lemma_digits_value_div(d, j);
    }
}

/// The whole part of `digits * 10^exponent`, if it is no more than `limit`.
pub fn magnitude_within(digits: &[u8], exponent: i32, limit: u128) -> (r: Option<u128>)
    requires
        all_digits(digits@),
    ensures
        r == (if decimal_magnitude(digits@, exponent as int) <= limit {
            Some(decimal_magnitude(digits@, exponent as int) as u128)
        } else {
            None
        }),
{
    let len = digits.len();
    let keep: usize = if exponent >= 0 {
        len
    } else {
        let cut: u64 = (-(exponent as i64)) as u64;
        if cut as u128 >= len as u128 {
            0
        } else {
            len - cut as usize
        }
    };
    let ghost kept = digits@.take(keep as int);
    proof {
        if exponent < 0 {
            lemma_magnitude_cut(digits@, exponent as int);
            assert(digits@.take(0) =~= Seq::<u8>::empty());
        } else {
            assert(kept =~= digits@);
        }
        assert(all_digits(kept));
    }
    let mut acc: u128 = 0;
    let mut i: usize = 0;
    proof {
        assert(kept.take(0) =~= Seq::<u8>::empty());
    }
    while i < keep
        invariant
            i <= keep <= len,
            len == digits.len(),
            kept == digits@.take(keep as int),
            all_digits(kept),
            exponent < 0 ==> decimal_magnitude(digits@, exponent as int) == digits_value(kept),
            exponent >= 0 ==> kept == digits@,
            acc == digits_value(kept.take(i as int)),
            acc <= limit,
        decreases keep - i,
    {
        let c = digits[i];
        proof {
            assert(kept[i as int] == c);
            assert(crate::ascii::is_digit(kept[i as int]));
            assert(kept.take(i + 1) =~= kept.take(i as int).push(c));
            crate::ascii::lemma_digits_value_push(kept.take(i as int), c);
            lemma_digits_value_prefix(kept, i + 1);
            if exponent >= 0 {
                lemma_pow_positive(10, exponent as nat);
                let v = digits_value(kept) as int;
                let pw = pow(10, exponent as nat);
                assert(v * pw >= v) by (nonlinear_arith)
                    requires
                        v >= 0,
                        pw >= 1,
                ;
            }
        }
        let d: u128 = (c - 0x30) as u128;
        let next: u128 = match acc.checked_mul(10) {
            Some(x) => match x.checked_add(d) {
                Some(y) => y,
                None => {
                    return None;
                },
            },
            None => {
                return None;
            },
        };
        if next > limit {
            return None;
        }
        acc = next;
        i += 1;
    }
    proof {
        assert(kept.take(keep as int) =~= kept);
    }
    if exponent <= 0 || acc == 0 {
        proof {
            if exponent == 0 {
                lemma_pow0(10);
            }
            if exponent > 0 {
                assert(0 * pow(10, exponent as nat) == 0) by (nonlinear_arith);
            }
        }
        return Some(acc);
    }
    let ghost m = acc as int;
    let mut j: i32 = 0;
    proof {
        lemma_pow0(10);
    }
    while j < exponent
        invariant
            0 <= j <= exponent,
            m == digits_value(digits@),
            m >= 1,
            acc == m * pow(10, j as nat),
            acc <= limit,
        decreases exponent - j,
    {
        proof {
            lemma_pow_adds(10, j as nat, 1);
            lemma_pow1(10);
            lemma_pow_increases(10, (j + 1) as nat, exponent as nat);
            lemma_pow_positive(10, j as nat);
            let a = pow(10, j as nat);
            let b = pow(10, (j + 1) as nat);
            let c = pow(10, exponent as nat);
            assert(m * b == (m * a) * 10) by (nonlinear_arith)
                requires
                    b == a * 10,
            ;
            assert(m * c >= m * b) by (nonlinear_arith)
                requires
                    c >= b,
                    m >= 1,
            ;
        }
        match acc.checked_mul(10) {
            Some(x) => {
                if x > limit {
                    return None;
                }
                acc = x;
            },
            None => {
                return None;
            },
        }
        j += 1;
    }
    Some(acc)
}

/// The whole part of a decimal number as a signed integer between `min` and
/// `max`, if it lies there.
pub fn decimal_to_signed(digits: &[u8], exponent: i32, negative: bool, min: i128, max: i128) -> (r:
    Option<i128>)
    requires
        all_digits(digits@),
        min < 0 <= max,
    ensures
        r == (if min <= decimal_trunc(digits@, exponent as int, negative) <= max {
            Some(decimal_trunc(digits@, exponent as int, negative) as i128)
        } else {
            None
        }),
{
    proof {
        lemma_magnitude_not_negative(digits@, exponent as int);
    }
    if negative {
        let limit: u128 = (-(min + 1)) as u128 + 1;
        match magnitude_within(digits, exponent, limit) {
            Some(m) => {
                if m == limit {
                    Some(min)
                } else {
                    Some(-(m as i128))
                }
            },
            None => None,
        }
    } else {
        match magnitude_within(digits, exponent, max as u128) {
            Some(m) => Some(m as i128),
            None => None,
        }
    }
}

/// The whole part of a decimal number as an unsigned integer up to `max`, if
/// it lies there.
pub fn decimal_to_unsigned(digits: &[u8], exponent: i32, negative: bool, max: u128) -> (r: Option<
    u128,
>)
    requires
        all_digits(digits@),
    ensures
        r == (if 0 <= decimal_trunc(digits@, exponent as int, negative) <= max {
            Some(decimal_trunc(digits@, exponent as int, negative) as u128)
        } else {
            None
        }),
{
    proof {
        lemma_magnitude_not_negative(digits@, exponent as int);
    }
    if negative {
        magnitude_within(digits, exponent, 0)
    } else {
        magnitude_within(digits, exponent, max)
    }
}

/// The whole part of a number without its sign is not negative.
pub proof fn lemma_magnitude_not_negative(d: Seq<u8>, exponent: int)
    ensures
        decimal_magnitude(d, exponent) >= 0,
{
    let v = digits_value(d) as int;
    if exponent >= 0 {
        lemma_pow_positive(10, exponent as nat);
        let pw = pow(10, exponent as nat);
        assert(v * pw >= 0) by (nonlinear_arith)
            requires
                v >= 0,
                pw > 0,
        ;
    } else {
        lemma_pow_positive(10, (-exponent) as nat);
        let pw = pow(10, (-exponent) as nat);
        assert(v / pw >= 0) by (nonlinear_arith)
            requires
                v >= 0,
                pw > 0,
        ;
    }
}

} // verus!
