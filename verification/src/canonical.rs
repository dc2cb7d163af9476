//! What the canonical form of a number means: it is the number that the
//! literal spelled, and no number has two canonical forms.

use vstd::prelude::*;
use vstd::arithmetic::power::{lemma_pow0, lemma_pow1, lemma_pow_adds, lemma_pow_positive, pow};
use crate::ascii::{
    all_digits, digits_value, is_digit, lemma_digits_value_push, lemma_digits_value_zeros, zeros,
};
use crate::number::{
    is_canonical, is_mantissa_byte, lemma_lex_number_canonical, lemma_mantissa_end_bounds,
    lemma_trailing_zeros_cut, lex_exponent, lex_number, mantissa_end, scan_mantissa,
    starts_number, trailing_zeros, ExponentLex, NumberLex,
};
use crate::token::Lex;
use crate::value::{lex_value, Node};

verus! {

/// The digits among the bytes of `r`, in their order.
pub open spec fn digits_in(r: Seq<u8>) -> Seq<u8>
    decreases r.len(),
{
    if r.len() == 0 {
        Seq::empty()
    } else if is_digit(r.last()) {
        digits_in(r.drop_last()).push(r.last())
    } else {
        digits_in(r.drop_last())
    }
}

/// The digits that the lexer keeps of a mantissa spell what all the digits
/// of the mantissa spell: the zeros that it drops in front change nothing.
pub proof fn lemma_kept_value(r: Seq<u8>)
    requires
        forall|i: int| 0 <= i < r.len() ==> is_mantissa_byte(#[trigger] r[i]),
    ensures
        digits_value(scan_mantissa(r).kept) == digits_value(digits_in(r)),
    decreases r.len(),
{
    if r.len() > 0 {
        let front = r.drop_last();
        let c = r.last();
        lemma_kept_value(front);
        assert(is_mantissa_byte(r[r.len() - 1]));
        if c != 0x2e {
            lemma_digits_value_push(digits_in(front), c);
            lemma_digits_value_push(scan_mantissa(front).kept, c);
            if scan_mantissa(front).kept.len() == 0 {
                assert(digits_value(scan_mantissa(front).kept) == 0);
            }
        }
    }
}

/// The digits that are left when the zeros at the end are cut off, scaled by
/// ten for each of those zeros, spell what there was before.
pub proof fn lemma_cut_value(d: Seq<u8>)
    ensures
        digits_value(d) == digits_value(d.take(d.len() - trailing_zeros(d))) * pow(
            10,
            trailing_zeros(d),
        ),
{
    lemma_trailing_zeros_cut(d);
    let k = trailing_zeros(d);
    let front = d.take(d.len() - k);
    assert(d =~= front + zeros(k)) by {
        assert forall|i: int| 0 <= i < d.len() implies d[i] == (front + zeros(k))[i] by {
            if i >= front.len() {
                assert(d[i] == 0x30);
            }
        }
    }
    lemma_digits_value_zeros(front, k);
}

/// Digits that do not start with zero spell a number that is not zero.
pub proof fn lemma_digits_value_positive(d: Seq<u8>)
    requires
        all_digits(d),
        d.len() > 0,
        d[0] != 0x30,
    ensures
        digits_value(d) >= 1,
    decreases d.len(),
{
    assert(is_digit(d[d.len() - 1]));
    if d.len() > 1 {
        let front = d.drop_last();
        assert(front[0] == d[0]);
        assert forall|i: int| 0 <= i < front.len() implies is_digit(#[trigger] front[i]) by {
            assert(is_digit(d[i]));
        }
        lemma_digits_value_positive(front);
    } else {
        assert(is_digit(d[0]));
        assert(d.drop_last() =~= Seq::<u8>::empty());
    }
}

/// Digits that do not start with zero are the only such digits that spell
/// what they spell.
pub proof fn lemma_digits_value_injective(a: Seq<u8>, b: Seq<u8>)
    requires
        all_digits(a),
        all_digits(b),
        a.len() > 0 ==> a[0] != 0x30,
        b.len() > 0 ==> b[0] != 0x30,
        digits_value(a) == digits_value(b),
    ensures
        a == b,
    decreases a.len(),
{
    if a.len() == 0 {
        if b.len() > 0 {
            lemma_digits_value_positive(b);
        }
        assert(a =~= b);
    } else if b.len() == 0 {
        lemma_digits_value_positive(a);
    } else {
        let fa = a.drop_last();
        let fb = b.drop_last();
        assert(is_digit(a[a.len() - 1]) && is_digit(b[b.len() - 1]));
        assert forall|i: int| 0 <= i < fa.len() implies is_digit(#[trigger] fa[i]) by {
            assert(is_digit(a[i]));
        }
        assert forall|i: int| 0 <= i < fb.len() implies is_digit(#[trigger] fb[i]) by {
            assert(is_digit(b[i]));
        }
        assert(fa.len() > 0 ==> fa[0] == a[0]);
        assert(fb.len() > 0 ==> fb[0] == b[0]);
        let va = digits_value(fa) as int;
        let vb = digits_value(fb) as int;
        let la = (a.last() - 0x30) as int;
        let lb = (b.last() - 0x30) as int;
        assert(va * 10 + la == vb * 10 + lb);
        assert(va == vb && la == lb);
        lemma_digits_value_injective(fa, fb);
        assert(a =~= fa.push(a.last()));
        assert(b =~= fb.push(b.last()));
    }
}

/// Digits that do not end in zero spell a number that ten does not divide.
proof fn lemma_last_digit(d: Seq<u8>)
    requires
        all_digits(d),
        d.len() > 0,
        d.last() != 0x30,
    ensures
        digits_value(d) % 10 != 0,
{
    assert(is_digit(d[d.len() - 1]));
    let v = digits_value(d.drop_last()) as int;
    let l = (d.last() - 0x30) as int;
    assert((v * 10 + l) % 10 == l) by (nonlinear_arith)
        requires
            0 <= l < 10,
    ;
}

/// No number has two canonical forms: where two numbers in canonical form,
/// of the same sign, are the same once the powers of ten are evened out,
/// they have the same digits and the same exponent.
pub proof fn lemma_canonical_unique(d1: Seq<u8>, e1: int, d2: Seq<u8>, e2: int, negative: bool)
    requires
        is_canonical(d1, e1, negative),
        is_canonical(d2, e2, negative),
        d1.len() > 0,
        d2.len() > 0,
        e1 >= e2,
        digits_value(d1) * pow(10, (e1 - e2) as nat) == digits_value(d2),
    ensures
        d1 == d2,
        e1 == e2,
{
    if e1 > e2 {
        let k = (e1 - e2 - 1) as nat;
        lemma_pow_adds(10, 1, k);
        lemma_pow1(10);
        let v = digits_value(d1) as int;
        let p = pow(10, k);
        assert(v * (10 * p) == (v * p) * 10) by (nonlinear_arith);
        vstd::arithmetic::div_mod::lemma_mod_multiples_basic(v * p, 10);
        lemma_last_digit(d2);
    }
    lemma_pow0(10);
    lemma_digits_value_injective(d1, d2);
}

/// What the lexer makes of a mantissa is the number that the mantissa
/// spelled: the digits that it keeps and then cuts the zeros off, scaled by
/// ten for each zero that it cut off, spell what all the digits of the
/// mantissa spell.
pub proof fn lemma_lexed_value(s: Seq<u8>, m0: int)
    requires
        0 <= m0 <= s.len(),
    ensures
        ({
            let run = s.subrange(m0, mantissa_end(s, m0));
            let kept = scan_mantissa(run).kept;
            let cut = trailing_zeros(kept);
            digits_value(kept.take(kept.len() - cut)) * pow(10, cut) == digits_value(digits_in(run))
        }),
{
    lemma_mantissa_end_bounds(s, m0);
    let run = s.subrange(m0, mantissa_end(s, m0));
    lemma_kept_value(run);
    lemma_cut_value(scan_mantissa(run).kept);
}

/// What a number literal spells, before anything is made of it.
pub struct Spelling {
    /// Whether a `-` stands in front.
    pub negative: bool,
    /// All the digits in front of the exponent, read as one number.
    pub mantissa: nat,
    /// The power of ten that scales the mantissa: the exponent that is
    /// written, less one for each digit behind the decimal point.
    pub scale: int,
}

/// What the number literal that starts at `start` spells. A literal
/// without an exponent has the exponent zero.
pub open spec fn spelling(s: Seq<u8>, start: int) -> Spelling {
    let negative = 0 <= start < s.len() && s[start] == 0x2d;
    let m0 = if negative {
        start + 1
    } else {
        start
    };
    let m1 = mantissa_end(s, m0);
    let run = s.subrange(m0, m1);
    let written = if m1 < s.len() && (s[m1] == 0x65 || s[m1] == 0x45) {
        match lex_exponent(s, m1 + 1) {
            ExponentLex::Exponent { value, end } => value,
            ExponentLex::Fail { kind } => 0,
        }
    } else {
        0
    };
    Spelling {
        negative,
        mantissa: digits_value(digits_in(run)),
        scale: written - scan_mantissa(run).frac,
    }
}

/// Whether two spellings are of one number: both of zero, whatever their
/// signs and scales, or both of the same sign and with mantissas that are
/// the same once the powers of ten are evened out.
pub open spec fn same_number(a: Spelling, b: Spelling) -> bool {
    if a.mantissa == 0 || b.mantissa == 0 {
        a.mantissa == b.mantissa
    } else if a.scale >= b.scale {
        a.negative == b.negative && a.mantissa * pow(10, (a.scale - b.scale) as nat) == b.mantissa
    } else {
        a.negative == b.negative && b.mantissa * pow(10, (b.scale - a.scale) as nat) == a.mantissa
    }
}

/// The number that the lexer makes of a literal is the number that the
/// literal spells: the same sign, and the digits scaled up to the scale of
/// the spelling give its mantissa. Of a literal that spells zero no digits
/// are left.
pub proof fn lemma_lexed_spelling(s: Seq<u8>, start: int)
    requires
        0 <= start <= s.len(),
    ensures
        match lex_number(s, start) {
            NumberLex::Number { digits, exponent, negative, end } => {
                let spelled = spelling(s, start);
                &&& is_canonical(digits, exponent, negative)
                &&& digits.len() == 0 ==> spelled.mantissa == 0
                &&& digits.len() > 0 ==> negative == spelled.negative && exponent >= spelled.scale
                    && digits_value(digits) * pow(10, (exponent - spelled.scale) as nat)
                    == spelled.mantissa
            },
            NumberLex::Fail { .. } => true,
        },
{
    let negative = 0 <= start < s.len() && s[start] == 0x2d;
    let m0 = if negative {
        start + 1
    } else {
        start
    };
    lemma_lex_number_canonical(s, start);
    if !(negative && m0 >= s.len()) {
        lemma_lexed_value(s, m0);
        let run = s.subrange(m0, mantissa_end(s, m0));
        let kept = scan_mantissa(run).kept;
        let cut = trailing_zeros(kept);
        let left = kept.take(kept.len() - cut);
        if left.len() == 0 {
            assert(digits_value(left) == 0);
            assert(digits_value(left) * pow(10, cut) == 0) by (nonlinear_arith)
                requires
                    digits_value(left) == 0,
            ;
        }
    }
}

/// Evens out the powers of ten of two numbers that are the same.
proof fn lemma_even_out(da: nat, ca: int, ea: int, db: nat, cb: int, eb: int)
    requires
        ca >= ea,
        cb >= eb,
        ea >= eb,
        da * pow(10, (ca - ea) as nat) * pow(10, (ea - eb) as nat) == db * pow(
            10,
            (cb - eb) as nat,
        ),
    ensures
        ca >= cb ==> da * pow(10, (ca - cb) as nat) == db,
        ca < cb ==> db * pow(10, (cb - ca) as nat) == da,
{
    let up = pow(10, (ca - eb) as nat);
    let down = pow(10, (cb - eb) as nat);
    lemma_pow_adds(10, (ca - ea) as nat, (ea - eb) as nat);
    assert(da * pow(10, (ca - ea) as nat) * pow(10, (ea - eb) as nat) == da * up)
        by (nonlinear_arith)
        requires
            up == pow(10, (ca - ea) as nat) * pow(10, (ea - eb) as nat),
    ;
    lemma_pow_positive(10, (ca - eb) as nat);
    lemma_pow_positive(10, (cb - eb) as nat);
    if ca >= cb {
        let step = pow(10, (ca - cb) as nat);
        lemma_pow_adds(10, (ca - cb) as nat, (cb - eb) as nat);
        assert(da * step == db) by (nonlinear_arith)
            requires
                da * up == db * down,
                up == step * down,
                down > 0,
        ;
    } else {
        let step = pow(10, (cb - ca) as nat);
        lemma_pow_adds(10, (cb - ca) as nat, (ca - eb) as nat);
        assert(db * step == da) by (nonlinear_arith)
            requires
                da * up == db * down,
                down == step * up,
                up > 0,
        ;
    }
}

/// Two literals of one number lex as the same number: where the lexer
/// accepts both and they spell the same number, it gives the same digits,
/// the same exponent and the same sign for both.
pub proof fn lemma_same_number_same_lex(a: Seq<u8>, i: int, b: Seq<u8>, j: int)
    requires
        0 <= i <= a.len(),
        0 <= j <= b.len(),
        lex_number(a, i) is Number,
        lex_number(b, j) is Number,
        same_number(spelling(a, i), spelling(b, j)),
    ensures
        match (lex_number(a, i), lex_number(b, j)) {
            (
                NumberLex::Number { digits: da, exponent: ea, negative: na, end: _ },
                NumberLex::Number { digits: db, exponent: eb, negative: nb, end: _ },
            ) => da == db && ea == eb && na == nb,
            _ => false,
        },
{
    lemma_lexed_spelling(a, i);
    lemma_lexed_spelling(b, j);
    let x = spelling(a, i);
    let y = spelling(b, j);
    match (lex_number(a, i), lex_number(b, j)) {
        (
            NumberLex::Number { digits: da, exponent: ea, negative: na, end: _ },
            NumberLex::Number { digits: db, exponent: eb, negative: nb, end: _ },
        ) => {
            if da.len() > 0 {
                lemma_digits_value_positive(da);
                lemma_pow_positive(10, (ea - x.scale) as nat);
                assert(x.mantissa > 0) by (nonlinear_arith)
                    requires
                        digits_value(da) * pow(10, (ea - x.scale) as nat) == x.mantissa,
                        digits_value(da) >= 1,
                        pow(10, (ea - x.scale) as nat) > 0,
                ;
            }
            if db.len() > 0 {
                lemma_digits_value_positive(db);
                lemma_pow_positive(10, (eb - y.scale) as nat);
                assert(y.mantissa > 0) by (nonlinear_arith)
                    requires
                        digits_value(db) * pow(10, (eb - y.scale) as nat) == y.mantissa,
                        digits_value(db) >= 1,
                        pow(10, (eb - y.scale) as nat) > 0,
                ;
            }
            if x.mantissa == 0 {
                assert(da =~= db);
            } else {
                let va = digits_value(da);
                let vb = digits_value(db);
                if x.scale >= y.scale {
                    lemma_even_out(va, ea, x.scale, vb, eb, y.scale);
                } else {
                    lemma_even_out(vb, eb, y.scale, va, ea, x.scale);
                }
                lemma_pow0(10);
                if ea >= eb {
                    lemma_canonical_unique(da, ea, db, eb, na);
                } else {
                    lemma_canonical_unique(db, eb, da, ea, na);
                }
            }
        },
        _ => {},
    }
}

/// Two literals of one number read as the same value: where each of two
/// inputs starts with a number literal that is accepted, and the two
/// literals spell the same number, the values read from the two inputs are
/// equal.
pub proof fn lemma_same_number_same_value(a: Seq<u8>, b: Seq<u8>)
    requires
        a.len() > 0 && starts_number(a[0]),
        b.len() > 0 && starts_number(b[0]),
        lex_value(a, 0) is Done,
        lex_value(b, 0) is Done,
        same_number(spelling(a, 0), spelling(b, 0)),
    ensures
        match (lex_value(a, 0), lex_value(b, 0)) {
            (Lex::Done { value: x, end: _ }, Lex::Done { value: y, end: _ }) => x == y
                && x is Number,
            _ => false,
        },
{
    lemma_same_number_same_lex(a, 0, b, 0);
}


} // verus!
