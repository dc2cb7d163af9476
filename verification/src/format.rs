//! The canonical text of a number: the shortest of the plain and the
//! scientific spelling that the width allows.

use vstd::prelude::*;
use crate::ascii::{int_text, zeros};
use crate::number::READER_BUFFER_SIZE;
use crate::trusted::i32_text;

verus! {

/// Up to this many digits a number with zeros behind it, or with zeros
/// between the point and its digits, is written out in full.
pub const FORMAT_NUM_WIDTH: usize = 10;

/// The text of a number that is not zero, without its sign.
///
/// - With an exponent of zero or more, the digits and then as many zeros as
///   the exponent says, if the digits and the zeros together are no more
///   than `FORMAT_NUM_WIDTH`.
/// - With an exponent below zero, of magnitude `e`: where `e` is less than
///   the number of digits, the digits with a point in front of the last `e`
///   of them; else, where `e` is no more than `FORMAT_NUM_WIDTH`, `0.`, then
///   zeros, then the digits, `e` places behind the point in all.
/// - In every other case the digits, `e`, and the exponent in decimal.
pub open spec fn magnitude_text(digits: Seq<u8>, exponent: int) -> Seq<u8> {
    let n = digits.len() as int;
    if exponent >= 0 && n + exponent <= FORMAT_NUM_WIDTH {
        digits + zeros(exponent as nat)
    } else if exponent < 0 && -exponent < n {
        digits.take(n + exponent) + seq![0x2eu8] + digits.skip(n + exponent)
    } else if exponent < 0 && -exponent <= FORMAT_NUM_WIDTH {
        seq![0x30u8, 0x2eu8] + zeros((-exponent - n) as nat) + digits
    } else {
        digits + seq![0x65u8] + int_text(exponent)
    }
}

/// The sign in front of a number: `-` or nothing.
pub open spec fn sign_text(negative: bool) -> Seq<u8> {
    if negative {
        seq![0x2du8]
    } else {
        Seq::empty()
    }
}

/// The text of the number `digits * 10^exponent`, negated if `negative`.
/// No digits at all spell zero, which is `0` whatever the exponent and the
/// sign.
pub open spec fn number_text(digits: Seq<u8>, exponent: int, negative: bool) -> Seq<u8> {
    if digits.len() == 0 {
        seq![0x30u8]
    } else {
        sign_text(negative) + magnitude_text(digits, exponent)
    }
}

fn put_byte(out: &mut [u8; READER_BUFFER_SIZE], n: usize, b: u8) -> (m: usize)
    requires
        n < READER_BUFFER_SIZE,
    ensures
        m == n + 1,
        final(out)@.take(m as int) == old(out)@.take(n as int).push(b),
{
    out[n] = b;
    proof {
        assert(out@.take(n + 1) =~= old(out)@.take(n as int).push(b));
    }
    n + 1
}

fn put_slice(out: &mut [u8; READER_BUFFER_SIZE], n: usize, src: &[u8], from: usize, to: usize) -> (m:
    usize)
    requires
        from <= to <= src.len(),
        n + (to - from) <= READER_BUFFER_SIZE,
    ensures
        m == n + (to - from),
        final(out)@.take(m as int) == old(out)@.take(n as int) + src@.subrange(
            from as int,
            to as int,
        ),
{
    let mut k: usize = from;
    let mut m: usize = n;
    proof {
        assert(old(out)@.take(n as int) + src@.subrange(from as int, from as int) =~= old(
            out,
        )@.take(n as int));
    }
    while k < to
        invariant
            from <= k <= to <= src.len(),
            m == n + (k - from),
            n + (to - from) <= READER_BUFFER_SIZE,
            out@.take(m as int) == old(out)@.take(n as int) + src@.subrange(from as int, k as int),
        decreases to - k,
    {
        let ghost before = out@.take(m as int);
        m = put_byte(out, m, src[k]);
        proof {
            assert(src@.subrange(from as int, k + 1) =~= src@.subrange(from as int, k as int).push(
                src@[k as int],
            ));
            assert(out@.take(m as int) =~= old(out)@.take(n as int) + src@.subrange(
                from as int,
                k + 1,
            ));
        }
        k += 1;
    }
    m
}

fn put_zeros(out: &mut [u8; READER_BUFFER_SIZE], n: usize, count: usize) -> (m: usize)
    requires
        n + count <= READER_BUFFER_SIZE,
    ensures
        m == n + count,
        final(out)@.take(m as int) == old(out)@.take(n as int) + zeros(count as nat),
{
    let mut k: usize = 0;
    let mut m: usize = n;
    proof {
        assert(old(out)@.take(n as int) + zeros(0) =~= old(out)@.take(n as int));
    }
    while k < count
        invariant
            k <= count,
            m == n + k,
            n + count <= READER_BUFFER_SIZE,
            out@.take(m as int) == old(out)@.take(n as int) + zeros(k as nat),
        decreases count - k,
    {
        m = put_byte(out, m, 0x30);
        proof {
            assert(zeros((k + 1) as nat) =~= zeros(k as nat).push(0x30u8));
            assert(out@.take(m as int) =~= old(out)@.take(n as int) + zeros((k + 1) as nat));
        }
        k += 1;
    }
    m
}

fn put_sign(out: &mut [u8; READER_BUFFER_SIZE], negative: bool) -> (m: usize)
    ensures
        m == sign_text(negative).len(),
        m <= 1,
        final(out)@.take(m as int) == sign_text(negative),
{
    if negative {
        let m = put_byte(out, 0, 0x2d);
        proof {
            assert(out@.take(1) =~= seq![0x2du8]);
        }
        m
    } else {
        proof {
            assert(out@.take(0) =~= Seq::<u8>::empty());
        }
        0
    }
}

/// Writes the digits and `pad` zeros behind them.
fn write_plain(
    out: &mut [u8; READER_BUFFER_SIZE],
    digits: &[u8; READER_BUFFER_SIZE],
    len: usize,
    pad: usize,
    negative: bool,
) -> (m: usize)
    requires
        sign_text(negative).len() + len + pad <= READER_BUFFER_SIZE,
    ensures
        final(out)@.take(m as int) == sign_text(negative) + (digits@.take(len as int) + zeros(
            pad as nat,
        )),
        m == sign_text(negative).len() + len + pad,
{
    let m = put_sign(out, negative);
    let m = put_slice(out, m, digits.as_slice(), 0, len);
    let m = put_zeros(out, m, pad);
    proof {
        assert(digits@.subrange(0, len as int) =~= digits@.take(len as int));
        assert(out@.take(m as int) =~= sign_text(negative) + (digits@.take(len as int) + zeros(
            pad as nat,
        )));
    }
    m
}

/// Writes the digits with a point in front of the digit at `split`.
fn write_fraction(
    out: &mut [u8; READER_BUFFER_SIZE],
    digits: &[u8; READER_BUFFER_SIZE],
    len: usize,
    split: usize,
    negative: bool,
) -> (m: usize)
    requires
        split <= len,
        sign_text(negative).len() + len + 1 <= READER_BUFFER_SIZE,
    ensures
        final(out)@.take(m as int) == sign_text(negative) + (digits@.take(len as int).take(
            split as int,
        ) + seq![0x2eu8] + digits@.take(len as int).skip(split as int)),
        m == sign_text(negative).len() + len + 1,
{
    let m = put_sign(out, negative);
    let m = put_slice(out, m, digits.as_slice(), 0, split);
    let m = put_byte(out, m, 0x2e);
    let m = put_slice(out, m, digits.as_slice(), split, len);
    proof {
        let d = digits@.take(len as int);
        assert(digits@.subrange(0, split as int) =~= d.take(split as int));
        assert(digits@.subrange(split as int, len as int) =~= d.skip(split as int));
        assert(out@.take(m as int) =~= sign_text(negative) + (d.take(split as int) + seq![0x2eu8]
            + d.skip(split as int)));
    }
    m
}

/// Writes `0.`, `pad` zeros and the digits.
fn write_small(
    out: &mut [u8; READER_BUFFER_SIZE],
    digits: &[u8; READER_BUFFER_SIZE],
    len: usize,
    pad: usize,
    negative: bool,
) -> (m: usize)
    requires
        sign_text(negative).len() + len + pad + 2 <= READER_BUFFER_SIZE,
    ensures
        final(out)@.take(m as int) == sign_text(negative) + (seq![0x30u8, 0x2eu8] + zeros(
            pad as nat,
        ) + digits@.take(len as int)),
        m == sign_text(negative).len() + 2 + pad + len,
{
    let m = put_sign(out, negative);
    let m = put_byte(out, m, 0x30);
    let m = put_byte(out, m, 0x2e);
    let m = put_zeros(out, m, pad);
    let m = put_slice(out, m, digits.as_slice(), 0, len);
    proof {
        assert(digits@.subrange(0, len as int) =~= digits@.take(len as int));
        assert(out@.take(m as int) =~= sign_text(negative) + (seq![0x30u8, 0x2eu8] + zeros(
            pad as nat,
        ) + digits@.take(len as int)));
    }
    m
}

/// Writes the digits, `e` and the text of the exponent.
fn write_scientific(
    out: &mut [u8; READER_BUFFER_SIZE],
    digits: &[u8; READER_BUFFER_SIZE],
    len: usize,
    power: &[u8],
    negative: bool,
) -> (m: usize)
    requires
        sign_text(negative).len() + len + power.len() + 1 <= READER_BUFFER_SIZE,
    ensures
        final(out)@.take(m as int) == sign_text(negative) + (digits@.take(len as int) + seq![
            0x65u8,
        ] + power@),
        m == sign_text(negative).len() + len + 1 + power.len(),
{
    let m = put_sign(out, negative);
    let m = put_slice(out, m, digits.as_slice(), 0, len);
    let m = put_byte(out, m, 0x65);
    let m = put_slice(out, m, power, 0, power.len());
    proof {
        assert(digits@.subrange(0, len as int) =~= digits@.take(len as int));
        assert(power@.subrange(0, power@.len() as int) =~= power@);
        assert(out@.take(m as int) =~= sign_text(negative) + (digits@.take(len as int) + seq![
            0x65u8,
        ] + power@));
    }
    m
}

/// Writes the canonical text of a number over its digits. The first `len`
/// bytes of `buffer` are the digits; afterwards the first bytes of `buffer`
/// are the text, and the result is its length. A text that is longer than
/// the buffer is not written: the number is then too big, and `buffer` is
/// left as it was.
pub fn number_to_string(
    buffer: &mut [u8; READER_BUFFER_SIZE],
    len: usize,
    exponent: i32,
    is_negative: bool,
) -> (r: Result<usize, ()>)
    requires
        len <= READER_BUFFER_SIZE,
    ensures
        ({
            let text = number_text(old(buffer)@.take(len as int), exponent as int, is_negative);
            if text.len() <= READER_BUFFER_SIZE {
                r == Ok::<usize, ()>(text.len() as usize) && final(buffer)@.take(text.len() as int)
                    == text
            } else {
                r == Err::<usize, ()>(()) && *final(buffer) == *old(buffer)
            }
        }),
{
    if len == 0 {
        let m = put_byte(buffer, 0, 0x30);
        proof {
            assert(buffer@.take(1) =~= seq![0x30u8]);
        }
        return Ok(m);
    }
    let digits: [u8; READER_BUFFER_SIZE] = *buffer;
    let sign: usize = if is_negative {
        1
    } else {
        0
    };
    let e: i64 = exponent as i64;
    if e >= 0 && len as i64 + e <= FORMAT_NUM_WIDTH as i64 {
        Ok(write_plain(buffer, &digits, len, e as usize, is_negative))
    } else if e < 0 && -e < len as i64 {
        if sign + len + 1 > READER_BUFFER_SIZE {
            return Err(());
        }
        Ok(write_fraction(buffer, &digits, len, (len as i64 + e) as usize, is_negative))
    } else if e < 0 && -e <= FORMAT_NUM_WIDTH as i64 {
        Ok(write_small(buffer, &digits, len, (-e - len as i64) as usize, is_negative))
    } else {
        let power = i32_text(exponent);
        if power.len() > READER_BUFFER_SIZE || sign + len + 1 + power.len() > READER_BUFFER_SIZE {
            return Err(());
        }
        Ok(write_scientific(buffer, &digits, len, power.as_slice(), is_negative))
    }
}

/// Appends `count` zeros.
fn push_zeros(out: &mut Vec<u8>, count: usize)
    ensures
        final(out)@ == old(out)@ + zeros(count as nat),
{
    let mut k: usize = 0;
    proof {
        assert(out@ + zeros(0) =~= out@);
    }
    while k < count
        invariant
            k <= count,
            out@ == old(out)@ + zeros(k as nat),
        decreases count - k,
    {
        out.push(0x30);
        proof {
            assert(zeros((k + 1) as nat) =~= zeros(k as nat).push(0x30u8));
            assert(out@ =~= old(out)@ + zeros((k + 1) as nat));
        }
        k += 1;
    }
}

/// Appends the canonical text of a number, whatever its length.
pub fn push_number_text(out: &mut Vec<u8>, digits: &[u8], exponent: i32, negative: bool)
    ensures
        final(out)@ == old(out)@ + number_text(digits@, exponent as int, negative),
{
    let len = digits.len();
    if len == 0 {
        out.push(0x30);
        proof {
            assert(out@ =~= old(out)@ + seq![0x30u8]);
        }
        return ;
    }
    let ghost d = digits@;
    if negative {
        out.push(0x2d);
    }
    let ghost front = out@;
    proof {
        assert(front =~= old(out)@ + sign_text(negative));
    }
    let e: i64 = exponent as i64;
    if e >= 0 && len <= FORMAT_NUM_WIDTH && len as i64 + e <= FORMAT_NUM_WIDTH as i64 {
        out.extend_from_slice(digits);
        push_zeros(out, e as usize);
        proof {
            assert(out@ =~= old(out)@ + (sign_text(negative) + (d + zeros(e as nat))));
        }
    } else if e < 0 && (-e as u64 as u128) < len as u128 {
        let split: usize = len - (-e) as usize;
        out.extend_from_slice(vstd::slice::slice_subrange(digits, 0, split));
        out.push(0x2e);
        out.extend_from_slice(vstd::slice::slice_subrange(digits, split, len));
        proof {
            assert(d.subrange(0, split as int) =~= d.take(len + e));
            assert(d.subrange(split as int, len as int) =~= d.skip(len + e));
            assert(out@ =~= old(out)@ + (sign_text(negative) + (d.take(len + e) + seq![0x2eu8]
                + d.skip(len + e))));
        }
    } else if e < 0 && -e <= FORMAT_NUM_WIDTH as i64 {
        out.push(0x30);
        out.push(0x2e);
        let pad: usize = (-e) as usize - len;
        push_zeros(out, pad);
        out.extend_from_slice(digits);
        proof {
            assert(out@ =~= old(out)@ + (sign_text(negative) + (seq![0x30u8, 0x2eu8] + zeros(
                pad as nat,
            ) + d)));
        }
    } else {
        out.extend_from_slice(digits);
        out.push(0x65);
        let power = i32_text(exponent);
        out.extend_from_slice(power.as_slice());
        proof {
            assert(out@ =~= old(out)@ + (sign_text(negative) + (d + seq![0x65u8] + int_text(
                exponent as int,
            ))));
        }
    }
}

} // verus!
