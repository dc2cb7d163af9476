//! Escaping text and bytes so that they can stand between the quotes of a
//! JSON string.

use vstd::prelude::*;
use vstd::utf8::{encode_scalar, encode_utf8, valid_utf8};
use std::borrow::Cow;
use crate::trusted::string_from_utf8;

verus! {

/// Whether a byte cannot stand as it is inside a JSON string: the quote, the
/// backslash, and the control bytes below the space.
pub open spec fn needs_escape(c: u8) -> bool {
    c == 0x22 || c == 0x5c || c < 0x20
}

/// The upper-case hexadecimal digit for a number below sixteen.
pub open spec fn hex_digit(n: u8) -> u8 {
    if n < 10 {
        (0x30 + n) as u8
    } else {
        (0x41 + n - 10) as u8
    }
}

/// What one byte becomes: `"` and `\` get a backslash in front, tab, carriage
/// return, line feed, backspace and form feed become `\t`, `\r`, `\n`, `\b`
/// and `\f`, any other control byte becomes `\u00XX`, and every other byte
/// stays as it is.
pub open spec fn escape_byte(c: u8) -> Seq<u8> {
    if c == 0x22 || c == 0x5c {
        seq![0x5c, c]
    } else if c == 0x09 {
        seq![0x5c, 0x74]
    } else if c == 0x0d {
        seq![0x5c, 0x72]
    } else if c == 0x0a {
        seq![0x5c, 0x6e]
    } else if c == 0x08 {
        seq![0x5c, 0x62]
    } else if c == 0x0c {
        seq![0x5c, 0x66]
    } else if c < 0x20 {
        seq![0x5c, 0x75, 0x30, 0x30, hex_digit(c / 16), hex_digit(c % 16)]
    } else {
        seq![c]
    }
}

/// The escaped form of a sequence of bytes: the escaped forms of its bytes,
/// one after the other.
pub open spec fn escape_seq(s: Seq<u8>) -> Seq<u8>
    decreases s.len(),
{
    if s.len() == 0 {
        Seq::empty()
    } else {
        escape_seq(s.drop_last()) + escape_byte(s.last())
    }
}

/// Whether no byte of `s` needs escaping.
pub open spec fn is_plain(s: Seq<u8>) -> bool {
    forall|i: int| 0 <= i < s.len() ==> !needs_escape(#[trigger] s[i])
}

/// Bytes that need no escaping are their own escaped form.
pub proof fn lemma_escape_plain(s: Seq<u8>)
    requires
        is_plain(s),
    ensures
        escape_seq(s) == s,
    decreases s.len(),
{
    if s.len() > 0 {
        lemma_escape_plain(s.drop_last());
        assert(!needs_escape(s.last()));
        assert(s.drop_last() + seq![s.last()] =~= s);
    } else {
        assert(escape_seq(s) =~= s);
    }
}

fn byte_needs_escape(c: u8) -> (r: bool)
    ensures
        r == needs_escape(c),
{
    c == 0x22 || c == 0x5c || c < 0x20
}

fn hex_digit_of(n: u8) -> (r: u8)
    requires
        n < 16,
    ensures
        r == hex_digit(n),
{
    if n < 10 {
        0x30 + n
    } else {
        0x41 + (n - 10)
    }
}

/// The index of the first byte that needs escaping, if there is one.
fn first_to_escape(bytes: &[u8]) -> (r: Option<usize>)
    ensures
        match r {
            Some(pos) => pos < bytes.len() && needs_escape(bytes@[pos as int]) && is_plain(
                bytes@.take(pos as int),
            ),
            None => is_plain(bytes@),
        },
{
    let mut i: usize = 0;
    while i < bytes.len()
        invariant
            i <= bytes.len(),
            is_plain(bytes@.take(i as int)),
        decreases bytes.len() - i,
    {
        if byte_needs_escape(bytes[i]) {
            return Some(i);
        }
        proof {
            assert forall|j: int| 0 <= j < i + 1 implies !needs_escape(
                #[trigger] bytes@.take(i + 1)[j],
            ) by {
                if j < i {
                    assert(bytes@.take(i as int)[j] == bytes@[j]);
                }
            }
        }
        i += 1;
    }
    proof {
        assert(bytes@.take(bytes.len() as int) =~= bytes@);
    }
    None
}

/// Escapes `bytes`, of which the part in front of `pos` is known to need no
/// escaping.
fn do_escape_bytes(bytes: &[u8], pos: usize) -> (buffer: Vec<u8>)
    requires
        pos <= bytes.len(),
        is_plain(bytes@.take(pos as int)),
    ensures
        buffer@ == escape_seq(bytes@),
{
    let mut buffer: Vec<u8> = Vec::new();
    let mut i: usize = 0;
    proof {
        assert(bytes@.take(0) =~= Seq::<u8>::empty());
    }
    while i < bytes.len()
        invariant
            i <= bytes.len(),
            pos <= bytes.len(),
            is_plain(bytes@.take(pos as int)),
            buffer@ == escape_seq(bytes@.take(i as int)),
        decreases bytes.len() - i,
    {
        let c = bytes[i];
        let ghost before = buffer@;
        proof {
            assert(bytes@.take(i + 1).drop_last() =~= bytes@.take(i as int));
            assert(bytes@.take(i + 1).last() == c);
            if i < pos {
                assert(bytes@.take(pos as int)[i as int] == c);
            }
        }
        if i < pos || c >= 0x20 && c != 0x22 && c != 0x5c {
            buffer.push(c);
            proof {
                assert(buffer@ =~= before + seq![c]);
            }
        } else if c >= 0x20 {
            buffer.push(0x5c);
            buffer.push(c);
            proof {
                assert(buffer@ =~= before + seq![0x5cu8, c]);
            }
        } else {
            buffer.push(0x5c);
            let second: u8 = if c == 0x09 {
                0x74
            } else if c == 0x0d {
                0x72
            } else if c == 0x0a {
                0x6e
            } else if c == 0x08 {
                0x62
            } else if c == 0x0c {
                0x66
            } else {
                0x75
            };
            buffer.push(second);
            if second == 0x75 {
                buffer.push(0x30);
                buffer.push(0x30);
                buffer.push(hex_digit_of(c / 16));
                buffer.push(hex_digit_of(c % 16));
                proof {
                    assert(buffer@ =~= before + seq![
                        0x5cu8,
                        0x75u8,
                        0x30u8,
                        0x30u8,
                        hex_digit(c / 16),
                        hex_digit(c % 16),
                    ]);
                }
            } else {
                proof {
                    assert(buffer@ =~= before + seq![0x5cu8, second]);
                }
            }
        }
        i += 1;
    }
    proof {
        assert(bytes@.take(bytes.len() as int) =~= bytes@);
    }
    buffer
}

/// Escapes bytes for a JSON string. Bytes from `0x80` on pass as they are,
/// so that any bytes at all can be carried in a string. Where nothing needs
/// escaping the input itself comes back, and nothing is allocated.
pub fn escape_bytes(bytes: &[u8]) -> (r: Cow<'_, [u8]>)
    ensures
        r@ == escape_seq(bytes@),
        r is Borrowed <==> is_plain(bytes@),
{
    match first_to_escape(bytes) {
        Some(pos) => {
            proof {
                assert(needs_escape(bytes@[pos as int]));
            }
            Cow::Owned(do_escape_bytes(bytes, pos))
        },
        None => {
            proof {
                lemma_escape_plain(bytes@);
            }
            Cow::Borrowed(bytes)
        },
    }
}

/// Escaping two sequences one after the other is escaping them as one.
pub proof fn lemma_escape_concat(a: Seq<u8>, b: Seq<u8>)
    ensures
        escape_seq(a + b) == escape_seq(a) + escape_seq(b),
    decreases b.len(),
{
    if b.len() == 0 {
        assert(a + b =~= a);
        assert(escape_seq(a) + escape_seq(b) =~= escape_seq(a));
    } else {
        lemma_escape_concat(a, b.drop_last());
        assert((a + b).drop_last() =~= a + b.drop_last());
        assert(escape_seq(a) + escape_seq(b.drop_last()) + escape_byte(b.last()) =~= escape_seq(a)
            + (escape_seq(b.drop_last()) + escape_byte(b.last())));
    }
}

/// Bytes below `0x80` are UTF-8, whatever they are.
pub proof fn lemma_ascii_is_utf8(bytes: Seq<u8>)
    requires
        forall|i: int| 0 <= i < bytes.len() ==> #[trigger] bytes[i] < 0x80,
    ensures
        valid_utf8(bytes),
{
    assert(bytes.subrange(0, 0) =~= Seq::<u8>::empty());
    vstd::utf8::partial_valid_utf8_extend_ascii_block(bytes, 0, bytes.len() as int);
    assert(bytes.subrange(0, bytes.len() as int) =~= bytes);
}

/// The escaped form of a byte below `0x80` has only such bytes.
proof fn lemma_escape_byte_ascii(c: u8)
    requires
        c < 0x80,
    ensures
        forall|i: int| 0 <= i < escape_byte(c).len() ==> #[trigger] escape_byte(c)[i] < 0x80,
{
}

/// Every byte of the encoding of a code point from `0x80` on is itself
/// `0x80` or more.
proof fn lemma_encode_scalar_high(u: u32)
    requires
        u >= 0x80,
    ensures
        is_plain(encode_scalar(u)),
{
    assert(0xC0u8 | ((u >> 6) & 0x1F) as u8 >= 0x80) by (bit_vector);
    assert(0xE0u8 | ((u >> 12) & 0x0F) as u8 >= 0x80) by (bit_vector);
    assert(0xF0u8 | ((u >> 18) & 0x07) as u8 >= 0x80) by (bit_vector);
    assert(0x80u8 | (u & 0x3F) as u8 >= 0x80) by (bit_vector);
    assert(0x80u8 | ((u >> 6) & 0x3F) as u8 >= 0x80) by (bit_vector);
    assert(0x80u8 | ((u >> 12) & 0x3F) as u8 >= 0x80) by (bit_vector);
}

/// The escaped form of text is text: escaping the UTF-8 encoding of any
/// characters gives UTF-8.
pub proof fn lemma_escape_keeps_utf8(chars: Seq<char>)
    ensures
        valid_utf8(escape_seq(encode_utf8(chars))),
    decreases chars.len(),
{
    if chars.len() == 0 {
        assert(escape_seq(encode_utf8(chars)) =~= Seq::<u8>::empty());
    } else {
        let c = chars[0] as u32;
        let head = encode_scalar(c);
        let rest = encode_utf8(chars.drop_first());
        lemma_escape_keeps_utf8(chars.drop_first());
        lemma_escape_concat(head, rest);
        assert(valid_utf8(escape_seq(head))) by {
            if c < 0x80 {
                let b = (c & 0x7F) as u8;
                assert(b < 0x80) by (bit_vector)
                    requires
                        b == (c & 0x7F) as u8,
                ;
                assert(head =~= seq![b]);
                assert(head.drop_last() =~= Seq::<u8>::empty());
                assert(head.last() == b);
                assert(escape_seq(head.drop_last()) =~= Seq::<u8>::empty());
                assert(escape_seq(head) =~= escape_byte(b));
                lemma_escape_byte_ascii(b);
                lemma_ascii_is_utf8(escape_byte(b));
            } else {
                lemma_encode_scalar_high(c);
                lemma_escape_plain(head);
                let one = seq![chars[0]];
                assert(one.drop_first() =~= Seq::<char>::empty());
                assert(encode_utf8(one.drop_first()) =~= Seq::<u8>::empty());
                assert(one[0] == chars[0]);
                assert(encode_utf8(one) =~= head);
                vstd::utf8::encode_utf8_valid_utf8(one);
            }
        }
        vstd::utf8::valid_utf8_concat(escape_seq(head), escape_seq(rest));
    }
}

/// Escapes text for a JSON string: a backslash goes in front of `"` and
/// `\`, the control characters become `\t`, `\r`, `\n`, `\b`, `\f` or
/// `\u00XX`, and everything else stays. Where nothing needs escaping the
/// input itself comes back, and nothing is allocated.
pub fn escape(s: &str) -> (r: Cow<'_, str>)
    ensures
        encode_utf8(r@) == escape_seq(encode_utf8(s@)),
        r is Borrowed <==> is_plain(encode_utf8(s@)),
{
    let bytes = s.as_bytes();
    match first_to_escape(bytes) {
        Some(pos) => {
            let escaped = do_escape_bytes(bytes, pos);
            proof {
                lemma_escape_keeps_utf8(s@);
                assert(needs_escape(bytes@[pos as int]));
            }
            match string_from_utf8(escaped) {
                Some(text) => Cow::Owned(text),
                None => {
                    proof {
                        assert(false);
                    }
                    Cow::Borrowed(s)
                },
            }
        },
        None => {
            proof {
                lemma_escape_plain(bytes@);
            }
            Cow::Borrowed(s)
        },
    }
}

} // verus!
