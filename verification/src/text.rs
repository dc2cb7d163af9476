//! String literals: decoding what stands between the quotes.
//!
//! The same decoding serves text and blobs. Bytes from `0x80` on pass as
//! they are; whether the result is UTF-8 is for the caller to ask.

use vstd::prelude::*;
use vstd::utf8::encode_scalar;
use crate::ascii::is_digit;
use crate::error::ErrorKind;
use crate::number::READER_BUFFER_SIZE;
use crate::token::Lex;

verus! {

/// The number that a hexadecimal digit stands for, in either case, and `-1`
/// for any other byte.
pub open spec fn hex_value(c: u8) -> int {
    if is_digit(c) {
        c - 0x30
    } else if 0x61 <= c <= 0x66 {
        c - 0x61 + 10
    } else if 0x41 <= c <= 0x46 {
        c - 0x41 + 10
    } else {
        -1
    }
}

/// Whether the four bytes at `i` are hexadecimal digits.
pub open spec fn is_hex4(s: Seq<u8>, i: int) -> bool {
    &&& 0 <= i
    &&& i + 4 <= s.len()
    &&& hex_value(s[i]) >= 0
    &&& hex_value(s[i + 1]) >= 0
    &&& hex_value(s[i + 2]) >= 0
    &&& hex_value(s[i + 3]) >= 0
}

/// The number that the four hexadecimal digits at `i` spell.
pub open spec fn hex4_value(s: Seq<u8>, i: int) -> int {
    hex_value(s[i]) * 4096 + hex_value(s[i + 1]) * 256 + hex_value(s[i + 2]) * 16 + hex_value(
        s[i + 3],
    )
}

/// The code point that a high and a low surrogate stand for together.
pub open spec fn surrogate_pair(high: int, low: int) -> int {
    0x10000 + (high - 0xd800) * 0x400 + (low - 0xdc00)
}

/// Decodes what follows `\u`, from index `i` on: four hexadecimal digits
/// that give a UTF-16 code unit. A unit outside the surrogates is encoded as
/// UTF-8. A high surrogate must be followed at once by `\u` and a low
/// surrogate, and the two are encoded as one code point of four bytes. A
/// low surrogate on its own is rejected.
#[verifier::opaque]
pub open spec fn lex_unicode(s: Seq<u8>, i: int) -> Lex<Seq<u8>> {
    if i + 4 > s.len() {
        Lex::Fail { kind: ErrorKind::UnexpectedEndOfInput }
    } else if !is_hex4(s, i) {
        Lex::Fail { kind: ErrorKind::InvalidEscapeSequence }
    } else {
        let unit = hex4_value(s, i);
        if unit < 0xd800 || unit >= 0xe000 {
            Lex::Done { value: encode_scalar(unit as u32), end: i + 4 }
        } else if unit >= 0xdc00 {
            Lex::Fail { kind: ErrorKind::InvalidEscapeSequence }
        } else if i + 4 >= s.len() {
            Lex::Fail { kind: ErrorKind::UnexpectedEndOfInput }
        } else if s[i + 4] != 0x5c {
            Lex::Fail { kind: ErrorKind::InvalidSurrogatePair }
        } else if i + 5 >= s.len() {
            Lex::Fail { kind: ErrorKind::UnexpectedEndOfInput }
        } else if s[i + 5] != 0x75 {
            Lex::Fail { kind: ErrorKind::InvalidSurrogatePair }
        } else if i + 10 > s.len() {
            Lex::Fail { kind: ErrorKind::UnexpectedEndOfInput }
        } else if !is_hex4(s, i + 6) {
            Lex::Fail { kind: ErrorKind::InvalidEscapeSequence }
        } else {
            let low = hex4_value(s, i + 6);
            if 0xdc00 <= low < 0xe000 {
                Lex::Done { value: encode_scalar(surrogate_pair(unit, low) as u32), end: i + 10 }
            } else {
                Lex::Fail { kind: ErrorKind::InvalidSurrogatePair }
            }
        }
    }
}

/// Decodes what follows a backslash, from index `i` on. `r`, `n`, `t`, `b`
/// and `f` give their control bytes, `u` starts a code unit, and any other
/// byte stands for itself.
pub open spec fn lex_escape(s: Seq<u8>, i: int) -> Lex<Seq<u8>> {
    if i >= s.len() {
        Lex::Fail { kind: ErrorKind::UnexpectedEndOfInput }
    } else if s[i] == 0x72 {
        Lex::Done { value: seq![0x0du8], end: i + 1 }
    } else if s[i] == 0x6e {
        Lex::Done { value: seq![0x0au8], end: i + 1 }
    } else if s[i] == 0x74 {
        Lex::Done { value: seq![0x09u8], end: i + 1 }
    } else if s[i] == 0x62 {
        Lex::Done { value: seq![0x08u8], end: i + 1 }
    } else if s[i] == 0x66 {
        Lex::Done { value: seq![0x0cu8], end: i + 1 }
    } else if s[i] == 0x75 {
        lex_unicode(s, i + 1)
    } else {
        Lex::Done { value: seq![s[i]], end: i + 1 }
    }
}

/// Decodes a string literal from index `i`, which lies behind its opening
/// quote, up to its closing quote. `acc` is what was decoded before `i`.
pub open spec fn lex_string(s: Seq<u8>, i: int, acc: Seq<u8>) -> Lex<Seq<u8>>
    decreases s.len() - i,
{
    if i < 0 || i >= s.len() {
        Lex::Fail { kind: ErrorKind::UnexpectedEndOfInput }
    } else if s[i] == 0x22 {
        Lex::Done { value: acc, end: i + 1 }
    } else if s[i] == 0x5c {
        match lex_escape(s, i + 1) {
            Lex::Fail { kind } => Lex::Fail { kind },
            Lex::Done { value, end } => if i < end <= s.len() {
                lex_string(s, end, acc + value)
            } else {
                Lex::Fail { kind: ErrorKind::InvalidEscapeSequence }
            },
        }
    } else {
        lex_string(s, i + 1, acc.push(s[i]))
    }
}

/// Finds the end of a string literal from index `i`, which lies behind its
/// opening quote, without decoding it: a backslash takes the byte behind it
/// along, whatever it is.
pub open spec fn lex_string_end(s: Seq<u8>, i: int) -> Lex<()>
    decreases s.len() - i,
{
    if i < 0 || i >= s.len() {
        Lex::Fail { kind: ErrorKind::UnexpectedEndOfInput }
    } else if s[i] == 0x22 {
        Lex::Done { value: (), end: i + 1 }
    } else if s[i] == 0x5c {
        if i + 1 >= s.len() {
            Lex::Fail { kind: ErrorKind::UnexpectedEndOfInput }
        } else {
            lex_string_end(s, i + 2)
        }
    } else {
        lex_string_end(s, i + 1)
    }
}

/// The UTF-8 encoding of a code point has from one to four bytes.
pub proof fn lemma_encode_scalar_len(u: u32)
    ensures
        1 <= encode_scalar(u).len() <= 4,
{
}

/// A code unit escape takes at least four bytes, gives at least one and at
/// most four, and ends inside the input.
pub proof fn lemma_lex_unicode_bounds(s: Seq<u8>, i: int)
    requires
        0 <= i <= s.len(),
    ensures
        match lex_unicode(s, i) {
            Lex::Done { value, end } => i + 4 <= end <= s.len() && 1 <= value.len() <= 4,
            Lex::Fail { .. } => true,
        },
{
    reveal(lex_unicode);
    if i + 4 <= s.len() && is_hex4(s, i) {
        let unit = hex4_value(s, i);
        lemma_encode_scalar_len(unit as u32);
        if i + 10 <= s.len() {
            lemma_encode_scalar_len(surrogate_pair(unit, hex4_value(s, i + 6)) as u32);
        }
    }
}

/// An escape takes at least one byte, gives at least one and at most four,
/// and ends inside the input.
pub proof fn lemma_lex_escape_bounds(s: Seq<u8>, i: int)
    requires
        0 <= i <= s.len(),
    ensures
        match lex_escape(s, i) {
            Lex::Done { value, end } => i < end <= s.len() && 1 <= value.len() <= 4,
            Lex::Fail { .. } => true,
        },
{
    if i < s.len() && s[i] == 0x75 {
        lemma_lex_unicode_bounds(s, i + 1);
    }
}

/// What was decoded before `i` stands in front of what is decoded from `i`
/// on, whatever it is.
pub proof fn lemma_lex_string_acc(s: Seq<u8>, i: int, acc: Seq<u8>)
    requires
        0 <= i <= s.len(),
    ensures
        match lex_string(s, i, Seq::empty()) {
            Lex::Done { value, end } => lex_string(s, i, acc) == (Lex::Done {
                value: acc + value,
                end,
            }) && i < end <= s.len(),
            Lex::Fail { kind } => lex_string(s, i, acc) == (Lex::<Seq<u8>>::Fail { kind }),
        },
    decreases s.len() - i,
{
    let empty = Seq::<u8>::empty();
    if i >= s.len() {
    } else if s[i] == 0x22 {
        assert(acc + empty =~= acc);
    } else if s[i] == 0x5c {
        lemma_lex_escape_bounds(s, i + 1);
        match lex_escape(s, i + 1) {
            Lex::Fail { kind } => {},
            Lex::Done { value, end } => {
                lemma_lex_string_acc(s, end, acc + value);
                lemma_lex_string_acc(s, end, empty + value);
                match lex_string(s, end, empty) {
                    Lex::Done { value: rest, end: e } => {
                        assert(acc + (empty + value + rest) =~= acc + value + rest);
                    },
                    Lex::Fail { kind } => {},
                }
            },
        }
    } else {
        lemma_lex_string_acc(s, i + 1, acc.push(s[i]));
        lemma_lex_string_acc(s, i + 1, empty.push(s[i]));
        match lex_string(s, i + 1, empty) {
            Lex::Done { value: rest, end: e } => {
                assert(acc + (empty.push(s[i]) + rest) =~= acc.push(s[i]) + rest);
            },
            Lex::Fail { kind } => {},
        }
    }
}

/// The end of a string literal, where it has one, lies inside the input.
pub proof fn lemma_lex_string_end_bounds(s: Seq<u8>, i: int)
    requires
        0 <= i <= s.len(),
    ensures
        match lex_string_end(s, i) {
            Lex::Done { value, end } => i < end <= s.len(),
            Lex::Fail { .. } => true,
        },
    decreases s.len() - i,
{
    if i >= s.len() {
    } else if s[i] == 0x22 {
    } else if s[i] == 0x5c {
        if i + 1 < s.len() {
            lemma_lex_string_end_bounds(s, i + 2);
        }
    } else {
        lemma_lex_string_end_bounds(s, i + 1);
    }
}

/// The UTF-8 encoding of one code point: the first `len` bytes of `bytes`.
#[derive(Clone, Copy, Debug)]
pub struct Encoded {
    pub bytes: [u8; 4],
    pub len: usize,
}

impl View for Encoded {
    type V = Seq<u8>;

    open spec fn view(&self) -> Seq<u8> {
        self.bytes@.take(self.len as int)
    }
}

fn one_byte(b: u8) -> (r: Encoded)
    ensures
        r@ == seq![b],
        r.len == 1,
{
    let r = Encoded { bytes: [b, 0, 0, 0], len: 1 };
    proof {
        assert(r@ =~= seq![b]);
    }
    r
}

/// Encodes a code point as UTF-8.
fn encode_code_point(u: u32) -> (r: Encoded)
    ensures
        r@ == encode_scalar(u),
        1 <= r.len <= 4,
{
    let r = if u <= 0x7f {
        Encoded { bytes: [(u & 0x7f) as u8, 0, 0, 0], len: 1 }
    } else if u <= 0x7ff {
        Encoded {
            bytes: [0xc0 | ((u >> 6) & 0x1f) as u8, 0x80 | (u & 0x3f) as u8, 0, 0],
            len: 2,
        }
    } else if u <= 0xffff && !(0xd800 <= u && u <= 0xdfff) {
        Encoded {
            bytes: [
                0xe0 | ((u >> 12) & 0x0f) as u8,
                0x80 | ((u >> 6) & 0x3f) as u8,
                0x80 | (u & 0x3f) as u8,
                0,
            ],
            len: 3,
        }
    } else {
        Encoded {
            bytes: [
                0xf0 | ((u >> 18) & 0x07) as u8,
                0x80 | ((u >> 12) & 0x3f) as u8,
                0x80 | ((u >> 6) & 0x3f) as u8,
                0x80 | (u & 0x3f) as u8,
            ],
            len: 4,
        }
    };
    proof {
        assert(r@ =~= encode_scalar(u));
    }
    r
}

fn hex_of(c: u8) -> (r: Option<u32>)
    ensures
        match r {
            Some(v) => hex_value(c) == v && v < 16,
            None => hex_value(c) < 0,
        },
{
    if 0x30 <= c && c <= 0x39 {
        Some((c - 0x30) as u32)
    } else if 0x61 <= c && c <= 0x66 {
        Some((c - 0x61 + 10) as u32)
    } else if 0x41 <= c && c <= 0x46 {
        Some((c - 0x41 + 10) as u32)
    } else {
        None
    }
}

/// Reads the four hexadecimal digits at `i`.
fn scan_hex4(input: &[u8], i: usize) -> (r: Option<u32>)
    requires
        i + 4 <= input.len(),
    ensures
        match r {
            Some(v) => is_hex4(input@, i as int) && v == hex4_value(input@, i as int) && v
                <= 0xffff,
            None => !is_hex4(input@, i as int),
        },
{
    let a = hex_of(input[i])?;
    let b = hex_of(input[i + 1])?;
    let c = hex_of(input[i + 2])?;
    let d = hex_of(input[i + 3])?;
    Some(a * 4096 + b * 256 + c * 16 + d)
}

/// Decodes what follows `\u`, from index `i` on.
fn scan_unicode(input: &[u8], i: usize) -> (r: Result<(Encoded, usize), ErrorKind>)
    requires
        i <= input.len(),
    ensures
        match lex_unicode(input@, i as int) {
            Lex::Done { value, end } => r is Ok && r->Ok_0.0@ == value && r->Ok_0.1 == end && i
                < end <= input.len() && 1 <= r->Ok_0.0.len <= 4,
            Lex::Fail { kind } => r == Err::<(Encoded, usize), ErrorKind>(kind),
        },
{
    proof {
        reveal(lex_unicode);
    }
    let len = input.len();
    if len - i < 4 {
        return Err(ErrorKind::UnexpectedEndOfInput);
    }
    let unit = match scan_hex4(input, i) {
        Some(unit) => unit,
        None => {
            return Err(ErrorKind::InvalidEscapeSequence);
        },
    };
    if unit < 0xd800 || unit >= 0xe000 {
        return Ok((encode_code_point(unit), i + 4));
    }
    if unit >= 0xdc00 {
        return Err(ErrorKind::InvalidEscapeSequence);
    }
    if i + 4 >= len {
        return Err(ErrorKind::UnexpectedEndOfInput);
    }
    if input[i + 4] != 0x5c {
        return Err(ErrorKind::InvalidSurrogatePair);
    }
    if i + 5 >= len {
        return Err(ErrorKind::UnexpectedEndOfInput);
    }
    if input[i + 5] != 0x75 {
        return Err(ErrorKind::InvalidSurrogatePair);
    }
    if len - i < 10 {
        return Err(ErrorKind::UnexpectedEndOfInput);
    }
    let low = match scan_hex4(input, i + 6) {
        Some(low) => low,
        None => {
            return Err(ErrorKind::InvalidEscapeSequence);
        },
    };
    if 0xdc00 <= low && low < 0xe000 {
        let point: u32 = 0x10000 + (unit - 0xd800) * 0x400 + (low - 0xdc00);
        Ok((encode_code_point(point), i + 10))
    } else {
        Err(ErrorKind::InvalidSurrogatePair)
    }
}

/// Decodes what follows a backslash, from index `i` on.
fn scan_escape(input: &[u8], i: usize) -> (r: Result<(Encoded, usize), ErrorKind>)
    requires
        i <= input.len(),
    ensures
        match lex_escape(input@, i as int) {
            Lex::Done { value, end } => r is Ok && r->Ok_0.0@ == value && r->Ok_0.1 == end && i
                < end <= input.len() && 1 <= r->Ok_0.0.len <= 4,
            Lex::Fail { kind } => r == Err::<(Encoded, usize), ErrorKind>(kind),
        },
{
    if i >= input.len() {
        return Err(ErrorKind::UnexpectedEndOfInput);
    }
    let c = input[i];
    if c == 0x72 {
        Ok((one_byte(0x0d), i + 1))
    } else if c == 0x6e {
        Ok((one_byte(0x0a), i + 1))
    } else if c == 0x74 {
        Ok((one_byte(0x09), i + 1))
    } else if c == 0x62 {
        Ok((one_byte(0x08), i + 1))
    } else if c == 0x66 {
        Ok((one_byte(0x0c), i + 1))
    } else if c == 0x75 {
        scan_unicode(input, i + 1)
    } else {
        Ok((one_byte(c), i + 1))
    }
}

/// Decodes the string literal whose opening quote stands in front of
/// `start`, all of it.
pub fn decode_string(input: &[u8], start: usize) -> (r: Result<(Vec<u8>, usize), ErrorKind>)
    requires
        start <= input.len(),
    ensures
        match lex_string(input@, start as int, Seq::empty()) {
            Lex::Done { value, end } => r is Ok && r->Ok_0.0@ == value && r->Ok_0.1 == end
                && start < end <= input.len(),
            Lex::Fail { kind } => r == Err::<(Vec<u8>, usize), ErrorKind>(kind),
        },
{
    let mut bytes: Vec<u8> = Vec::new();
    let mut i: usize = start;
    proof {
        lemma_lex_string_acc(input@, start as int, Seq::empty());
    }
    loop
        invariant
            start <= i <= input.len(),
            lex_string(input@, start as int, Seq::empty()) == lex_string(input@, i as int, bytes@),
        decreases input.len() - i,
    {
        if i >= input.len() {
            return Err(ErrorKind::UnexpectedEndOfInput);
        }
        let c = input[i];
        if c == 0x22 {
            return Ok((bytes, i + 1));
        }
        if c == 0x5c {
            let ghost before = bytes@;
            let (encoded, end) = scan_escape(input, i + 1)?;
            let mut k: usize = 0;
            while k < encoded.len
                invariant
                    k <= encoded.len <= 4,
                    bytes@ == before + encoded@.take(k as int),
                decreases encoded.len - k,
            {
                bytes.push(encoded.bytes[k]);
                proof {
                    assert(encoded@.take(k + 1) =~= encoded@.take(k as int).push(
                        encoded.bytes@[k as int],
                    ));
                }
                k += 1;
            }
            proof {
                assert(encoded@.take(encoded.len as int) =~= encoded@);
            }
            i = end;
        } else {
            bytes.push(c);
            i += 1;
        }
    }
}

/// What `decode_string_into` found.
#[derive(Clone, Copy, Debug)]
pub struct Stored {
    /// How many bytes the buffer holds.
    pub len: usize,
    /// The index of the first byte behind the closing quote.
    pub end: usize,
    /// Whether the buffer holds all that the string held.
    pub complete: bool,
}

/// Decodes the string literal whose opening quote stands in front of
/// `start` into `buffer`, as far as the buffer reaches: what lies beyond
/// its end is decoded and dropped.
pub fn decode_string_into(input: &[u8], start: usize, buffer: &mut [u8; READER_BUFFER_SIZE]) -> (r:
    Result<Stored, ErrorKind>)
    requires
        start <= input.len(),
    ensures
        match lex_string(input@, start as int, Seq::empty()) {
            Lex::Done { value, end } => {
                &&& r is Ok
                &&& r->Ok_0.complete == (value.len() <= READER_BUFFER_SIZE)
                &&& r->Ok_0.len == (if value.len() <= READER_BUFFER_SIZE {
                    value.len()
                } else {
                    READER_BUFFER_SIZE as nat
                })
                &&& final(buffer)@.take(r->Ok_0.len as int) == value.take(r->Ok_0.len as int)
                &&& r->Ok_0.end == end
                &&& start < end <= input.len()
            },
            Lex::Fail { kind } => r == Err::<Stored, ErrorKind>(kind),
        },
{
    let mut n: usize = 0;
    let mut i: usize = start;
    let mut complete = true;
    let ghost mut acc: Seq<u8> = Seq::empty();
    proof {
        lemma_lex_string_acc(input@, start as int, Seq::empty());
    }
    loop
        invariant
            start <= i <= input.len(),
            lex_string(input@, start as int, Seq::empty()) == lex_string(input@, i as int, acc),
            n <= READER_BUFFER_SIZE,
            complete == (acc.len() <= READER_BUFFER_SIZE),
            n == (if acc.len() <= READER_BUFFER_SIZE {
                acc.len()
            } else {
                READER_BUFFER_SIZE as nat
            }),
            buffer@.take(n as int) == acc.take(n as int),
        decreases input.len() - i,
    {
        if i >= input.len() {
            return Err(ErrorKind::UnexpectedEndOfInput);
        }
        let c = input[i];
        if c == 0x22 {
            return Ok(Stored { len: n, end: i + 1, complete });
        }
        if c == 0x5c {
            let (encoded, end) = scan_escape(input, i + 1)?;
            let mut k: usize = 0;
            let ghost before = acc;
            while k < encoded.len
                invariant
                    k <= encoded.len <= 4,
                    acc == before + encoded@.take(k as int),
                    n <= READER_BUFFER_SIZE,
                    complete == (acc.len() <= READER_BUFFER_SIZE),
                    n == (if acc.len() <= READER_BUFFER_SIZE {
                        acc.len()
                    } else {
                        READER_BUFFER_SIZE as nat
                    }),
                    buffer@.take(n as int) == acc.take(n as int),
                decreases encoded.len - k,
            {
                let b = encoded.bytes[k];
                let ghost old_acc = acc;
                let ghost old_buffer = buffer@;
                if n < READER_BUFFER_SIZE {
                    buffer[n] = b;
                    n += 1;
                } else {
                    complete = false;
                }
                proof {
                    acc = acc.push(b);
                    assert(encoded@.take(k + 1) =~= encoded@.take(k as int).push(b));
                    assert(acc =~= before + encoded@.take(k + 1));
                    assert(old_acc.take(old_acc.len() as int) =~= old_acc);
                    if old_acc.len() < READER_BUFFER_SIZE {
                        assert(buffer@ =~= old_buffer.update(old_acc.len() as int, b));
                    }
                    lemma_take_push(old_buffer, buffer@, old_acc, b, n as int);
                }
                k += 1;
            }
            proof {
                assert(encoded@.take(encoded.len as int) =~= encoded@);
            }
            i = end;
        } else {
            let ghost old_acc = acc;
            let ghost old_buffer = buffer@;
            if n < READER_BUFFER_SIZE {
                buffer[n] = c;
                n += 1;
            } else {
                complete = false;
            }
            proof {
                acc = acc.push(c);
                assert(old_acc.take(old_acc.len() as int) =~= old_acc);
                if old_acc.len() < READER_BUFFER_SIZE {
                    assert(buffer@ =~= old_buffer.update(old_acc.len() as int, c));
                }
                lemma_take_push(old_buffer, buffer@, old_acc, c, n as int);
            }
            i += 1;
        }
    }
}

/// Storing a byte behind the stored front of what was decoded, where there
/// is room for it, keeps the buffer the front of what was decoded.
proof fn lemma_take_push(old_buffer: Seq<u8>, buffer: Seq<u8>, acc: Seq<u8>, b: u8, n: int)
    requires
        old_buffer.len() == buffer.len() == READER_BUFFER_SIZE,
        acc.len() < READER_BUFFER_SIZE ==> n == acc.len() + 1 && buffer == old_buffer.update(
            acc.len() as int,
            b,
        ) && old_buffer.take(acc.len() as int) == acc,
        acc.len() >= READER_BUFFER_SIZE ==> n == READER_BUFFER_SIZE && buffer == old_buffer
            && old_buffer.take(n) == acc.take(n),
    ensures
        buffer.take(n) == acc.push(b).take(n),
{
    if acc.len() < READER_BUFFER_SIZE {
        assert forall|j: int| 0 <= j < n implies buffer.take(n)[j] == acc.push(b).take(n)[j] by {
            if j < acc.len() {
                assert(old_buffer.take(acc.len() as int)[j] == acc[j]);
            }
        }
        assert(buffer.take(n) =~= acc.push(b).take(n));
    } else {
        assert forall|j: int| 0 <= j < n implies buffer.take(n)[j] == acc.push(b).take(n)[j] by {
            assert(old_buffer.take(n)[j] == acc.take(n)[j]);
        }
        assert(buffer.take(n) =~= acc.push(b).take(n));
    }
}

/// Finds the end of the string literal whose opening quote stands in front
/// of `start`.
pub fn skip_string(input: &[u8], start: usize) -> (r: Result<usize, ErrorKind>)
    requires
        start <= input.len(),
    ensures
        match lex_string_end(input@, start as int) {
            Lex::Done { value, end } => r == Ok::<usize, ErrorKind>(end as usize) && start < end
                <= input.len(),
            Lex::Fail { kind } => r == Err::<usize, ErrorKind>(kind),
        },
{
    let mut i: usize = start;
    proof {
        lemma_lex_string_end_bounds(input@, start as int);
    }
    loop
        invariant
            start <= i <= input.len(),
            lex_string_end(input@, start as int) == lex_string_end(input@, i as int),
        decreases input.len() - i,
    {
        if i >= input.len() {
            return Err(ErrorKind::UnexpectedEndOfInput);
        }
        let c = input[i];
        if c == 0x22 {
            return Ok(i + 1);
        }
        if c == 0x5c {
            if input.len() - i < 2 {
                return Err(ErrorKind::UnexpectedEndOfInput);
            }
            i += 2;
        } else {
            i += 1;
        }
    }
}

/// How many bytes the byte or the escape at `i` gives when it is decoded.
pub open spec fn next_len(s: Seq<u8>, i: int) -> nat {
    if 0 <= i < s.len() && s[i] == 0x5c {
        match lex_escape(s, i + 1) {
            Lex::Done { value, end } => value.len(),
            Lex::Fail { .. } => 0,
        }
    } else {
        1
    }
}

/// A part of a string literal that `decode_chunk` decoded.
#[derive(Clone, Copy, Debug)]
pub struct Chunk {
    /// How many bytes the buffer holds.
    pub len: usize,
    /// The index at which the next part starts, or, for the last part, the
    /// index of the first byte behind the closing quote.
    pub end: usize,
    /// Whether this is the last part.
    pub done: bool,
}

/// Decodes a string literal from `start`, which lies behind its opening
/// quote or where an earlier part ended, until the string ends or the
/// buffer cannot take what the next byte, or the next escape, gives.
pub fn decode_chunk(input: &[u8], start: usize, buffer: &mut [u8; READER_BUFFER_SIZE]) -> (r: Result<
    Chunk,
    ErrorKind,
>)
    requires
        start <= input.len(),
    ensures
        match r {
            Ok(chunk) => {
                &&& chunk.len <= READER_BUFFER_SIZE
                &&& start <= chunk.end <= input.len()
                &&& if chunk.done {
                    lex_string(input@, start as int, Seq::empty()) == (Lex::Done {
                        value: final(buffer)@.take(chunk.len as int),
                        end: chunk.end as int,
                    })
                } else {
                    &&& lex_string(input@, start as int, Seq::empty()) == lex_string(
                        input@,
                        chunk.end as int,
                        final(buffer)@.take(chunk.len as int),
                    )
                    &&& start < chunk.end < input.len()
                    &&& input@[chunk.end as int] != 0x22
                    &&& chunk.len + next_len(input@, chunk.end as int) > READER_BUFFER_SIZE
                }
            },
            Err(kind) => lex_string(input@, start as int, Seq::empty()) == (Lex::<Seq<u8>>::Fail {
                kind,
            }),
        },
{
    let mut n: usize = 0;
    let mut i: usize = start;
    proof {
        assert(buffer@.take(0) =~= Seq::<u8>::empty());
    }
    loop
        invariant
            start <= i <= input.len(),
            n <= READER_BUFFER_SIZE,
            n <= i - start,
            lex_string(input@, start as int, Seq::empty()) == lex_string(
                input@,
                i as int,
                buffer@.take(n as int),
            ),
        decreases input.len() - i,
    {
        if i >= input.len() {
            return Err(ErrorKind::UnexpectedEndOfInput);
        }
        let c = input[i];
        if c == 0x22 {
            return Ok(Chunk { len: n, end: i + 1, done: true });
        }
        let ghost before = buffer@.take(n as int);
        if c == 0x5c {
            let (encoded, end) = scan_escape(input, i + 1)?;
            if READER_BUFFER_SIZE - n < encoded.len {
                return Ok(Chunk { len: n, end: i, done: false });
            }
            proof {
                lemma_escape_len(input@, i + 1);
            }
            let mut k: usize = 0;
            while k < encoded.len
                invariant
                    k <= encoded.len <= 4,
                    n + (encoded.len - k) <= READER_BUFFER_SIZE,
                    n + (encoded.len - k) <= end - start,
                    buffer@.take(n as int) == before + encoded@.take(k as int),
                decreases encoded.len - k,
            {
                let ghost was = buffer@.take(n as int);
                buffer[n] = encoded.bytes[k];
                n += 1;
                proof {
                    assert(buffer@.take(n as int) =~= was.push(encoded.bytes@[k as int]));
                    assert(encoded@.take(k + 1) =~= encoded@.take(k as int).push(
                        encoded.bytes@[k as int],
                    ));
                    assert(buffer@.take(n as int) =~= before + encoded@.take(k + 1));
                }
                k += 1;
            }
            proof {
                assert(encoded@.take(encoded.len as int) =~= encoded@);
            }
            i = end;
        } else {
            if n >= READER_BUFFER_SIZE {
                return Ok(Chunk { len: n, end: i, done: false });
            }
            buffer[n] = c;
            n += 1;
            proof {
                assert(buffer@.take(n as int) =~= before.push(c));
            }
            i += 1;
        }
    }
}

/// An escape gives no more bytes than it takes, the backslash counted.
pub proof fn lemma_escape_len(s: Seq<u8>, i: int)
    requires
        0 <= i <= s.len(),
    ensures
        match lex_escape(s, i) {
            Lex::Done { value, end } => value.len() <= end - i + 1,
            Lex::Fail { .. } => true,
        },
{
    lemma_lex_escape_bounds(s, i);
    if i < s.len() && s[i] == 0x75 {
        lemma_lex_unicode_bounds(s, i + 1);
    }
}

} // verus!
