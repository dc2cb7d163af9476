//! The reader: a cursor over the bytes of a document, a scratch buffer, and
//! the path to the value that is being read.

use vstd::prelude::*;
use vstd::utf8::{encode_utf8, valid_utf8};
use crate::ascii::{byte_is_space, spaces_end, lemma_spaces_end_bounds};
use crate::error::{Error, ErrorKind, PathItem};
use crate::format::{number_text, number_to_string};
use crate::number::{is_canonical, lex_quoted_number, scan_quoted_number, READER_BUFFER_SIZE};
use crate::skip::{skip_after, skip_value_after};
use crate::text::{decode_chunk, decode_string, decode_string_into, lex_string, next_len};
use crate::token::{lex_token, scan_token, token_digits, Lex, Token};
use crate::trusted::{arguments_to_string, string_from_utf8};

verus! {

/// Reads JSON values, one after the other, from the bytes of a document.
///
/// The cursor always stands on the first byte that no read has taken yet;
/// that byte is all the lookahead there is. The scratch buffer holds the
/// digits of the number that was lexed last, or the front of the string that
/// was decoded into it last.
pub struct Reader {
    input: Vec<u8>,
    pos: usize,
    path: Vec<PathItem>,
    last_index: usize,
    buffer_len: usize,
    buffer: [u8; READER_BUFFER_SIZE],
}

/// What the scratch buffer keeps of `bytes`: all of them, or as many as it
/// holds.
pub open spec fn truncated(bytes: Seq<u8>) -> Seq<u8> {
    if bytes.len() <= READER_BUFFER_SIZE {
        bytes
    } else {
        bytes.take(READER_BUFFER_SIZE as int)
    }
}

/// Whether `r` is the failure of the given kind at the given path.
pub open spec fn fails_with<T>(r: Result<T, Error>, kind: ErrorKind, path: Seq<PathItem>) -> bool {
    r is Err && r->Err_0.kind == kind && r->Err_0.path@ == path
}

impl Reader {
    /// The bytes of the document.
    pub closed spec fn input(&self) -> Seq<u8> {
        self.input@
    }

    /// The index of the first byte that has not been read.
    pub closed spec fn position(&self) -> int {
        self.pos as int
    }

    /// The steps from the root of the document to the value being read.
    pub closed spec fn path(&self) -> Seq<PathItem> {
        self.path@
    }

    /// The position in the innermost array of the element that `read_index`
    /// reads next.
    pub closed spec fn last_index(&self) -> int {
        self.last_index as int
    }

    /// What the scratch buffer holds.
    pub closed spec fn scratch(&self) -> Seq<u8> {
        self.buffer@.take(self.buffer_len as int)
    }

    /// The cursor lies inside the document or at its end, and the scratch
    /// buffer is not overfull.
    pub closed spec fn wf(&self) -> bool {
        &&& self.pos <= self.input.len()
        &&& self.buffer_len <= READER_BUFFER_SIZE
    }

    /// What every read keeps: the reader stays well formed, the document and
    /// the path are the same, and the cursor has not gone back.
    pub open spec fn follows(&self, before: &Reader) -> bool {
        &&& self.wf()
        &&& self.input() == before.input()
        &&& self.path() == before.path()
        &&& 0 <= before.position() <= self.position() <= self.input().len()
    }

    /// What a well-formed reader is known by: its cursor lies inside the
    /// document or at its end, and its scratch buffer is not overfull.
    pub proof fn lemma_wf(&self)
        requires
            self.wf(),
        ensures
            0 <= self.position() <= self.input().len() <= usize::MAX,
            self.scratch().len() <= READER_BUFFER_SIZE,
    {
    }

    /// A reader at the start of `input`.
    pub fn new(input: Vec<u8>) -> (r: Reader)
        ensures
            r.wf(),
            r.input() == input@,
            r.position() == 0,
            r.path() == Seq::<PathItem>::empty(),
            r.last_index() == 0,
            r.scratch() == Seq::<u8>::empty(),
    {
        let r = Reader {
            input,
            pos: 0,
            path: Vec::new(),
            last_index: 0,
            buffer_len: 0,
            buffer: [0u8; READER_BUFFER_SIZE],
        };
        proof {
            assert(r.buffer@.take(0) =~= Seq::<u8>::empty());
        }
        r
    }

    /// Ends the reading and hands back the bytes that no read has taken.
    pub fn unwrap(self) -> (rest: Vec<u8>)
        requires
            self.wf(),
        ensures
            rest@ == self.input().skip(self.position()),
    {
        let mut input = self.input;
        let rest = input.split_off(self.pos);
        proof {
            assert(rest@ =~= self.input@.skip(self.pos as int));
        }
        rest
    }

    /// The failure of the given kind at the place where the reader stands.
    pub(crate) fn fail(&self, kind: ErrorKind, detail: &str) -> (e: Error)
        ensures
            e.kind == kind,
            e.path@ == self.path(),
            e.detail@ == detail@,
    {
        let mut path: Vec<PathItem> = Vec::new();
        let mut i: usize = 0;
        while i < self.path.len()
            invariant
                i <= self.path.len(),
                path@ == self.path@.take(i as int),
            decreases self.path.len() - i,
        {
            path.push(self.path[i]);
            proof {
                assert(self.path@.take(i + 1) =~= self.path@.take(i as int).push(
                    self.path@[i as int],
                ));
            }
            i += 1;
        }
        proof {
            assert(self.path@.take(self.path.len() as int) =~= self.path@);
        }
        Error { kind, path, detail: detail.to_owned() }
    }

    /// The failure to report where `token` stands in place of a value of
    /// the kind `wanted`.
    pub(crate) fn refuse(&self, token: Token, wanted: &str) -> (e: Error)
        ensures
            e.kind == ErrorKind::UnexpectedToken,
            e.path@ == self.path(),
    {
        let mut e = self.fail(ErrorKind::UnexpectedToken, "");
        let mut detail = String::new();
        match token {
            Token::ArrayEnd | Token::ObjectEnd | Token::Comma | Token::Colon => {
                detail.append("Invalid JSON input: unexpected ");
                detail.append(token_name(token));
            },
            _ => {
                detail.append("Value must be ");
                detail.append(wanted);
                detail.append(", not ");
                detail.append(token_kind(token));
            },
        }
        e.detail = detail;
        e
    }

    /// The failure to report where `token` stands in place of `what`.
    pub(crate) fn expected(&self, token: Token, what: &str) -> (e: Error)
        ensures
            e.kind == ErrorKind::UnexpectedToken,
            e.path@ == self.path(),
    {
        let mut e = self.fail(ErrorKind::UnexpectedToken, "");
        let mut detail = String::new();
        detail.append("Invalid JSON input: expected ");
        detail.append(what);
        detail.append(", got ");
        detail.append(token_name(token));
        e.detail = detail;
        e
    }

    /// A failure for the caller to raise, at the place where the reader
    /// stands.
    pub fn format_error(&self, msg: &str) -> (e: Error)
        ensures
            e.kind == ErrorKind::Custom,
            e.path@ == self.path(),
            e.detail@ == msg@,
    {
        self.fail(ErrorKind::Custom, msg)
    }

    /// A failure for the caller to raise, at the place where the reader
    /// stands, with a message that is put together from the arguments of a
    /// formatting macro.
    pub fn format_error_fmt(&self, args: core::fmt::Arguments) -> (e: Error)
        ensures
            e.kind == ErrorKind::Custom,
            e.path@ == self.path(),
    {
        let text = arguments_to_string(args);
        self.fail(ErrorKind::Custom, text.as_str())
    }

    /// What the scratch buffer holds: the key that `read_object_use_buffer`
    /// read last, or whatever was put there since.
    pub fn get_key(&self) -> (key: &[u8])
        requires
            self.wf(),
        ensures
            key@ == self.scratch(),
    {
        let key = vstd::slice::slice_subrange(self.buffer.as_slice(), 0, self.buffer_len);
        proof {
            assert(key@ =~= self.buffer@.take(self.buffer_len as int));
        }
        key
    }

    /// Lexes the next token. The digits of a number token are in the scratch
    /// buffer afterwards; any other token leaves the buffer as it is. After
    /// `QuoteStart` the cursor stands behind the opening quote.
    pub fn next_token(&mut self) -> (r: Result<Token, Error>)
        requires
            old(self).wf(),
        ensures
            final(self).follows(old(self)),
            final(self).last_index() == old(self).last_index(),
            match lex_token(old(self).input(), old(self).position()) {
                Lex::Done { value, end } => {
                    &&& r == Ok::<Token, Error>(value)
                    &&& final(self).position() == end
                    &&& old(self).position() < end
                    &&& match value {
                        Token::Number(exponent, negative) => {
                            &&& final(self).scratch() == token_digits(
                                old(self).input(),
                                old(self).position(),
                            )
                            &&& is_canonical(final(self).scratch(), exponent as int, negative)
                        },
                        _ => final(self).scratch() == old(self).scratch(),
                    }
                },
                Lex::Fail { kind } => {
                    &&& fails_with(r, kind, old(self).path())
                    &&& final(self).position() == old(self).position()
                },
            },
    {
        match scan_token(self.input.as_slice(), self.pos, &mut self.buffer) {
            Ok(t) => {
                self.pos = t.end;
                if let Token::Number(_, _) = t.token {
                    self.buffer_len = t.len;
                }
                Ok(t.token)
            },
            Err(kind) => Err(self.fail(kind, describe(kind))),
        }
    }

    /// Lexes the next token, which must be no number: the scratch buffer is
    /// kept as it is, and a number token is rejected.
    pub(crate) fn next_token_keeping_scratch(&mut self) -> (r: Result<Token, Error>)
        requires
            old(self).wf(),
        ensures
            final(self).follows(old(self)),
            final(self).last_index() == old(self).last_index(),
            final(self).scratch() == old(self).scratch(),
            match lex_token(old(self).input(), old(self).position()) {
                Lex::Done { value, end } => if value is Number {
                    fails_with(r, ErrorKind::UnexpectedToken, old(self).path())
                } else {
                    r == Ok::<Token, Error>(value) && final(self).position() == end
                        && old(self).position() < end
                },
                Lex::Fail { kind } => fails_with(r, kind, old(self).path()),
            },
    {
        let mut digits: [u8; READER_BUFFER_SIZE] = [0u8; READER_BUFFER_SIZE];
        match scan_token(self.input.as_slice(), self.pos, &mut digits) {
            Ok(t) => {
                if let Token::Number(_, _) = t.token {
                    return Err(
                        self.fail(
                            ErrorKind::UnexpectedToken,
                            describe(ErrorKind::UnexpectedToken),
                        ),
                    );
                }
                self.pos = t.end;
                Ok(t.token)
            },
            Err(kind) => Err(self.fail(kind, describe(kind))),
        }
    }

    /// Takes the white space and the byte behind it, if that byte is the
    /// given one, and leaves the cursor where it is if not.
    pub(crate) fn take_if_next(&mut self, byte: u8) -> (r: bool)
        requires
            old(self).wf(),
        ensures
            final(self).follows(old(self)),
            final(self).last_index() == old(self).last_index(),
            final(self).scratch() == old(self).scratch(),
            ({
                let p = spaces_end(old(self).input(), old(self).position());
                &&& r == (old(self).position() <= p < old(self).input().len()
                    && old(self).input()[p] == byte)
                &&& final(self).position() == (if r {
                    p + 1
                } else {
                    old(self).position()
                })
            }),
    {
        let mut p: usize = self.pos;
        proof {
            lemma_spaces_end_bounds(self.input@, self.pos as int);
        }
        while p < self.input.len() && byte_is_space(self.input[p])
            invariant
                self.pos <= p <= self.input.len(),
                spaces_end(self.input@, self.pos as int) == spaces_end(self.input@, p as int),
            decreases self.input.len() - p,
        {
            p += 1;
        }
        if p < self.input.len() && self.input[p] == byte {
            self.pos = p + 1;
            true
        } else {
            false
        }
    }

    /// Whether the byte behind the white space at the cursor is the given
    /// one. The cursor stays where it is.
    pub(crate) fn next_is(&self, byte: u8) -> (r: bool)
        requires
            self.wf(),
        ensures
            ({
                let p = spaces_end(self.input(), self.position());
                r == (self.position() <= p < self.input().len() && self.input()[p] == byte)
            }),
    {
        let mut p: usize = self.pos;
        proof {
            lemma_spaces_end_bounds(self.input@, self.pos as int);
        }
        while p < self.input.len() && byte_is_space(self.input[p])
            invariant
                self.pos <= p <= self.input.len(),
                spaces_end(self.input@, self.pos as int) == spaces_end(self.input@, p as int),
            decreases self.input.len() - p,
        {
            p += 1;
        }
        p < self.input.len() && self.input[p] == byte
    }

    /// Takes one byte, which the caller has looked at.
    pub(crate) fn take_byte(&mut self)
        requires
            old(self).wf(),
            old(self).position() < old(self).input().len(),
        ensures
            final(self).follows(old(self)),
            final(self).last_index() == old(self).last_index(),
            final(self).scratch() == old(self).scratch(),
            final(self).position() == old(self).position() + 1,
    {
        self.pos = self.pos + 1;
    }

    /// Decodes the rest of a string literal, behind whose opening quote the
    /// cursor stands, as bytes.
    pub(crate) fn read_blob_contents(&mut self) -> (r: Result<Vec<u8>, Error>)
        requires
            old(self).wf(),
        ensures
            final(self).follows(old(self)),
            final(self).last_index() == old(self).last_index(),
            final(self).scratch() == old(self).scratch(),
            match lex_string(old(self).input(), old(self).position(), Seq::empty()) {
                Lex::Done { value, end } => r is Ok && r->Ok_0@ == value && final(self).position()
                    == end,
                Lex::Fail { kind } => fails_with(r, kind, old(self).path()),
            },
    {
        match decode_string(self.input.as_slice(), self.pos) {
            Ok((bytes, end)) => {
                self.pos = end;
                Ok(bytes)
            },
            Err(kind) => Err(self.fail(kind, describe(kind))),
        }
    }

    /// Decodes the rest of a string literal, behind whose opening quote the
    /// cursor stands, as text. What it holds must be UTF-8.
    pub(crate) fn read_string_contents(&mut self) -> (r: Result<String, Error>)
        requires
            old(self).wf(),
        ensures
            final(self).follows(old(self)),
            final(self).last_index() == old(self).last_index(),
            final(self).scratch() == old(self).scratch(),
            match lex_string(old(self).input(), old(self).position(), Seq::empty()) {
                Lex::Done { value, end } => if valid_utf8(value) {
                    r is Ok && encode_utf8(r->Ok_0@) == value && final(self).position() == end
                } else {
                    fails_with(r, ErrorKind::InvalidUtf8, old(self).path())
                },
                Lex::Fail { kind } => fails_with(r, kind, old(self).path()),
            },
    {
        let bytes = self.read_blob_contents()?;
        match string_from_utf8(bytes) {
            Some(text) => Ok(text),
            None => Err(self.fail(ErrorKind::InvalidUtf8, describe(ErrorKind::InvalidUtf8))),
        }
    }

    /// Decodes the rest of a string literal, behind whose opening quote the
    /// cursor stands, into the scratch buffer. What does not fit is dropped;
    /// the result says whether everything fit.
    pub(crate) fn read_string_contents_as_bytes(&mut self) -> (r: Result<bool, Error>)
        requires
            old(self).wf(),
        ensures
            final(self).follows(old(self)),
            final(self).last_index() == old(self).last_index(),
            match lex_string(old(self).input(), old(self).position(), Seq::empty()) {
                Lex::Done { value, end } => r == Ok::<bool, Error>(
                    value.len() <= READER_BUFFER_SIZE,
                ) && final(self).scratch() == truncated(value) && final(self).position() == end
                    && old(self).position() < end,
                Lex::Fail { kind } => fails_with(r, kind, old(self).path()),
            },
    {
        match decode_string_into(self.input.as_slice(), self.pos, &mut self.buffer) {
            Ok(stored) => {
                self.pos = stored.end;
                self.buffer_len = stored.len;
                Ok(stored.complete)
            },
            Err(kind) => {
                self.buffer_len = 0;
                Err(self.fail(kind, describe(kind)))
            },
        }
    }

    /// Decodes the next part of a string literal into the scratch buffer:
    /// from the cursor, which stands behind the opening quote or where the
    /// part before ended, until the buffer cannot take what comes next or
    /// the string ends. The result says whether another part follows.
    pub(crate) fn read_chunk(&mut self) -> (r: Result<bool, Error>)
        requires
            old(self).wf(),
        ensures
            final(self).follows(old(self)),
            final(self).last_index() == old(self).last_index(),
            match r {
                Ok(more) => if more {
                    &&& lex_string(old(self).input(), old(self).position(), Seq::empty())
                        == lex_string(
                        old(self).input(),
                        final(self).position(),
                        final(self).scratch(),
                    )
                    &&& old(self).position() < final(self).position()
                    &&& final(self).scratch().len() + next_len(
                        old(self).input(),
                        final(self).position(),
                    ) > READER_BUFFER_SIZE
                } else {
                    lex_string(old(self).input(), old(self).position(), Seq::empty()) == (Lex::Done {
                        value: final(self).scratch(),
                        end: final(self).position(),
                    })
                },
                Err(e) => lex_string(old(self).input(), old(self).position(), Seq::empty()) == (
                Lex::<Seq<u8>>::Fail { kind: e.kind }) && e.path@ == old(self).path(),
            },
    {
        match decode_chunk(self.input.as_slice(), self.pos, &mut self.buffer) {
            Ok(chunk) => {
                self.pos = chunk.end;
                self.buffer_len = chunk.len;
                Ok(!chunk.done)
            },
            Err(kind) => {
                self.buffer_len = 0;
                Err(self.fail(kind, describe(kind)))
            },
        }
    }

    /// Passes over the rest of the value whose first token was just lexed.
    pub(crate) fn skip_rest(&mut self, token: Token) -> (r: Result<(), Error>)
        requires
            old(self).wf(),
        ensures
            final(self).follows(old(self)),
            final(self).last_index() == old(self).last_index(),
            match skip_value_after(old(self).input(), token, old(self).position()) {
                Lex::Done { value, end } => r is Ok && final(self).position() == end,
                Lex::Fail { kind } => fails_with(r, kind, old(self).path()),
            },
    {
        match skip_after(self.input.as_slice(), token, self.pos, &mut self.buffer) {
            Ok(end) => {
                self.pos = end;
                self.buffer_len = 0;
                Ok(())
            },
            Err(kind) => {
                self.buffer_len = 0;
                Err(self.fail(kind, describe(kind)))
            },
        }
    }

    /// Fills the scratch buffer with `bytes`, as far as they fit.
    pub(crate) fn set_scratch(&mut self, bytes: &[u8])
        requires
            old(self).wf(),
        ensures
            final(self).follows(old(self)),
            final(self).last_index() == old(self).last_index(),
            final(self).position() == old(self).position(),
            final(self).scratch() == truncated(bytes@),
    {
        let n: usize = if bytes.len() <= READER_BUFFER_SIZE {
            bytes.len()
        } else {
            READER_BUFFER_SIZE
        };
        let mut k: usize = 0;
        while k < n
            invariant
                k <= n <= READER_BUFFER_SIZE,
                n <= bytes.len(),
                self.input@ == old(self).input@,
                self.path@ == old(self).path@,
                self.last_index == old(self).last_index,
                self.pos == old(self).pos,
                self.buffer@.take(k as int) == bytes@.take(k as int),
            decreases n - k,
        {
            self.buffer[k] = bytes[k];
            proof {
                assert(self.buffer@.take(k + 1) =~= bytes@.take(k as int).push(bytes@[k as int]));
                assert(bytes@.take(k + 1) =~= bytes@.take(k as int).push(bytes@[k as int]));
            }
            k += 1;
        }
        self.buffer_len = n;
        proof {
            if bytes.len() <= READER_BUFFER_SIZE {
                assert(bytes@.take(n as int) =~= bytes@);
            }
        }
    }

    /// Whether the cursor stands on a quote.
    pub(crate) fn at_quote(&self) -> (r: bool)
        requires
            self.wf(),
        ensures
            r == (self.position() < self.input().len() && self.input()[self.position()] == 0x22),
    {
        self.pos < self.input.len() && self.input[self.pos] == 0x22
    }

    /// Puts the canonical text of the number whose digits are in the scratch
    /// buffer in their place. A text that does not fit the buffer is a
    /// number too big.
    pub(crate) fn number_to_scratch(&mut self, exponent: i32, negative: bool) -> (r: Result<
        (),
        Error,
    >)
        requires
            old(self).wf(),
        ensures
            final(self).follows(old(self)),
            final(self).last_index() == old(self).last_index(),
            final(self).position() == old(self).position(),
            ({
                let text = number_text(old(self).scratch(), exponent as int, negative);
                if text.len() <= READER_BUFFER_SIZE {
                    r is Ok && final(self).scratch() == text
                } else {
                    fails_with(r, ErrorKind::NumberTooBig, old(self).path())
                }
            }),
    {
        match number_to_string(&mut self.buffer, self.buffer_len, exponent, negative) {
            Ok(len) => {
                self.buffer_len = len;
                Ok(())
            },
            Err(_) => Err(self.fail(ErrorKind::NumberTooBig, describe(ErrorKind::NumberTooBig))),
        }
    }

    /// Reads what the scratch buffer holds as a number, and puts the digits
    /// of the number in its place.
    pub(crate) fn scratch_to_number(&mut self) -> (r: Result<(i32, bool), Error>)
        requires
            old(self).wf(),
        ensures
            final(self).follows(old(self)),
            final(self).last_index() == old(self).last_index(),
            final(self).position() == old(self).position(),
            match lex_quoted_number(old(self).scratch()) {
                Ok(d) => r == Ok::<(i32, bool), Error>((d.exponent as i32, d.negative))
                    && final(self).scratch() == d.digits && is_canonical(
                    d.digits,
                    d.exponent,
                    d.negative,
                ),
                Err(kind) => fails_with(r, kind, old(self).path()),
            },
    {
        let text: [u8; READER_BUFFER_SIZE] = self.buffer;
        let t = vstd::slice::slice_subrange(text.as_slice(), 0, self.buffer_len);
        proof {
            assert(t@ =~= self.buffer@.take(self.buffer_len as int));
        }
        match scan_quoted_number(t, &mut self.buffer) {
            Ok(n) => {
                self.buffer_len = n.len;
                Ok((n.exponent, n.negative))
            },
            Err(kind) => {
                self.buffer_len = 0;
                Err(self.fail(kind, describe(kind)))
            },
        }
    }

    /// Steps down to a property or an element.
    pub(crate) fn push_path(&mut self, item: PathItem)
        requires
            old(self).wf(),
        ensures
            final(self).wf(),
            final(self).input() == old(self).input(),
            final(self).position() == old(self).position(),
            final(self).last_index() == old(self).last_index(),
            final(self).scratch() == old(self).scratch(),
            final(self).path() == old(self).path().push(item),
    {
        self.path.push(item);
    }

    /// Puts another step in the place of the last step of the path. With an
    /// empty path nothing changes.
    pub(crate) fn replace_top(&mut self, item: PathItem)
        requires
            old(self).wf(),
        ensures
            final(self).wf(),
            final(self).input() == old(self).input(),
            final(self).position() == old(self).position(),
            final(self).last_index() == old(self).last_index(),
            final(self).scratch() == old(self).scratch(),
            final(self).path() == (if old(self).path().len() > 0 {
                old(self).path().drop_last().push(item)
            } else {
                old(self).path()
            }),
    {
        let n = self.path.len();
        if n > 0 {
            self.path[n - 1] = item;
            proof {
                assert(self.path@ =~= old(self).path@.drop_last().push(item));
            }
        }
    }

    /// Steps back up.
    pub(crate) fn pop_path(&mut self)
        requires
            old(self).wf(),
        ensures
            final(self).wf(),
            final(self).input() == old(self).input(),
            final(self).position() == old(self).position(),
            final(self).last_index() == old(self).last_index(),
            final(self).scratch() == old(self).scratch(),
            final(self).path() == (if old(self).path().len() > 0 {
                old(self).path().drop_last()
            } else {
                old(self).path()
            }),
    {
        self.path.pop();
    }

    /// Starts the count of the elements of an array, and hands back the
    /// count that was running.
    pub(crate) fn start_index(&mut self) -> (saved: usize)
        requires
            old(self).wf(),
        ensures
            final(self).follows(old(self)),
            final(self).position() == old(self).position(),
            final(self).scratch() == old(self).scratch(),
            final(self).last_index() == 0,
            saved == old(self).last_index(),
    {
        let saved = self.last_index;
        self.last_index = 0;
        saved
    }

    /// Takes up the count of the elements of an outer array again.
    pub(crate) fn restore_index(&mut self, saved: usize)
        requires
            old(self).wf(),
        ensures
            final(self).follows(old(self)),
            final(self).position() == old(self).position(),
            final(self).scratch() == old(self).scratch(),
            final(self).last_index() == saved,
    {
        self.last_index = saved;
    }

    /// Names, in the last step of the path, the element that is read next,
    /// and counts it. With an empty path nothing changes.
    pub(crate) fn step_index(&mut self)
        requires
            old(self).wf(),
        ensures
            final(self).wf(),
            final(self).input() == old(self).input(),
            final(self).position() == old(self).position(),
            final(self).scratch() == old(self).scratch(),
            old(self).path().len() == 0 ==> final(self).path() == old(self).path()
                && final(self).last_index() == old(self).last_index(),
            old(self).path().len() > 0 ==> final(self).path() == old(self).path().drop_last().push(
                PathItem::Index(old(self).last_index() as usize),
            ) && final(self).last_index() == (if old(self).last_index() < usize::MAX {
                old(self).last_index() + 1
            } else {
                old(self).last_index()
            }),
    {
        let n = self.path.len();
        if n > 0 {
            self.path[n - 1] = PathItem::Index(self.last_index);
            proof {
                assert(self.path@ =~= old(self).path@.drop_last().push(
                    PathItem::Index(old(self).last_index),
                ));
            }
            if self.last_index < usize::MAX {
                self.last_index = self.last_index + 1;
            }
        }
    }
}

/// What a token is called where it stands in the wrong place: the words
/// and the kinds of literal by their name, the punctuation in quotes.
pub open spec fn token_name_text(token: Token) -> Seq<char> {
    match token {
        Token::Null => "null"@,
        Token::False => "false"@,
        Token::True => "true"@,
        Token::Number(_, _) => "number"@,
        Token::QuoteStart => "string"@,
        Token::ArrayBegin => "'['"@,
        Token::ArrayEnd => "']'"@,
        Token::ObjectBegin => "'{'"@,
        Token::ObjectEnd => "'}'"@,
        Token::Comma => "','"@,
        Token::Colon => "':'"@,
    }
}

/// What the value that a token starts is called: `false` and `true` are
/// both a boolean, `[` starts an array and `{` an object. A token that
/// starts no value is called as `token_name_text` calls it.
pub open spec fn token_kind_text(token: Token) -> Seq<char> {
    match token {
        Token::False | Token::True => "boolean"@,
        Token::ArrayBegin => "array"@,
        Token::ObjectBegin => "object"@,
        _ => token_name_text(token),
    }
}

/// The sentence that tells of a failure of the given kind, where nothing
/// more is known of it than its kind.
pub open spec fn describe_text(kind: ErrorKind) -> Seq<char> {
    match kind {
        ErrorKind::UnexpectedEndOfInput => "Invalid JSON: unexpected end of input"@,
        ErrorKind::UnexpectedToken => "Invalid JSON input: unexpected token"@,
        ErrorKind::InvalidNumberFormat => "Invalid JSON input: invalid number format"@,
        ErrorKind::NumberTooBig => "Invalid JSON input: Number is too big"@,
        ErrorKind::InvalidUtf8 => "Invalid UTF-8 string"@,
        ErrorKind::InvalidEscapeSequence => "Invalid JSON input: error in escape sequence"@,
        ErrorKind::InvalidSurrogatePair => "Invalid UTF-16 surrogate pair"@,
        ErrorKind::Custom => "Invalid value"@,
    }
}

/// What a token is called where it stands in the wrong place.
pub(crate) fn token_name(token: Token) -> (name: &'static str)
    ensures
        name@ == token_name_text(token),
{
    match token {
        Token::Null => "null",
        Token::False => "false",
        Token::True => "true",
        Token::Number(_, _) => "number",
        Token::QuoteStart => "string",
        Token::ArrayBegin => "'['",
        Token::ArrayEnd => "']'",
        Token::ObjectBegin => "'{'",
        Token::ObjectEnd => "'}'",
        Token::Comma => "','",
        Token::Colon => "':'",
    }
}

/// What the value that a token starts is called.
pub(crate) fn token_kind(token: Token) -> (name: &'static str)
    ensures
        name@ == token_kind_text(token),
{
    match token {
        Token::Null => "null",
        Token::False | Token::True => "boolean",
        Token::Number(_, _) => "number",
        Token::QuoteStart => "string",
        Token::ArrayBegin => "array",
        Token::ObjectBegin => "object",
        _ => token_name(token),
    }
}

/// A sentence for each kind of failure.
pub(crate) fn describe(kind: ErrorKind) -> (text: &'static str)
    ensures
        text@ == describe_text(kind),
{
    match kind {
        ErrorKind::UnexpectedEndOfInput => "Invalid JSON: unexpected end of input",
        ErrorKind::UnexpectedToken => "Invalid JSON input: unexpected token",
        ErrorKind::InvalidNumberFormat => "Invalid JSON input: invalid number format",
        ErrorKind::NumberTooBig => "Invalid JSON input: Number is too big",
        ErrorKind::InvalidUtf8 => "Invalid UTF-8 string",
        ErrorKind::InvalidEscapeSequence => "Invalid JSON input: error in escape sequence",
        ErrorKind::InvalidSurrogatePair => "Invalid UTF-16 surrogate pair",
        ErrorKind::Custom => "Invalid value",
    }
}

} // verus!
