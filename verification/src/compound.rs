//! Arrays and objects, step by step: what a caller needs to read the
//! elements of an array, or the members of an object, into a type of its
//! own.

use vstd::prelude::*;
use vstd::utf8::{encode_utf8, valid_utf8};
use crate::ascii::spaces_end;
use crate::decode::{agrees, Decoded, Model, TryFromJson};
use crate::error::{Error, ErrorKind, PathItem};
use crate::reader::{fails_with, truncated, Reader};
use crate::text::{lemma_lex_string_acc, lex_string};
use crate::token::{lex_token, Lex, Token};

verus! {

/// How an array, or what stands in its place, begins.
#[derive(Clone, Copy, Debug, PartialEq, Eq, Structural)]
pub enum Opening {
    /// `null` stands where the array would.
    Absent,
    /// The array has no elements, and has been read to its end.
    Empty,
    /// The first element comes next.
    Elements,
}

/// Reads the start of an array. `null` is accepted in place of an array,
/// and an array without elements is read to its end.
pub open spec fn lex_array_begin(s: Seq<u8>, i: int) -> Lex<Opening> {
    match lex_token(s, i) {
        Lex::Fail { kind } => Lex::Fail { kind },
        Lex::Done { value: token, end } => match token {
            Token::Null => Lex::Done { value: Opening::Absent, end },
            Token::ArrayBegin => {
                let p = spaces_end(s, end);
                if end <= p < s.len() && s[p] == 0x5d {
                    Lex::Done { value: Opening::Empty, end: p + 1 }
                } else {
                    Lex::Done { value: Opening::Elements, end }
                }
            },
            _ => Lex::Fail { kind: ErrorKind::UnexpectedToken },
        },
    }
}

/// Reads what follows an element: `,`, and then there is another element,
/// or `]`, and then there is none.
pub open spec fn lex_array_next(s: Seq<u8>, i: int) -> Lex<bool> {
    match lex_token(s, i) {
        Lex::Fail { kind } => Lex::Fail { kind },
        Lex::Done { value: token, end } => match token {
            Token::Comma => Lex::Done { value: true, end },
            Token::ArrayEnd => Lex::Done { value: false, end },
            _ => Lex::Fail { kind: ErrorKind::UnexpectedToken },
        },
    }
}

/// Reads the start of an object: `{`, and then there is an object, or
/// `null`, and then there is none.
pub open spec fn lex_object_begin(s: Seq<u8>, i: int) -> Lex<bool> {
    match lex_token(s, i) {
        Lex::Fail { kind } => Lex::Fail { kind },
        Lex::Done { value: token, end } => match token {
            Token::Null => Lex::Done { value: false, end },
            Token::ObjectBegin => Lex::Done { value: true, end },
            _ => Lex::Fail { kind: ErrorKind::UnexpectedToken },
        },
    }
}

/// Reads the key of a member and the colon behind it, or the `}` that ends
/// the object, and then there is no key. With `text` the key must be UTF-8.
pub open spec fn lex_key(s: Seq<u8>, i: int, text: bool) -> Lex<Option<Seq<u8>>> {
    match lex_token(s, i) {
        Lex::Fail { kind } => Lex::Fail { kind },
        Lex::Done { value: token, end } => match token {
            Token::ObjectEnd => Lex::Done { value: None, end },
            Token::QuoteStart => match lex_string(s, end, Seq::empty()) {
                Lex::Fail { kind } => Lex::Fail { kind },
                Lex::Done { value: key, end: after } => if text && !valid_utf8(key) {
                    Lex::Fail { kind: ErrorKind::InvalidUtf8 }
                } else {
                    match lex_token(s, after) {
                        Lex::Fail { kind } => Lex::Fail { kind },
                        Lex::Done { value: colon, end: last } => if colon == Token::Colon {
                            Lex::Done { value: Some(key), end: last }
                        } else {
                            Lex::Fail { kind: ErrorKind::UnexpectedToken }
                        },
                    }
                },
            },
            _ => Lex::Fail { kind: ErrorKind::UnexpectedToken },
        },
    }
}

/// Reads what follows a member: `,`, and then a key or the end comes next,
/// or `}`, and then the object has ended.
pub open spec fn lex_object_next(s: Seq<u8>, i: int) -> Lex<bool> {
    match lex_token(s, i) {
        Lex::Fail { kind } => Lex::Fail { kind },
        Lex::Done { value: token, end } => match token {
            Token::Comma => Lex::Done { value: true, end },
            Token::ObjectEnd => Lex::Done { value: false, end },
            _ => Lex::Fail { kind: ErrorKind::UnexpectedToken },
        },
    }
}

/// The path with the position `k` in its last step, or the empty path.
pub open spec fn indexed(path: Seq<PathItem>, k: int) -> Seq<PathItem> {
    if path.len() > 0 {
        path.drop_last().push(PathItem::Index(k as usize))
    } else {
        path
    }
}

/// The failure one step further down, or the value as it is.
pub open spec fn below(item: PathItem, decoded: Decoded) -> Decoded {
    match decoded {
        Decoded::Done { value, end } => decoded,
        Decoded::Fail { kind, at } => Decoded::Fail { kind, at: seq![item] + at },
    }
}

/// Whether `r` is the value `value` with the cursor at `end`, or the
/// failure of the kind that `lex` names at the path `path`.
pub open spec fn reads<T>(
    lex: Lex<T>,
    path: Seq<PathItem>,
    r: Result<T, Error>,
    position: int,
) -> bool {
    match lex {
        Lex::Done { value, end } => r == Ok::<T, Error>(value) && position == end,
        Lex::Fail { kind } => fails_with(r, kind, path),
    }
}

impl Reader {
    /// Reads the start of an array.
    pub fn begin_array(&mut self) -> (r: Result<Opening, Error>)
        requires
            old(self).wf(),
        ensures
            final(self).follows(old(self)),
            final(self).last_index() == old(self).last_index(),
            reads(
                lex_array_begin(old(self).input(), old(self).position()),
                old(self).path(),
                r,
                final(self).position(),
            ),
            r is Ok ==> old(self).position() < final(self).position(),
    {
        let token = self.next_token()?;
        match token {
            Token::Null => Ok(Opening::Absent),
            Token::ArrayBegin => {
                if self.take_if_next(0x5d) {
                    Ok(Opening::Empty)
                } else {
                    Ok(Opening::Elements)
                }
            },
            _ => Err(self.refuse(token, "array")),
        }
    }

    /// Reads what follows an element of an array, and says whether another
    /// element comes.
    pub fn continue_array(&mut self) -> (r: Result<bool, Error>)
        requires
            old(self).wf(),
        ensures
            final(self).follows(old(self)),
            final(self).last_index() == old(self).last_index(),
            reads(
                lex_array_next(old(self).input(), old(self).position()),
                old(self).path(),
                r,
                final(self).position(),
            ),
            r is Ok ==> old(self).position() < final(self).position(),
    {
        let token = self.next_token()?;
        match token {
            Token::Comma => Ok(true),
            Token::ArrayEnd => Ok(false),
            _ => Err(self.expected(token, "',' or ']'")),
        }
    }

    /// Reads the start of an object, and says whether there is an object.
    pub fn begin_object(&mut self) -> (r: Result<bool, Error>)
        requires
            old(self).wf(),
        ensures
            final(self).follows(old(self)),
            final(self).last_index() == old(self).last_index(),
            reads(
                lex_object_begin(old(self).input(), old(self).position()),
                old(self).path(),
                r,
                final(self).position(),
            ),
            r is Ok ==> old(self).position() < final(self).position(),
    {
        let token = self.next_token()?;
        match token {
            Token::Null => Ok(false),
            Token::ObjectBegin => Ok(true),
            _ => Err(self.refuse(token, "object")),
        }
    }

    /// Reads the key of the next member, which must be UTF-8, and the colon
    /// behind it; or the end of the object, and then there is no key.
    pub fn read_key(&mut self) -> (r: Result<Option<String>, Error>)
        requires
            old(self).wf(),
        ensures
            final(self).follows(old(self)),
            final(self).last_index() == old(self).last_index(),
            match lex_key(old(self).input(), old(self).position(), true) {
                Lex::Done { value: None, end } => r is Ok && r->Ok_0 is None
                    && final(self).position() == end,
                Lex::Done { value: Some(key), end } => r is Ok && r->Ok_0 is Some && encode_utf8(
                    r->Ok_0->Some_0@,
                ) == key && final(self).position() == end,
                Lex::Fail { kind } => fails_with(r, kind, old(self).path()),
            },
            r is Ok ==> old(self).position() < final(self).position(),
    {
        let token = self.next_token()?;
        match token {
            Token::ObjectEnd => Ok(None),
            Token::QuoteStart => {
                proof {
                    lemma_lex_string_acc(self.input(), self.position(), Seq::empty());
                }
                let key = self.read_string_contents()?;
                let colon = self.next_token()?;
                match colon {
                    Token::Colon => Ok(Some(key)),
                    _ => Err(self.expected(colon, "':'")),
                }
            },
            _ => Err(self.expected(token, "key")),
        }
    }

    /// Reads the key of the next member into the scratch buffer, as far as
    /// it fits, and the colon behind it; or the end of the object, and says
    /// whether there was a key.
    pub fn read_key_to_buffer(&mut self) -> (r: Result<bool, Error>)
        requires
            old(self).wf(),
        ensures
            final(self).follows(old(self)),
            final(self).last_index() == old(self).last_index(),
            match lex_key(old(self).input(), old(self).position(), false) {
                Lex::Done { value: None, end } => r == Ok::<bool, Error>(false)
                    && final(self).position() == end,
                Lex::Done { value: Some(key), end } => r == Ok::<bool, Error>(true)
                    && final(self).scratch() == truncated(key) && final(self).position() == end,
                Lex::Fail { kind } => fails_with(r, kind, old(self).path()),
            },
            r is Ok ==> old(self).position() < final(self).position(),
    {
        let token = self.next_token()?;
        match token {
            Token::ObjectEnd => Ok(false),
            Token::QuoteStart => {
                self.read_string_contents_as_bytes()?;
                let colon = self.next_token_keeping_scratch()?;
                match colon {
                    Token::Colon => Ok(true),
                    _ => Err(self.expected(colon, "':'")),
                }
            },
            _ => Err(self.expected(token, "key")),
        }
    }

    /// Reads what follows a member of an object, and says whether the
    /// object goes on.
    pub fn continue_object(&mut self) -> (r: Result<bool, Error>)
        requires
            old(self).wf(),
        ensures
            final(self).follows(old(self)),
            final(self).last_index() == old(self).last_index(),
            reads(
                lex_object_next(old(self).input(), old(self).position()),
                old(self).path(),
                r,
                final(self).position(),
            ),
            r is Ok ==> old(self).position() < final(self).position(),
    {
        let token = self.next_token()?;
        match token {
            Token::Comma => Ok(true),
            Token::ObjectEnd => Ok(false),
            _ => Err(self.expected(token, "',' or '}'")),
        }
    }

    /// Takes what the caller's function made of an element of an array and
    /// says how the array goes on. A failure of the function is handed on
    /// as it is, and nothing is read. After a success what follows the
    /// element is read: `,`, and then another element comes, or `]`, and
    /// then the array has ended.
    pub fn after_element(&mut self, outcome: Result<(), Error>) -> (r: Result<bool, Error>)
        requires
            old(self).wf(),
        ensures
            final(self).follows(old(self)),
            final(self).last_index() == old(self).last_index(),
            match outcome {
                Err(e) => r == Err::<bool, Error>(e) && final(self).position() == old(self).position(),
                Ok(_) => reads(
                    lex_array_next(old(self).input(), old(self).position()),
                    old(self).path(),
                    r,
                    final(self).position(),
                ),
            },
            r is Ok ==> old(self).position() < final(self).position(),
    {
        proof {
            self.lemma_wf();
        }
        match outcome {
            Err(e) => Err(e),
            Ok(_) => self.continue_array(),
        }
    }

    /// Takes what the caller's function made of the value of a member of
    /// an object and says how the object goes on. A failure of the function
    /// is handed on as it is, and nothing is read. After a success what
    /// follows the member is read: `,`, and then a key or the end comes, or
    /// `}`, and then the object has ended.
    pub fn after_member(&mut self, outcome: Result<(), Error>) -> (r: Result<bool, Error>)
        requires
            old(self).wf(),
        ensures
            final(self).follows(old(self)),
            final(self).last_index() == old(self).last_index(),
            match outcome {
                Err(e) => r == Err::<bool, Error>(e) && final(self).position() == old(self).position(),
                Ok(_) => reads(
                    lex_object_next(old(self).input(), old(self).position()),
                    old(self).path(),
                    r,
                    final(self).position(),
                ),
            },
            r is Ok ==> old(self).position() < final(self).position(),
    {
        proof {
            self.lemma_wf();
        }
        match outcome {
            Err(e) => Err(e),
            Ok(_) => self.continue_object(),
        }
    }

    /// Reads the value of the property `prop` of an object: one value, into
    /// the type that the caller names. A failure is reported one step
    /// further down the path, at the property.
    pub fn read_prop<U: TryFromJson>(&mut self, prop: &'static str) -> (r: Result<U, Error>)
        requires
            old(self).wf(),
        ensures
            final(self).follows(old(self)),
            final(self).last_index() == old(self).last_index(),
            agrees(
                below(PathItem::Prop(prop), U::decoded(old(self).input(), old(self).position())),
                old(self).path(),
                r,
                if r is Ok {
                    r->Ok_0.model()
                } else {
                    Model::Opaque
                },
                final(self).position(),
            ),
    {
        let ghost path = self.path();
        self.push_path(PathItem::Prop(prop));
        let r = self.read::<U>();
        self.pop_path();
        proof {
            assert(path.push(PathItem::Prop(prop)).drop_last() =~= path);
            match U::decoded(old(self).input(), old(self).position()) {
                Decoded::Done { value, end } => {},
                Decoded::Fail { kind, at } => {
                    assert(path.push(PathItem::Prop(prop)) + at =~= path + (seq![
                        PathItem::Prop(prop),
                    ] + at));
                },
            }
        }
        r
    }

    /// Reads the next element of an array: one value, into the type that
    /// the caller names. The last step of the path is set to the position
    /// of the element, and stays so; the count of the elements goes up by
    /// one. With an empty path this is `read`.
    pub fn read_index<U: TryFromJson>(&mut self) -> (r: Result<U, Error>)
        requires
            old(self).wf(),
        ensures
            final(self).wf(),
            final(self).input() == old(self).input(),
            0 <= old(self).position() <= final(self).position() <= final(self).input().len(),
            final(self).path() == indexed(old(self).path(), old(self).last_index()),
            final(self).last_index() == (if old(self).path().len() > 0 && old(self).last_index()
                < usize::MAX {
                old(self).last_index() + 1
            } else {
                old(self).last_index()
            }),
            agrees(
                U::decoded(old(self).input(), old(self).position()),
                final(self).path(),
                r,
                if r is Ok {
                    r->Ok_0.model()
                } else {
                    Model::Opaque
                },
                final(self).position(),
            ),
    {
        self.step_index();
        self.read::<U>()
    }
}

} // verus!
