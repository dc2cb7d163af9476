//! Reading into the containers of the standard library, and reading arrays
//! and objects through a function of the caller.

use vstd::prelude::*;
use vstd::utf8::encode_utf8;
use crate::ascii::spaces_end;
use crate::compound::{
    lex_array_begin, lex_array_next, lex_key, lex_object_begin, lex_object_next, Opening,
};
use crate::decode::{agrees, Decoded, Model, TryFromJson};
use crate::error::{Error, ErrorKind, PathItem};
use crate::reader::{fails_with, truncated, Reader};
use crate::skip::skip_value;
use crate::token::{lex_token, Lex, Token};

verus! {

/// What the values of a list stand for, one by one.
pub open spec fn models<U: TryFromJson>(items: Seq<U>) -> Seq<Model> {
    Seq::new(items.len(), |j: int| items[j].model())
}

/// Reads the elements of an array from index `i`, where the element at
/// position `k` starts, to behind the `]`. `acc` is what the elements in
/// front of it stand for. A failure in an element, or behind it, is
/// reported at the position of the element.
pub open spec fn decoded_elements<U: TryFromJson>(s: Seq<u8>, i: int, k: nat, acc: Seq<Model>) -> Decoded
    decreases s.len() - i,
{
    let here = PathItem::Index(k as usize);
    match U::decoded(s, i) {
        Decoded::Fail { kind, at } => Decoded::Fail { kind, at: seq![here] + at },
        Decoded::Done { value, end } => if end < i || end > s.len() {
            Decoded::Fail { kind: ErrorKind::UnexpectedToken, at: seq![here] }
        } else {
            match lex_array_next(s, end) {
                Lex::Fail { kind } => Decoded::Fail { kind, at: seq![here] },
                Lex::Done { value: more, end: after } => if after <= end || after > s.len() {
                    Decoded::Fail { kind: ErrorKind::UnexpectedToken, at: seq![here] }
                } else if more {
                    decoded_elements::<U>(s, after, k + 1, acc.push(value))
                } else {
                    Decoded::Done { value: Model::List(acc.push(value)), end: after }
                },
            }
        },
    }
}

/// Reads a list: an array, element by element, or `null`, which is the
/// empty list.
pub open spec fn decoded_list<U: TryFromJson>(s: Seq<u8>, i: int) -> Decoded {
    match lex_array_begin(s, i) {
        Lex::Fail { kind } => Decoded::Fail { kind, at: Seq::empty() },
        Lex::Done { value: opening, end } => match opening {
            Opening::Absent | Opening::Empty => Decoded::Done {
                value: Model::List(Seq::empty()),
                end,
            },
            Opening::Elements => decoded_elements::<U>(s, end, 0, Seq::empty()),
        },
    }
}

/// Reads an optional value: nothing, where `n` comes next and is the start
/// of `null`, and a value of the type in every other case.
pub open spec fn decoded_option<U: TryFromJson>(s: Seq<u8>, i: int) -> Decoded {
    let p = spaces_end(s, i);
    if i <= p < s.len() && s[p] == 0x6e {
        match skip_value(s, i) {
            Lex::Done { value, end } => Decoded::Done { value: Model::Absent, end },
            Lex::Fail { kind } => Decoded::Fail { kind, at: Seq::empty() },
        }
    } else {
        match U::decoded(s, i) {
            Decoded::Done { value, end } => Decoded::Done {
                value: Model::Present(Box::new(value)),
                end,
            },
            Decoded::Fail { kind, at } => Decoded::Fail { kind, at },
        }
    }
}

impl<U: TryFromJson> TryFromJson for Option<U> {
    open spec fn model(&self) -> Model {
        match self {
            Some(v) => Model::Present(Box::new(v.model())),
            None => Model::Absent,
        }
    }

    open spec fn decoded(s: Seq<u8>, i: int) -> Decoded {
        decoded_option::<U>(s, i)
    }

    fn try_from_json(reader: &mut Reader) -> (r: Result<Self, Error>) {
        if reader.next_is(0x6e) {
            proof {
                assert(reader.path() + Seq::<PathItem>::empty() =~= reader.path());
            }
            reader.read_and_discard()?;
            Ok(None)
        } else {
            let v = U::try_from_json(reader)?;
            Ok(Some(v))
        }
    }
}

impl<U: TryFromJson> TryFromJson for Box<U> {
    open spec fn model(&self) -> Model {
        (**self).model()
    }

    open spec fn decoded(s: Seq<u8>, i: int) -> Decoded {
        U::decoded(s, i)
    }

    fn try_from_json(reader: &mut Reader) -> (r: Result<Self, Error>) {
        let v = U::try_from_json(reader)?;
        Ok(Box::new(v))
    }
}

impl<U: TryFromJson> TryFromJson for Vec<U> {
    open spec fn model(&self) -> Model {
        Model::List(models(self@))
    }

    open spec fn decoded(s: Seq<u8>, i: int) -> Decoded {
        decoded_list::<U>(s, i)
    }

    fn try_from_json(reader: &mut Reader) -> (r: Result<Self, Error>) {
        let ghost path = reader.path();
        let ghost s = reader.input();
        proof {
            assert(path + Seq::<PathItem>::empty() =~= path);
        }
        let opening = reader.begin_array()?;
        let mut items: Vec<U> = Vec::new();
        proof {
            assert(models(items@) =~= Seq::<Model>::empty());
        }
        match opening {
            Opening::Absent | Opening::Empty => {
                return Ok(items);
            },
            Opening::Elements => {},
        }
        let saved = reader.start_index();
        reader.push_path(PathItem::Index(0));
        let ghost start = reader.position();
        let ghost mut k: nat = 0;
        proof {
            reader.lemma_wf();
        }
        loop
            invariant
                reader.wf(),
                reader.input() == s,
                0 <= old(reader).position() < start <= reader.position() <= s.len(),
                old(reader).wf(),
                old(reader).input() == s,
                old(reader).path() == path,
                saved == old(reader).last_index(),
                reader.path().len() == path.len() + 1,
                reader.path().drop_last() == path,
                reader.last_index() == k,
                k + start <= reader.position(),
                s.len() <= usize::MAX,
                decoded_list::<U>(s, old(reader).position()) == decoded_elements::<U>(
                    s,
                    start,
                    0,
                    Seq::empty(),
                ),
                k == items@.len(),
                decoded_elements::<U>(s, start, 0, Seq::empty()) == decoded_elements::<U>(
                    s,
                    reader.position(),
                    k,
                    models(items@),
                ),
            decreases s.len() - reader.position(),
        {
            let ghost here = PathItem::Index(k as usize);
            let ghost at_element = reader.position();
            let element = match reader.read_index::<U>() {
                Ok(element) => element,
                Err(e) => {
                    proof {
                        match U::decoded(s, at_element) {
                            Decoded::Done { value, end } => {},
                            Decoded::Fail { kind, at } => {
                                assert(path.push(here) + at =~= path + (seq![here] + at));
                            },
                        }
                        assert(path.push(here).drop_last() =~= path);
                    }
                    reader.pop_path();
                    reader.restore_index(saved);
                    return Err(e);
                },
            };
            proof {
                assert(models(items@.push(element)) =~= models(items@).push(element.model()));
                assert(path.push(here).drop_last() =~= path);
                assert(path.push(here) =~= path + seq![here]);
            }
            items.push(element);
            let more = match reader.continue_array() {
                Ok(more) => more,
                Err(e) => {
                    reader.pop_path();
                    reader.restore_index(saved);
                    return Err(e);
                },
            };
            if !more {
                reader.pop_path();
                reader.restore_index(saved);
                return Ok(items);
            }
            proof {
                k = k + 1;
            }
        }
    }
}

/// Reads what follows the `k`-th of the `n` elements of a tuple: a comma
/// behind every element but the last, and `]` behind the last.
pub open spec fn lex_tuple_next(s: Seq<u8>, i: int, last: bool) -> Lex<()> {
    match lex_token(s, i) {
        Lex::Fail { kind } => Lex::Fail { kind },
        Lex::Done { value: token, end } => if (last && token == Token::ArrayEnd) || (!last
            && token == Token::Comma) {
            Lex::Done { value: (), end }
        } else {
            Lex::Fail { kind: ErrorKind::UnexpectedToken }
        },
    }
}

/// Reads one element of a tuple and what follows it. A failure is reported
/// at the position `k` of the element.
pub open spec fn decoded_part<U: TryFromJson>(s: Seq<u8>, i: int, k: usize, last: bool) -> Decoded {
    let here = PathItem::Index(k);
    match U::decoded(s, i) {
        Decoded::Fail { kind, at } => Decoded::Fail { kind, at: seq![here] + at },
        Decoded::Done { value, end } => match lex_tuple_next(s, end, last) {
            Lex::Fail { kind } => Decoded::Fail { kind, at: seq![here] },
            Lex::Done { value: u, end: after } => Decoded::Done { value, end: after },
        },
    }
}

/// Reads a pair: an array of two elements.
pub open spec fn decoded_pair<U: TryFromJson, V: TryFromJson>(s: Seq<u8>, i: int) -> Decoded {
    match lex_token(s, i) {
        Lex::Fail { kind } => Decoded::Fail { kind, at: Seq::empty() },
        Lex::Done { value: token, end } => if token == Token::ArrayBegin {
            match decoded_part::<U>(s, end, 0, false) {
                Decoded::Fail { kind, at } => Decoded::Fail { kind, at },
                Decoded::Done { value: a, end: e1 } => match decoded_part::<V>(s, e1, 1, true) {
                    Decoded::Fail { kind, at } => Decoded::Fail { kind, at },
                    Decoded::Done { value: b, end: e2 } => Decoded::Done {
                        value: Model::List(seq![a, b]),
                        end: e2,
                    },
                },
            }
        } else {
            Decoded::Fail { kind: ErrorKind::UnexpectedToken, at: Seq::empty() }
        },
    }
}

/// Reads a triple: an array of three elements.
pub open spec fn decoded_triple<U: TryFromJson, V: TryFromJson, W: TryFromJson>(
    s: Seq<u8>,
    i: int,
) -> Decoded {
    match lex_token(s, i) {
        Lex::Fail { kind } => Decoded::Fail { kind, at: Seq::empty() },
        Lex::Done { value: token, end } => if token == Token::ArrayBegin {
            match decoded_part::<U>(s, end, 0, false) {
                Decoded::Fail { kind, at } => Decoded::Fail { kind, at },
                Decoded::Done { value: a, end: e1 } => match decoded_part::<V>(s, e1, 1, false) {
                    Decoded::Fail { kind, at } => Decoded::Fail { kind, at },
                    Decoded::Done { value: b, end: e2 } => match decoded_part::<W>(
                        s,
                        e2,
                        2,
                        true,
                    ) {
                        Decoded::Fail { kind, at } => Decoded::Fail { kind, at },
                        Decoded::Done { value: c, end: e3 } => Decoded::Done {
                            value: Model::List(seq![a, b, c]),
                            end: e3,
                        },
                    },
                },
            }
        } else {
            Decoded::Fail { kind: ErrorKind::UnexpectedToken, at: Seq::empty() }
        },
    }
}

impl Reader {
    /// Reads the element at position `k` of a tuple, and what follows it.
    /// The path must have a last step, which is for the elements of the
    /// tuple.
    fn read_part<U: TryFromJson>(&mut self, k: usize, last: bool) -> (r: Result<U, Error>)
        requires
            old(self).wf(),
            old(self).path().len() > 0,
        ensures
            final(self).wf(),
            final(self).input() == old(self).input(),
            0 <= old(self).position() <= final(self).position() <= final(self).input().len(),
            final(self).last_index() == old(self).last_index(),
            final(self).path().len() == old(self).path().len(),
            final(self).path().drop_last() == old(self).path().drop_last(),
            agrees(
                decoded_part::<U>(old(self).input(), old(self).position(), k, last),
                old(self).path().drop_last(),
                r,
                if r is Ok {
                    r->Ok_0.model()
                } else {
                    Model::Opaque
                },
                final(self).position(),
            ),
    {
        let ghost outer = self.path().drop_last();
        let ghost here = PathItem::Index(k);
        self.replace_top(PathItem::Index(k));
        proof {
            assert(outer.push(here).drop_last() =~= outer);
            assert(outer.push(here) =~= outer + seq![here]);
            match U::decoded(self.input(), self.position()) {
                Decoded::Done { value, end } => {},
                Decoded::Fail { kind, at } => {
                    assert(outer.push(here) + at =~= outer + (seq![here] + at));
                },
            }
        }
        let value = self.read::<U>()?;
        let token = self.next_token()?;
        match token {
            Token::ArrayEnd => {
                if last {
                    return Ok(value);
                }
            },
            Token::Comma => {
                if !last {
                    return Ok(value);
                }
            },
            _ => {},
        }
        Err(
            self.expected(
                token,
                if last {
                    "']'"
                } else {
                    "','"
                },
            ),
        )
    }
}

impl<U: TryFromJson, V: TryFromJson> TryFromJson for (U, V) {
    open spec fn model(&self) -> Model {
        Model::List(seq![self.0.model(), self.1.model()])
    }

    open spec fn decoded(s: Seq<u8>, i: int) -> Decoded {
        decoded_pair::<U, V>(s, i)
    }

    fn try_from_json(reader: &mut Reader) -> (r: Result<Self, Error>) {
        let ghost path = reader.path();
        proof {
            assert(path + Seq::<PathItem>::empty() =~= path);
        }
        let token = reader.next_token()?;
        match token {
            Token::ArrayBegin => {},
            _ => {
                return Err(reader.refuse(token, "array[2]"));
            },
        }
        reader.push_path(PathItem::Index(0));
        proof {
            assert(path.push(PathItem::Index(0)).drop_last() =~= path);
        }
        let a = match reader.read_part::<U>(0, false) {
            Ok(a) => a,
            Err(e) => {
                reader.pop_path();
                return Err(e);
            },
        };
        let b = match reader.read_part::<V>(1, true) {
            Ok(b) => b,
            Err(e) => {
                reader.pop_path();
                return Err(e);
            },
        };
        reader.pop_path();
        Ok((a, b))
    }
}

impl<U: TryFromJson, V: TryFromJson, W: TryFromJson> TryFromJson for (U, V, W) {
    open spec fn model(&self) -> Model {
        Model::List(seq![self.0.model(), self.1.model(), self.2.model()])
    }

    open spec fn decoded(s: Seq<u8>, i: int) -> Decoded {
        decoded_triple::<U, V, W>(s, i)
    }

    fn try_from_json(reader: &mut Reader) -> (r: Result<Self, Error>) {
        let ghost path = reader.path();
        proof {
            assert(path + Seq::<PathItem>::empty() =~= path);
        }
        let token = reader.next_token()?;
        match token {
            Token::ArrayBegin => {},
            _ => {
                return Err(reader.refuse(token, "array[3]"));
            },
        }
        reader.push_path(PathItem::Index(0));
        proof {
            assert(path.push(PathItem::Index(0)).drop_last() =~= path);
        }
        let a = match reader.read_part::<U>(0, false) {
            Ok(a) => a,
            Err(e) => {
                reader.pop_path();
                return Err(e);
            },
        };
        let b = match reader.read_part::<V>(1, false) {
            Ok(b) => b,
            Err(e) => {
                reader.pop_path();
                return Err(e);
            },
        };
        let c = match reader.read_part::<W>(2, true) {
            Ok(c) => c,
            Err(e) => {
                reader.pop_path();
                return Err(e);
            },
        };
        reader.pop_path();
        Ok((a, b, c))
    }
}

/// One call of the function of the caller: the reader as it was handed
/// to the function, the reader as the function left it, and what the
/// function returned.
pub struct Turn {
    pub before: Reader,
    pub after: Reader,
    pub outcome: Result<(), Error>,
}

/// The reader that is handed to the first call for an array: it stands
/// behind the `[`, at `end`, its path is one step longer, and its count of
/// elements is zero.
pub open spec fn array_first(s: Seq<u8>, path: Seq<PathItem>, end: int, turn: Turn) -> bool {
    &&& turn.before.wf()
    &&& turn.before.input() == s
    &&& turn.before.position() == end
    &&& turn.before.path() == path.push(PathItem::Index(0))
    &&& turn.before.last_index() == 0
}

/// How one call for an array leads to the next: the call succeeded, a
/// comma follows where it left the reader, and the next call gets the
/// reader behind that comma, with the path and the count as the call left
/// them.
pub open spec fn array_linked(s: Seq<u8>, turns: Seq<Turn>, k: int) -> bool {
    let left = turns[k].after;
    let next = turns[k + 1].before;
    &&& turns[k].outcome is Ok
    &&& lex_array_next(s, left.position()) == (Lex::Done { value: true, end: next.position() })
    &&& next.wf()
    &&& next.input() == s
    &&& next.path() == left.path()
    &&& next.last_index() == left.last_index()
}

/// What the last call for an array leads to. A failure of the call is the
/// result. After a success the `]` must follow where the call left the
/// reader, and the result is `true`; anything else there is a failure,
/// at the path as the call left it.
pub open spec fn array_last(s: Seq<u8>, turn: Turn, r: Result<bool, Error>, position: int) -> bool {
    match turn.outcome {
        Err(e) => r == Err::<bool, Error>(e),
        Ok(_) => match lex_array_next(s, turn.after.position()) {
            Lex::Done { value: more, end } => !more && r == Ok::<bool, Error>(true) && position
                == end,
            Lex::Fail { kind } => fails_with(r, kind, turn.after.path()),
        },
    }
}

/// The course of reading an array that has elements through a function of
/// the caller: the calls that were made, one for each element that was
/// reached, and what came of them.
pub open spec fn array_course(
    s: Seq<u8>,
    path: Seq<PathItem>,
    end: int,
    turns: Seq<Turn>,
    r: Result<bool, Error>,
    position: int,
) -> bool {
    &&& turns.len() >= 1
    &&& array_first(s, path, end, turns[0])
    &&& forall|k: int| 0 <= k < turns.len() - 1 ==> #[trigger] array_linked(s, turns, k)
    &&& array_last(s, turns.last(), r, position)
}

/// One call of the function of the caller for a member of an object: the
/// key of the member, the reader as it was handed to the function, the
/// reader as the function left it, and what the function returned.
pub struct MemberTurn {
    pub key: Seq<u8>,
    pub before: Reader,
    pub after: Reader,
    pub outcome: Result<(), Error>,
}

/// What a call for a member starts from: the key of the member and the
/// colon behind it are read from `from` on, and the call gets the reader
/// behind the colon, with the path and the count of elements as given.
/// Where keys go through the scratch buffer, the buffer holds the key.
pub open spec fn member_ready(
    s: Seq<u8>,
    from: int,
    text: bool,
    path: Seq<PathItem>,
    count: int,
    turn: MemberTurn,
) -> bool {
    &&& lex_key(s, from, text) == (Lex::Done {
        value: Some(turn.key),
        end: turn.before.position(),
    })
    &&& turn.before.wf()
    &&& turn.before.input() == s
    &&& turn.before.path() == path
    &&& turn.before.last_index() == count
    &&& !text ==> turn.before.scratch() == truncated(turn.key)
}

/// How one call for a member leads to the next: the call succeeded, a
/// comma follows where it left the reader, and the next call starts from
/// the key behind that comma.
pub open spec fn member_linked(s: Seq<u8>, text: bool, turns: Seq<MemberTurn>, k: int) -> bool {
    let left = turns[k].after;
    &&& turns[k].outcome is Ok
    &&& exists|from: int| #[trigger]
        lex_object_next(s, left.position()) == (Lex::Done { value: true, end: from })
            && member_ready(s, from, text, left.path(), left.last_index(), turns[k + 1])
}

/// What an object comes to where no call is made, or no further call:
/// from `from` on, where a key could come, the `}` is read, and the result
/// is `true`; or what stands there is no key with its colon, and that is
/// a failure.
pub open spec fn object_closed(
    s: Seq<u8>,
    from: int,
    text: bool,
    path: Seq<PathItem>,
    r: Result<bool, Error>,
    position: int,
) -> bool {
    match lex_key(s, from, text) {
        Lex::Done { value: None, end } => r == Ok::<bool, Error>(true) && position == end,
        Lex::Done { value: Some(_), end } => false,
        Lex::Fail { kind } => fails_with(r, kind, path),
    }
}

/// What the last call for a member leads to. A failure of the call is the
/// result. After a success the `}` follows where the call left the reader,
/// at once or behind a comma, and the result is `true`; anything else
/// there is a failure, at the path as the call left it.
pub open spec fn member_last(
    s: Seq<u8>,
    text: bool,
    turn: MemberTurn,
    r: Result<bool, Error>,
    position: int,
) -> bool {
    match turn.outcome {
        Err(e) => r == Err::<bool, Error>(e),
        Ok(_) => match lex_object_next(s, turn.after.position()) {
            Lex::Done { value: more, end } => if more {
                object_closed(s, end, text, turn.after.path(), r, position)
            } else {
                r == Ok::<bool, Error>(true) && position == end
            },
            Lex::Fail { kind } => fails_with(r, kind, turn.after.path()),
        },
    }
}

/// The course of reading an object through a function of the caller: the
/// calls that were made, one for each member that was reached, and what
/// came of them. `end` is the index behind the `{`.
pub open spec fn object_course(
    s: Seq<u8>,
    path: Seq<PathItem>,
    count: int,
    end: int,
    text: bool,
    turns: Seq<MemberTurn>,
    r: Result<bool, Error>,
    position: int,
) -> bool {
    if turns.len() == 0 {
        object_closed(s, end, text, path, r, position)
    } else {
        &&& member_ready(s, end, text, path, count, turns[0])
        &&& forall|k: int| 0 <= k < turns.len() - 1 ==> #[trigger] member_linked(s, text, turns, k)
        &&& member_last(s, text, turns.last(), r, position)
    }
}

/// Whether the `]` that ends an array is read from `q` on and `end` lies
/// behind it.
pub open spec fn closes_array(s: Seq<u8>, q: int, end: int) -> bool {
    lex_array_next(s, q) == (Lex::Done { value: false, end })
}

/// Whether the `}` that ends an object is read from `q` on and `end` lies
/// behind it: where a key could come, or behind a member.
pub open spec fn closes_object(s: Seq<u8>, q: int, text: bool, end: int) -> bool {
    ||| lex_key(s, q, text) == (Lex::Done { value: None::<Seq<u8>>, end })
    ||| lex_object_next(s, q) == (Lex::Done { value: false, end })
}

/// What reading the members of an object through a function of the caller
/// comes to, as far as the function has no say in it. `end` is the index
/// behind the `{`; `r` is the result and `position` the index behind what
/// was read.
///
/// - An object that ends at once gives `true`, and a first key that is
///   malformed, or has no colon behind it, fails, before the function is
///   called at all.
/// - Every success is `true`, and then the `}` has been read somewhere at
///   or behind `end`, and `position` lies behind it.
pub open spec fn object_outcome(
    s: Seq<u8>,
    end: int,
    text: bool,
    path: Seq<PathItem>,
    r: Result<bool, Error>,
    position: int,
) -> bool {
    &&& end <= position
    &&& r is Ok ==> r == Ok::<bool, Error>(true) && exists|q: int|
        end <= q && #[trigger] closes_object(s, q, text, position)
    &&& match lex_key(s, end, text) {
        Lex::Done { value: None, end: after } => r == Ok::<bool, Error>(true) && position == after,
        Lex::Done { value: Some(_), end: after } => true,
        Lex::Fail { kind } => fails_with(r, kind, path),
    }
}

impl Reader {
    /// Reads an array and calls `on_value` where each element starts; the
    /// function is to read the element, with `read_index`. `null` in place
    /// of the array is accepted, and the result then is `false`.
    ///
    /// While the elements are read, the path is one step longer, and the
    /// count of the elements starts at zero. Both are as before when the
    /// array has been read, or has failed.
    ///
    /// For an array that has elements the contract tells the course of the
    /// reading: there are calls of `on_value`, one behind the other, each
    /// on the reader as the call before and the comma behind it left it,
    /// and the result is what the last of them, and what follows it, comes
    /// to.
    #[verifier::loop_isolation(false)]
    pub fn read_array<F: FnMut(&mut Reader) -> Result<(), Error>>(&mut self, mut on_value: F) -> (r:
        Result<bool, Error>)
        requires
            old(self).wf(),
            forall|x: &mut Reader| x.wf() ==> call_requires(on_value, (x,)),
            forall|x: &mut Reader, out: Result<(), Error>|
                x.wf() && call_ensures(on_value, (x,), out) ==> {
                    &&& final(x).wf()
                    &&& final(x).input() == x.input()
                    &&& x.position() <= final(x).position()
                    &&& final(x).path().len() == x.path().len()
                    &&& final(x).path().drop_last() == x.path().drop_last()
                },
        ensures
            final(self).follows(old(self)),
            final(self).last_index() == old(self).last_index(),
            match lex_array_begin(old(self).input(), old(self).position()) {
                Lex::Fail { kind } => fails_with(r, kind, old(self).path()),
                Lex::Done { value: opening, end } => match opening {
                    Opening::Absent => r == Ok::<bool, Error>(false) && final(self).position()
                        == end,
                    Opening::Empty => r == Ok::<bool, Error>(true) && final(self).position() == end,
                    Opening::Elements => {
                        &&& end <= final(self).position()
                        &&& r is Ok ==> r == Ok::<bool, Error>(true) && exists|q: int|
                            end <= q && #[trigger] closes_array(
                                old(self).input(),
                                q,
                                final(self).position(),
                            )
                        &&& exists|turns: Seq<Turn>| #[trigger]
                            array_course(
                                old(self).input(),
                                old(self).path(),
                                end,
                                turns,
                                r,
                                final(self).position(),
                            ) && forall|k: int|
                                #![trigger turns[k]]
                                0 <= k < turns.len() ==> exists|x: &mut Reader|
                                    *x == turns[k].before && *final(x) == turns[k].after
                                        && #[trigger] call_ensures(
                                        on_value,
                                        (x,),
                                        turns[k].outcome,
                                    )
                    },
                },
            },
    {
        let ghost path = self.path();
        let ghost s = self.input();
        let opening = self.begin_array()?;
        match opening {
            Opening::Absent => {
                return Ok(false);
            },
            Opening::Empty => {
                return Ok(true);
            },
            Opening::Elements => {},
        }
        let saved = self.start_index();
        self.push_path(PathItem::Index(0));
        let ghost start = self.position();
        let ghost function = on_value;
        let ghost mut turns: Seq<Turn> = Seq::empty();
        proof {
            self.lemma_wf();
            assert(path.push(PathItem::Index(0)).drop_last() =~= path);
        }
        loop
            invariant
                self.wf(),
                self.input() == s,
                0 <= old(self).position() < start <= self.position() <= s.len(),
                self.path().len() == path.len() + 1,
                self.path().drop_last() == path,
                on_value == function,
                turns.len() == 0 ==> self.position() == start && self.path() == path.push(
                    PathItem::Index(0),
                ) && self.last_index() == 0,
                turns.len() > 0 ==> {
                    &&& array_first(s, path, start, turns[0])
                    &&& turns.last().outcome is Ok
                    &&& lex_array_next(s, turns.last().after.position()) == (Lex::Done {
                        value: true,
                        end: self.position(),
                    })
                    &&& self.path() == turns.last().after.path()
                    &&& self.last_index() == turns.last().after.last_index()
                },
                forall|k: int| 0 <= k < turns.len() - 1 ==> #[trigger] array_linked(s, turns, k),
                forall|k: int|
                    #![trigger turns[k]]
                    0 <= k < turns.len() ==> exists|x: &mut Reader|
                        *x == turns[k].before && *final(x) == turns[k].after
                            && #[trigger] call_ensures(on_value, (x,), turns[k].outcome),
            decreases s.len() - self.position(),
        {
            let ghost before = *self;
            let outcome = on_value(self);
            proof {
                self.lemma_wf();
                let turn = Turn { before, after: *self, outcome };
                let was = turns;
                turns = turns.push(turn);
                assert forall|k: int| #![trigger turns[k]] 0 <= k < turns.len() implies exists|
                    x: &mut Reader,
                |
                    *x == turns[k].before && *final(x) == turns[k].after && #[trigger] call_ensures(
                        on_value,
                        (x,),
                        turns[k].outcome,
                    ) by {
                    if k < was.len() {
                        assert(turns[k] == was[k]);
                    }
                }
                assert forall|k: int| 0 <= k < turns.len() - 1 implies #[trigger] array_linked(
                    s,
                    turns,
                    k,
                ) by {
                    if k + 1 < was.len() {
                        assert(array_linked(s, was, k));
                    }
                }
                if was.len() > 0 {
                    assert(turns[0] == was[0]);
                }
            }
            let ghost q = self.position();
            let more = match self.after_element(outcome) {
                Ok(more) => more,
                Err(e) => {
                    proof {
                        assert(array_course(
                            s,
                            path,
                            start,
                            turns,
                            Err::<bool, Error>(e),
                            self.position(),
                        ));
                    }
                    self.pop_path();
                    self.restore_index(saved);
                    return Err(e);
                },
            };
            if !more {
                proof {
                    assert(closes_array(s, q, self.position()));
                    assert(array_course(
                        s,
                        path,
                        start,
                        turns,
                        Ok::<bool, Error>(true),
                        self.position(),
                    ));
                }
                self.pop_path();
                self.restore_index(saved);
                return Ok(true);
            }
        }
    }

    /// Reads an object and calls `on_value` with the key of each member,
    /// where the value of the member starts; the function is to read the
    /// value, with `read_prop`. `null` in place of the object is accepted,
    /// and the result then is `false`.
    ///
    /// The contract tells the course of the reading: there are calls of
    /// `on_value`, one for each member that was reached, each with the key
    /// of its member and on the reader behind the colon, and the result is
    /// what the last of them, and what follows it, comes to.
    #[verifier::loop_isolation(false)]
    pub fn read_object<F: FnMut(&mut Reader, String) -> Result<(), Error>>(
        &mut self,
        mut on_value: F,
    ) -> (r: Result<bool, Error>)
        requires
            old(self).wf(),
            forall|x: &mut Reader, key: String| x.wf() ==> call_requires(on_value, (x, key)),
            forall|x: &mut Reader, key: String, out: Result<(), Error>|
                x.wf() && call_ensures(on_value, (x, key), out) ==> {
                    &&& final(x).wf()
                    &&& final(x).input() == x.input()
                    &&& x.position() <= final(x).position()
                    &&& final(x).path() == x.path()
                    &&& final(x).last_index() == x.last_index()
                },
        ensures
            final(self).follows(old(self)),
            final(self).last_index() == old(self).last_index(),
            match lex_object_begin(old(self).input(), old(self).position()) {
                Lex::Fail { kind } => fails_with(r, kind, old(self).path()),
                Lex::Done { value: present, end } => if present {
                    &&& object_outcome(
                        old(self).input(),
                        end,
                        true,
                        old(self).path(),
                        r,
                        final(self).position(),
                    )
                    &&& exists|turns: Seq<MemberTurn>| #[trigger]
                        object_course(
                            old(self).input(),
                            old(self).path(),
                            old(self).last_index(),
                            end,
                            true,
                            turns,
                            r,
                            final(self).position(),
                        ) && forall|k: int|
                            #![trigger turns[k]]
                            0 <= k < turns.len() ==> exists|x: &mut Reader, key: String|
                                encode_utf8(key@) == turns[k].key && *x == turns[k].before && *final(x) == turns[k].after
                                    && #[trigger] call_ensures(
                                    on_value,
                                    (x, key),
                                    turns[k].outcome,
                                )
                } else {
                    r == Ok::<bool, Error>(false) && final(self).position() == end
                },
            },
    {
        let ghost s = self.input();
        let ghost path = self.path();
        let ghost count = self.last_index();
        let present = self.begin_object()?;
        if !present {
            return Ok(false);
        }
        let ghost start = self.position();
        let ghost function = on_value;
        let ghost mut turns: Seq<MemberTurn> = Seq::empty();
        proof {
            self.lemma_wf();
        }
        loop
            invariant
                self.follows(old(self)),
                self.last_index() == count,
                self.input() == s,
                old(self).position() < start <= self.position() <= s.len(),
                on_value == function,
                turns.len() == 0 ==> self.position() == start,
                turns.len() > 0 ==> {
                    &&& member_ready(s, start, true, path, count, turns[0])
                    &&& turns.last().outcome is Ok
                    &&& lex_object_next(s, turns.last().after.position()) == (Lex::Done {
                        value: true,
                        end: self.position(),
                    })
                    &&& turns.last().after.path() == path
                    &&& turns.last().after.last_index() == count
                },
                forall|k: int|
                    0 <= k < turns.len() - 1 ==> #[trigger] member_linked(s, true, turns, k),
                forall|k: int|
                    #![trigger turns[k]]
                    0 <= k < turns.len() ==> exists|x: &mut Reader, key: String|
                        encode_utf8(key@) == turns[k].key && *x == turns[k].before && *final(x) == turns[k].after
                            && #[trigger] call_ensures(on_value, (x, key), turns[k].outcome),
            decreases s.len() - self.position(),
        {
            let ghost q = self.position();
            let found = match self.read_key() {
                Ok(found) => found,
                Err(e) => {
                    proof {
                        assert(object_course(
                            s,
                            path,
                            count,
                            start,
                            true,
                            turns,
                            Err::<bool, Error>(e),
                            self.position(),
                        ));
                    }
                    return Err(e);
                },
            };
            let key = match found {
                Some(key) => key,
                None => {
                    proof {
                        assert(closes_object(s, q, true, self.position()));
                        assert(object_course(
                            s,
                            path,
                            count,
                            start,
                            true,
                            turns,
                            Ok::<bool, Error>(true),
                            self.position(),
                        ));
                    }
                    return Ok(true);
                },
            };
            let ghost bytes = encode_utf8(key@);
            let ghost before = *self;
            let outcome = on_value(self, key);
            proof {
                self.lemma_wf();
                let turn = MemberTurn { key: bytes, before, after: *self, outcome };
                let was = turns;
                turns = turns.push(turn);
                assert forall|k: int| #![trigger turns[k]] 0 <= k < turns.len() implies exists|
                    x: &mut Reader, key: String,
                |
                    encode_utf8(key@) == turns[k].key && *x == turns[k].before && *final(x) == turns[k].after
                        && #[trigger] call_ensures(on_value, (x, key), turns[k].outcome) by {
                    if k < was.len() {
                        assert(turns[k] == was[k]);
                    }
                }
                assert forall|k: int| 0 <= k < turns.len() - 1 implies #[trigger] member_linked(
                    s,
                    true,
                    turns,
                    k,
                ) by {
                    if k + 1 < was.len() {
                        assert(member_linked(s, true, was, k));
                        assert(turns[k] == was[k]);
                        assert(turns[k + 1] == was[k + 1]);
                    } else {
                        assert(lex_object_next(s, was.last().after.position()) == (Lex::Done {
                            value: true,
                            end: q,
                        }));
                        assert(member_ready(s, q, true, path, count, turn));
                    }
                }
                if was.len() > 0 {
                    assert(turns[0] == was[0]);
                }
            }
            let ghost q = self.position();
            let more = match self.after_member(outcome) {
                Ok(more) => more,
                Err(e) => {
                    proof {
                        assert(object_course(
                            s,
                            path,
                            count,
                            start,
                            true,
                            turns,
                            Err::<bool, Error>(e),
                            self.position(),
                        ));
                    }
                    return Err(e);
                },
            };
            if !more {
                proof {
                    assert(closes_object(s, q, true, self.position()));
                    assert(object_course(
                        s,
                        path,
                        count,
                        start,
                        true,
                        turns,
                        Ok::<bool, Error>(true),
                        self.position(),
                    ));
                }
                return Ok(true);
            }
        }
    }

    /// Like `read_object`, but the key of each member is not handed to
    /// `on_value`: it is in the scratch buffer, as far as it fits, for
    /// `get_key` to hand out.
    #[verifier::loop_isolation(false)]
    pub fn read_object_use_buffer<F: FnMut(&mut Reader) -> Result<(), Error>>(
        &mut self,
        mut on_value: F,
    ) -> (r: Result<bool, Error>)
        requires
            old(self).wf(),
            forall|x: &mut Reader| x.wf() ==> call_requires(on_value, (x,)),
            forall|x: &mut Reader, out: Result<(), Error>|
                x.wf() && call_ensures(on_value, (x,), out) ==> {
                    &&& final(x).wf()
                    &&& final(x).input() == x.input()
                    &&& x.position() <= final(x).position()
                    &&& final(x).path() == x.path()
                    &&& final(x).last_index() == x.last_index()
                },
        ensures
            final(self).follows(old(self)),
            final(self).last_index() == old(self).last_index(),
            match lex_object_begin(old(self).input(), old(self).position()) {
                Lex::Fail { kind } => fails_with(r, kind, old(self).path()),
                Lex::Done { value: present, end } => if present {
                    &&& object_outcome(
                        old(self).input(),
                        end,
                        false,
                        old(self).path(),
                        r,
                        final(self).position(),
                    )
                    &&& exists|turns: Seq<MemberTurn>| #[trigger]
                        object_course(
                            old(self).input(),
                            old(self).path(),
                            old(self).last_index(),
                            end,
                            false,
                            turns,
                            r,
                            final(self).position(),
                        ) && forall|k: int|
                            #![trigger turns[k]]
                            0 <= k < turns.len() ==> exists|x: &mut Reader|
                                *x == turns[k].before && *final(x) == turns[k].after
                                    && #[trigger] call_ensures(
                                    on_value,
                                    (x,),
                                    turns[k].outcome,
                                )
                } else {
                    r == Ok::<bool, Error>(false) && final(self).position() == end
                },
            },
    {
        let ghost s = self.input();
        let ghost path = self.path();
        let ghost count = self.last_index();
        let present = self.begin_object()?;
        if !present {
            return Ok(false);
        }
        let ghost start = self.position();
        let ghost function = on_value;
        let ghost mut turns: Seq<MemberTurn> = Seq::empty();
        proof {
            self.lemma_wf();
        }
        loop
            invariant
                self.follows(old(self)),
                self.last_index() == count,
                self.input() == s,
                old(self).position() < start <= self.position() <= s.len(),
                on_value == function,
                turns.len() == 0 ==> self.position() == start,
                turns.len() > 0 ==> {
                    &&& member_ready(s, start, false, path, count, turns[0])
                    &&& turns.last().outcome is Ok
                    &&& lex_object_next(s, turns.last().after.position()) == (Lex::Done {
                        value: true,
                        end: self.position(),
                    })
                    &&& turns.last().after.path() == path
                    &&& turns.last().after.last_index() == count
                },
                forall|k: int|
                    0 <= k < turns.len() - 1 ==> #[trigger] member_linked(s, false, turns, k),
                forall|k: int|
                    #![trigger turns[k]]
                    0 <= k < turns.len() ==> exists|x: &mut Reader|
                        *x == turns[k].before && *final(x) == turns[k].after
                            && #[trigger] call_ensures(on_value, (x,), turns[k].outcome),
            decreases s.len() - self.position(),
        {
            let ghost q = self.position();
            let found = match self.read_key_to_buffer() {
                Ok(found) => found,
                Err(e) => {
                    proof {
                        assert(object_course(
                            s,
                            path,
                            count,
                            start,
                            false,
                            turns,
                            Err::<bool, Error>(e),
                            self.position(),
                        ));
                    }
                    return Err(e);
                },
            };
            if !found {
                proof {
                    assert(closes_object(s, q, false, self.position()));
                    assert(object_course(
                        s,
                        path,
                        count,
                        start,
                        false,
                        turns,
                        Ok::<bool, Error>(true),
                        self.position(),
                    ));
                }
                return Ok(true);
            }
            let ghost bytes = lex_key(s, q, false)->Done_value->Some_0;
            let ghost before = *self;
            let outcome = on_value(self);
            proof {
                self.lemma_wf();
                let turn = MemberTurn { key: bytes, before, after: *self, outcome };
                let was = turns;
                turns = turns.push(turn);
                assert forall|k: int| #![trigger turns[k]] 0 <= k < turns.len() implies exists|
                    x: &mut Reader,
                |
                    *x == turns[k].before && *final(x) == turns[k].after
                        && #[trigger] call_ensures(on_value, (x,), turns[k].outcome) by {
                    if k < was.len() {
                        assert(turns[k] == was[k]);
                    }
                }
                assert forall|k: int| 0 <= k < turns.len() - 1 implies #[trigger] member_linked(
                    s,
                    false,
                    turns,
                    k,
                ) by {
                    if k + 1 < was.len() {
                        assert(member_linked(s, false, was, k));
                        assert(turns[k] == was[k]);
                        assert(turns[k + 1] == was[k + 1]);
                    } else {
                        assert(lex_object_next(s, was.last().after.position()) == (Lex::Done {
                            value: true,
                            end: q,
                        }));
                        assert(member_ready(s, q, false, path, count, turn));
                    }
                }
                if was.len() > 0 {
                    assert(turns[0] == was[0]);
                }
            }
            let ghost q = self.position();
            let more = match self.after_member(outcome) {
                Ok(more) => more,
                Err(e) => {
                    proof {
                        assert(object_course(
                            s,
                            path,
                            count,
                            start,
                            false,
                            turns,
                            Err::<bool, Error>(e),
                            self.position(),
                        ));
                    }
                    return Err(e);
                },
            };
            if !more {
                proof {
                    assert(closes_object(s, q, false, self.position()));
                    assert(object_course(
                        s,
                        path,
                        count,
                        start,
                        false,
                        turns,
                        Ok::<bool, Error>(true),
                        self.position(),
                    ));
                }
                return Ok(true);
            }
        }
    }
}

/// A check that a value passes or fails once it has been read. A type that
/// leaves the check as it is passes, whatever the value.
pub trait ValidateJson: Sized {
    /// Whether the value passes the check. A type that says nothing here
    /// lets every value pass.
    open spec fn passes(&self) -> bool {
        true
    }

    /// Checks a value that has been read. A value that passes comes back
    /// as it is; for one that does not, the implementation says what comes
    /// back.
    fn validate_json(self) -> (r: Result<Self, String>)
        ensures
            self.passes() ==> r == Ok::<Self, String>(self),
    {
        Ok(self)
    }
}

} // verus!
