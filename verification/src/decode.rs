//! Reading a value into the type that the caller names.

use vstd::prelude::*;
use vstd::utf8::{encode_utf8, valid_utf8};
use crate::error::{Error, ErrorKind, PathItem};
use crate::numeric::lex_integer;
use crate::reader::Reader;
use crate::scalar::{lex_bool, lex_char, lex_text};
use crate::skip::skip_value;
use crate::token::Lex;
use crate::value::{lex_value, Node, Value};

verus! {

/// What a value that was read stands for in contracts.
pub enum Model {
    /// A value of which nothing is stated.
    Opaque,
    Unit,
    Bool(bool),
    Int(int),
    Char(char),
    /// Text, as its UTF-8 bytes.
    Text(Seq<u8>),
    Node(Node),
    /// An optional value that is not there.
    Absent,
    /// An optional value that is there.
    Present(Box<Model>),
    List(Seq<Model>),
}

/// What reading a value of some type comes to: what the value stands for
/// and the index behind it, or the kind of the failure and the steps from
/// the reader's path down to where it happened.
pub enum Decoded {
    Done { value: Model, end: int },
    Fail { kind: ErrorKind, at: Seq<PathItem> },
}

/// What a read comes to that fails, if it fails, where the reader stands.
pub open spec fn plain<T>(lex: Lex<T>, model: spec_fn(T) -> Model) -> Decoded {
    match lex {
        Lex::Done { value, end } => Decoded::Done { value: model(value), end },
        Lex::Fail { kind } => Decoded::Fail { kind, at: Seq::empty() },
    }
}

/// Whether the result `r` of a read, which stands for `model` where it is a
/// value, and the index `position` behind the read are what `decoded` says,
/// for a reader whose path was `path`.
pub open spec fn agrees<T>(
    decoded: Decoded,
    path: Seq<PathItem>,
    r: Result<T, Error>,
    model: Model,
    position: int,
) -> bool {
    match decoded {
        Decoded::Done { value, end } => r is Ok && model == value && position == end,
        Decoded::Fail { kind, at } => r is Err && r->Err_0.kind == kind && r->Err_0.path@ == path
            + at,
    }
}

/// A type that can be read from JSON.
///
/// An implementation says in `decoded` what reading comes to, as a function
/// of the document and of the place in it, and in `model` what a value of
/// the type stands for. One that says neither promises only that the reader
/// is left in order.
pub trait TryFromJson: Sized {
    /// What `self` stands for.
    open spec fn model(&self) -> Model {
        Model::Opaque
    }

    /// What reading a value of the type from index `i` of `s` comes to.
    open spec fn decoded(s: Seq<u8>, i: int) -> Decoded {
        arbitrary()
    }

    /// Reads one value of the type.
    fn try_from_json(reader: &mut Reader) -> (r: Result<Self, Error>)
        requires
            old(reader).wf(),
        ensures
            final(reader).follows(old(reader)),
            final(reader).last_index() == old(reader).last_index(),
            agrees(
                Self::decoded(old(reader).input(), old(reader).position()),
                old(reader).path(),
                r,
                if r is Ok {
                    r->Ok_0.model()
                } else {
                    Model::Opaque
                },
                final(reader).position(),
            ),
    ;
}

impl TryFromJson for () {
    open spec fn model(&self) -> Model {
        Model::Unit
    }

    open spec fn decoded(s: Seq<u8>, i: int) -> Decoded {
        plain(skip_value(s, i), |u: ()| Model::Unit)
    }

    fn try_from_json(reader: &mut Reader) -> (r: Result<Self, Error>) {
        proof {
            assert(reader.path() + Seq::<PathItem>::empty() =~= reader.path());
        }
        reader.read_and_discard()
    }
}

impl TryFromJson for bool {
    open spec fn model(&self) -> Model {
        Model::Bool(*self)
    }

    open spec fn decoded(s: Seq<u8>, i: int) -> Decoded {
        plain(lex_bool(s, i), |b: bool| Model::Bool(b))
    }

    fn try_from_json(reader: &mut Reader) -> (r: Result<Self, Error>) {
        proof {
            assert(reader.path() + Seq::<PathItem>::empty() =~= reader.path());
        }
        reader.read_bool()
    }
}

impl TryFromJson for char {
    open spec fn model(&self) -> Model {
        Model::Char(*self)
    }

    open spec fn decoded(s: Seq<u8>, i: int) -> Decoded {
        plain(lex_char(s, i), |c: char| Model::Char(c))
    }

    fn try_from_json(reader: &mut Reader) -> (r: Result<Self, Error>) {
        proof {
            assert(reader.path() + Seq::<PathItem>::empty() =~= reader.path());
        }
        reader.read_char()
    }
}

/// What reading text comes to: the text of the value, which must be UTF-8.
pub open spec fn decoded_text(s: Seq<u8>, i: int) -> Decoded {
    match lex_text(s, i) {
        Lex::Done { value, end } => if valid_utf8(value) {
            Decoded::Done { value: Model::Text(value), end }
        } else {
            Decoded::Fail { kind: ErrorKind::InvalidUtf8, at: Seq::empty() }
        },
        Lex::Fail { kind } => Decoded::Fail { kind, at: Seq::empty() },
    }
}

impl TryFromJson for String {
    open spec fn model(&self) -> Model {
        Model::Text(encode_utf8(self@))
    }

    open spec fn decoded(s: Seq<u8>, i: int) -> Decoded {
        decoded_text(s, i)
    }

    fn try_from_json(reader: &mut Reader) -> (r: Result<Self, Error>) {
        proof {
            assert(reader.path() + Seq::<PathItem>::empty() =~= reader.path());
        }
        reader.read_string()
    }
}

impl TryFromJson for Value {
    open spec fn model(&self) -> Model {
        Model::Node(self@)
    }

    open spec fn decoded(s: Seq<u8>, i: int) -> Decoded {
        plain(lex_value(s, i), |n: Node| Model::Node(n))
    }

    fn try_from_json(reader: &mut Reader) -> (r: Result<Self, Error>)
        ensures
            r is Ok ==> r->Ok_0.well_formed(),
    {
        proof {
            assert(reader.path() + Seq::<PathItem>::empty() =~= reader.path());
        }
        reader.read_value()
    }
}

impl Reader {
    /// Reads one value into the type that the caller names.
    pub fn read<U: TryFromJson>(&mut self) -> (r: Result<U, Error>)
        requires
            old(self).wf(),
        ensures
            final(self).follows(old(self)),
            final(self).last_index() == old(self).last_index(),
            agrees(
                U::decoded(old(self).input(), old(self).position()),
                old(self).path(),
                r,
                if r is Ok {
                    r->Ok_0.model()
                } else {
                    Model::Opaque
                },
                final(self).position(),
            ),
    {
        U::try_from_json(self)
    }
}

} // verus!

verus! {

impl TryFromJson for i8 {
    open spec fn model(&self) -> Model {
        Model::Int(*self as int)
    }

    open spec fn decoded(s: Seq<u8>, i: int) -> Decoded {
        plain(lex_integer(s, i, i8::MIN as int, i8::MAX as int), |v: int| Model::Int(v))
    }

    fn try_from_json(reader: &mut Reader) -> (r: Result<Self, Error>) {
        proof {
            assert(reader.path() + Seq::<PathItem>::empty() =~= reader.path());
        }
        reader.read_i8()
    }
}

impl TryFromJson for i16 {
    open spec fn model(&self) -> Model {
        Model::Int(*self as int)
    }

    open spec fn decoded(s: Seq<u8>, i: int) -> Decoded {
        plain(lex_integer(s, i, i16::MIN as int, i16::MAX as int), |v: int| Model::Int(v))
    }

    fn try_from_json(reader: &mut Reader) -> (r: Result<Self, Error>) {
        proof {
            assert(reader.path() + Seq::<PathItem>::empty() =~= reader.path());
        }
        reader.read_i16()
    }
}

impl TryFromJson for i32 {
    open spec fn model(&self) -> Model {
        Model::Int(*self as int)
    }

    open spec fn decoded(s: Seq<u8>, i: int) -> Decoded {
        plain(lex_integer(s, i, i32::MIN as int, i32::MAX as int), |v: int| Model::Int(v))
    }

    fn try_from_json(reader: &mut Reader) -> (r: Result<Self, Error>) {
        proof {
            assert(reader.path() + Seq::<PathItem>::empty() =~= reader.path());
        }
        reader.read_i32()
    }
}

impl TryFromJson for i64 {
    open spec fn model(&self) -> Model {
        Model::Int(*self as int)
    }

    open spec fn decoded(s: Seq<u8>, i: int) -> Decoded {
        plain(lex_integer(s, i, i64::MIN as int, i64::MAX as int), |v: int| Model::Int(v))
    }

    fn try_from_json(reader: &mut Reader) -> (r: Result<Self, Error>) {
        proof {
            assert(reader.path() + Seq::<PathItem>::empty() =~= reader.path());
        }
        reader.read_i64()
    }
}

impl TryFromJson for i128 {
    open spec fn model(&self) -> Model {
        Model::Int(*self as int)
    }

    open spec fn decoded(s: Seq<u8>, i: int) -> Decoded {
        plain(lex_integer(s, i, i128::MIN as int, i128::MAX as int), |v: int| Model::Int(v))
    }

    fn try_from_json(reader: &mut Reader) -> (r: Result<Self, Error>) {
        proof {
            assert(reader.path() + Seq::<PathItem>::empty() =~= reader.path());
        }
        reader.read_i128()
    }
}

impl TryFromJson for isize {
    open spec fn model(&self) -> Model {
        Model::Int(*self as int)
    }

    open spec fn decoded(s: Seq<u8>, i: int) -> Decoded {
        plain(lex_integer(s, i, isize::MIN as int, isize::MAX as int), |v: int| Model::Int(v))
    }

    fn try_from_json(reader: &mut Reader) -> (r: Result<Self, Error>) {
        proof {
            assert(reader.path() + Seq::<PathItem>::empty() =~= reader.path());
        }
        reader.read_isize()
    }
}

impl TryFromJson for u8 {
    open spec fn model(&self) -> Model {
        Model::Int(*self as int)
    }

    open spec fn decoded(s: Seq<u8>, i: int) -> Decoded {
        plain(lex_integer(s, i, 0, u8::MAX as int), |v: int| Model::Int(v))
    }

    fn try_from_json(reader: &mut Reader) -> (r: Result<Self, Error>) {
        proof {
            assert(reader.path() + Seq::<PathItem>::empty() =~= reader.path());
        }
        reader.read_u8()
    }
}

impl TryFromJson for u16 {
    open spec fn model(&self) -> Model {
        Model::Int(*self as int)
    }

    open spec fn decoded(s: Seq<u8>, i: int) -> Decoded {
        plain(lex_integer(s, i, 0, u16::MAX as int), |v: int| Model::Int(v))
    }

    fn try_from_json(reader: &mut Reader) -> (r: Result<Self, Error>) {
        proof {
            assert(reader.path() + Seq::<PathItem>::empty() =~= reader.path());
        }
        reader.read_u16()
    }
}

impl TryFromJson for u32 {
    open spec fn model(&self) -> Model {
        Model::Int(*self as int)
    }

    open spec fn decoded(s: Seq<u8>, i: int) -> Decoded {
        plain(lex_integer(s, i, 0, u32::MAX as int), |v: int| Model::Int(v))
    }

    fn try_from_json(reader: &mut Reader) -> (r: Result<Self, Error>) {
        proof {
            assert(reader.path() + Seq::<PathItem>::empty() =~= reader.path());
        }
        reader.read_u32()
    }
}

impl TryFromJson for u64 {
    open spec fn model(&self) -> Model {
        Model::Int(*self as int)
    }

    open spec fn decoded(s: Seq<u8>, i: int) -> Decoded {
        plain(lex_integer(s, i, 0, u64::MAX as int), |v: int| Model::Int(v))
    }

    fn try_from_json(reader: &mut Reader) -> (r: Result<Self, Error>) {
        proof {
            assert(reader.path() + Seq::<PathItem>::empty() =~= reader.path());
        }
        reader.read_u64()
    }
}

impl TryFromJson for u128 {
    open spec fn model(&self) -> Model {
        Model::Int(*self as int)
    }

    open spec fn decoded(s: Seq<u8>, i: int) -> Decoded {
        plain(lex_integer(s, i, 0, u128::MAX as int), |v: int| Model::Int(v))
    }

    fn try_from_json(reader: &mut Reader) -> (r: Result<Self, Error>) {
        proof {
            assert(reader.path() + Seq::<PathItem>::empty() =~= reader.path());
        }
        reader.read_u128()
    }
}

impl TryFromJson for usize {
    open spec fn model(&self) -> Model {
        Model::Int(*self as int)
    }

    open spec fn decoded(s: Seq<u8>, i: int) -> Decoded {
        plain(lex_integer(s, i, 0, usize::MAX as int), |v: int| Model::Int(v))
    }

    fn try_from_json(reader: &mut Reader) -> (r: Result<Self, Error>) {
        proof {
            assert(reader.path() + Seq::<PathItem>::empty() =~= reader.path());
        }
        reader.read_usize()
    }
}

} // verus!
