//! A value that can hold any JSON node.

use vstd::prelude::*;
use vstd::utf8::{encode_utf8, valid_utf8};
use crate::ascii::spaces_end;
use crate::error::{Error, ErrorKind};
use crate::number::is_canonical;
use crate::reader::{fails_with, Reader};
use crate::text::{lemma_lex_string_acc, lex_string};
use crate::token::{lex_token, token_digits, Lex, Token};

verus! {

/// Any JSON node. A number is held as its significant decimal digits, a
/// power of ten and a sign, exactly as the lexer found it; nothing is
/// rounded.
#[derive(Debug, PartialEq)]
pub enum Value {
    Null,
    Bool(bool),
    /// The digits, as ASCII; the power of ten; whether the number is below
    /// zero.
    Number(Vec<u8>, i32, bool),
    String(String),
    Array(Vec<Value>),
    /// The members, each key once, in the order of the keys, so that two
    /// objects with the same members are the same value.
    Object(Vec<(String, Value)>),
}

/// What a `Value` stands for: a JSON node, with text as its UTF-8 bytes and
/// an object as a mapping from keys to nodes.
pub enum Node {
    Null,
    Bool(bool),
    Number { digits: Seq<u8>, exponent: int, negative: bool },
    String(Seq<u8>),
    Array(Seq<Node>),
    Object(Map<Seq<u8>, Node>),
}

/// The mapping that a list of members stands for. Where a key occurs more
/// than once, the last of its members counts.
pub open spec fn members_view(members: Seq<(String, Value)>) -> Map<Seq<u8>, Node>
    decreases members, 0int,
{
    if members.len() == 0 {
        Map::empty()
    } else {
        members_view(members.drop_last()).insert(
            encode_utf8(members.last().0@),
            members.last().1.view(),
        )
    }
}

/// The nodes that a list of values stands for.
pub open spec fn items_view(items: Seq<Value>) -> Seq<Node>
    decreases items, 0int,
{
    if items.len() == 0 {
        Seq::empty()
    } else {
        items_view(items.drop_last()).push(items.last().view())
    }
}

impl View for Value {
    type V = Node;

    open spec fn view(&self) -> Node
        decreases self, 1int,
    {
        match self {
            Value::Null => Node::Null,
            Value::Bool(b) => Node::Bool(*b),
            Value::Number(digits, exponent, negative) => Node::Number {
                digits: digits@,
                exponent: *exponent as int,
                negative: *negative,
            },
            Value::String(text) => Node::String(encode_utf8(text@)),
            Value::Array(items) => Node::Array(items_view(items@)),
            Value::Object(members) => Node::Object(members_view(members@)),
        }
    }
}

impl Value {
    pub fn is_null(&self) -> (r: bool)
        ensures
            r == (self is Null),
    {
        match self {
            Value::Null => true,
            _ => false,
        }
    }

    pub fn is_bool(&self) -> (r: bool)
        ensures
            r == (self is Bool),
    {
        match self {
            Value::Bool(_) => true,
            _ => false,
        }
    }

    pub fn is_number(&self) -> (r: bool)
        ensures
            r == (self is Number),
    {
        match self {
            Value::Number(_, _, _) => true,
            _ => false,
        }
    }

    pub fn is_string(&self) -> (r: bool)
        ensures
            r == (self is String),
    {
        match self {
            Value::String(_) => true,
            _ => false,
        }
    }

    pub fn is_array(&self) -> (r: bool)
        ensures
            r == (self is Array),
    {
        match self {
            Value::Array(_) => true,
            _ => false,
        }
    }

    pub fn is_object(&self) -> (r: bool)
        ensures
            r == (self is Object),
    {
        match self {
            Value::Object(_) => true,
            _ => false,
        }
    }
}

/// Whether every key occurs once among the members.
pub open spec fn unique_keys(members: Seq<(String, Value)>) -> bool {
    forall|i: int, j: int|
        0 <= i < j < members.len() ==> (#[trigger] members[i]).0@ != (#[trigger] members[j]).0@
}

/// Whether `a` comes before `b` in the order of the dictionary, from the
/// index `i` on, up to which the two are taken to be the same.
pub open spec fn less_from(a: Seq<u8>, b: Seq<u8>, i: int) -> bool
    decreases a.len() - i,
{
    if i < 0 || i >= b.len() {
        false
    } else if i >= a.len() {
        true
    } else if a[i] != b[i] {
        a[i] < b[i]
    } else {
        less_from(a, b, i + 1)
    }
}

/// Whether one key comes before another: in the order of the dictionary,
/// by the bytes of their UTF-8 encoding.
pub open spec fn key_less(a: Seq<char>, b: Seq<char>) -> bool {
    less_from(encode_utf8(a), encode_utf8(b), 0)
}

/// Whether the members stand in the order of their keys, each key once.
pub open spec fn sorted_keys(members: Seq<(String, Value)>) -> bool {
    forall|i: int, j: int|
        0 <= i < j < members.len() ==> key_less((#[trigger] members[i]).0@, (#[trigger] members[j]).0@)
}

/// Whether every value in the list is well formed.
pub open spec fn items_well_formed(items: Seq<Value>) -> bool
    decreases items, 0int,
{
    items.len() > 0 ==> items_well_formed(items.drop_last()) && items.last().well_formed()
}

/// Whether the value of every member is well formed.
pub open spec fn members_well_formed(members: Seq<(String, Value)>) -> bool
    decreases members, 0int,
{
    members.len() > 0 ==> members_well_formed(members.drop_last())
        && members.last().1.well_formed()
}

impl Value {
    /// Whether the value is in the form that reading gives it: every number
    /// in canonical form, and the members of every object in the order of
    /// their keys, no key twice.
    pub open spec fn well_formed(&self) -> bool
        decreases self, 1int,
    {
        match self {
            Value::Number(digits, exponent, negative) => is_canonical(
                digits@,
                *exponent as int,
                *negative,
            ),
            Value::Array(items) => items_well_formed(items@),
            Value::Object(members) => sorted_keys(members@) && members_well_formed(members@),
            _ => true,
        }
    }
}

/// Reads the elements of an array from index `i`, where an element starts,
/// to behind the `]`. `acc` holds the elements in front of `i`.
pub open spec fn lex_items(s: Seq<u8>, i: int, acc: Seq<Node>) -> Lex<Seq<Node>>
    decreases s.len() - i, 1int,
{
    match lex_value(s, i) {
        Lex::Fail { kind } => Lex::Fail { kind },
        Lex::Done { value: node, end } => if end <= i || end > s.len() {
            Lex::Fail { kind: ErrorKind::UnexpectedToken }
        } else {
            match lex_token(s, end) {
                Lex::Fail { kind } => Lex::Fail { kind },
                Lex::Done { value: token, end: after } => if after <= end || after > s.len() {
                    Lex::Fail { kind: ErrorKind::UnexpectedToken }
                } else if token == Token::ArrayEnd {
                    Lex::Done { value: acc.push(node), end: after }
                } else if token == Token::Comma {
                    lex_items(s, after, acc.push(node))
                } else {
                    Lex::Fail { kind: ErrorKind::UnexpectedToken }
                },
            }
        },
    }
}

/// Reads one member of an object from index `i`, behind the quote that
/// opens its key: the key, which must be UTF-8, a colon and the value.
pub open spec fn lex_member(s: Seq<u8>, i: int) -> Lex<(Seq<u8>, Node)>
    decreases s.len() - i, 1int,
{
    match lex_string(s, i, Seq::empty()) {
        Lex::Fail { kind } => Lex::Fail { kind },
        Lex::Done { value: key, end } => if end <= i || end > s.len() {
            Lex::Fail { kind: ErrorKind::UnexpectedToken }
        } else if !valid_utf8(key) {
            Lex::Fail { kind: ErrorKind::InvalidUtf8 }
        } else {
            match lex_token(s, end) {
                Lex::Fail { kind } => Lex::Fail { kind },
                Lex::Done { value: token, end: colon } => if colon <= end || colon > s.len() {
                    Lex::Fail { kind: ErrorKind::UnexpectedToken }
                } else if token == Token::Colon {
                    match lex_value(s, colon) {
                        Lex::Fail { kind } => Lex::Fail { kind },
                        Lex::Done { value: node, end: after } => Lex::Done {
                            value: (key, node),
                            end: after,
                        },
                    }
                } else {
                    Lex::Fail { kind: ErrorKind::UnexpectedToken }
                },
            }
        },
    }
}

/// Reads the members of an object from index `i` to behind the `}`. `acc`
/// holds the members in front of `i`; `first` says that there is none yet,
/// and only then may the `}` come at once. A key that comes again replaces
/// what it stood for.
pub open spec fn lex_members(s: Seq<u8>, i: int, acc: Map<Seq<u8>, Node>, first: bool) -> Lex<
    Map<Seq<u8>, Node>,
>
    decreases s.len() - i, 2int,
{
    match lex_token(s, i) {
        Lex::Fail { kind } => Lex::Fail { kind },
        Lex::Done { value: token, end } => if end <= i || end > s.len() {
            Lex::Fail { kind: ErrorKind::UnexpectedToken }
        } else if token == Token::ObjectEnd && first {
            Lex::Done { value: acc, end }
        } else if token == Token::QuoteStart {
            match lex_member(s, end) {
                Lex::Fail { kind } => Lex::Fail { kind },
                Lex::Done { value: member, end: after } => if after <= end || after > s.len() {
                    Lex::Fail { kind: ErrorKind::UnexpectedToken }
                } else {
                    match lex_token(s, after) {
                        Lex::Fail { kind } => Lex::Fail { kind },
                        Lex::Done { value: next, end: last } => if last <= after || last
                            > s.len() {
                            Lex::Fail { kind: ErrorKind::UnexpectedToken }
                        } else if next == Token::ObjectEnd {
                            Lex::Done { value: acc.insert(member.0, member.1), end: last }
                        } else if next == Token::Comma {
                            lex_members(s, last, acc.insert(member.0, member.1), false)
                        } else {
                            Lex::Fail { kind: ErrorKind::UnexpectedToken }
                        },
                    }
                },
            }
        } else {
            Lex::Fail { kind: ErrorKind::UnexpectedToken }
        },
    }
}

/// Reads one value of any kind from index `i`. Text must be UTF-8.
pub open spec fn lex_value(s: Seq<u8>, i: int) -> Lex<Node>
    decreases s.len() - i, 0int,
{
    match lex_token(s, i) {
        Lex::Fail { kind } => Lex::Fail { kind },
        Lex::Done { value: token, end } => if end <= i || end > s.len() {
            Lex::Fail { kind: ErrorKind::UnexpectedToken }
        } else {
            match token {
                Token::Null => Lex::Done { value: Node::Null, end },
                Token::False => Lex::Done { value: Node::Bool(false), end },
                Token::True => Lex::Done { value: Node::Bool(true), end },
                Token::Number(exponent, negative) => Lex::Done {
                    value: Node::Number {
                        digits: token_digits(s, i),
                        exponent: exponent as int,
                        negative,
                    },
                    end,
                },
                Token::QuoteStart => match lex_string(s, end, Seq::empty()) {
                    Lex::Fail { kind } => Lex::Fail { kind },
                    Lex::Done { value: text, end: after } => if valid_utf8(text) {
                        Lex::Done { value: Node::String(text), end: after }
                    } else {
                        Lex::Fail { kind: ErrorKind::InvalidUtf8 }
                    },
                },
                Token::ArrayBegin => {
                    let p = spaces_end(s, end);
                    if end <= p < s.len() && s[p] == 0x5d {
                        Lex::Done { value: Node::Array(Seq::empty()), end: p + 1 }
                    } else {
                        match lex_items(s, end, Seq::empty()) {
                            Lex::Fail { kind } => Lex::Fail { kind },
                            Lex::Done { value: items, end: after } => Lex::Done {
                                value: Node::Array(items),
                                end: after,
                            },
                        }
                    }
                },
                Token::ObjectBegin => match lex_members(s, end, Map::empty(), true) {
                    Lex::Fail { kind } => Lex::Fail { kind },
                    Lex::Done { value: members, end: after } => Lex::Done {
                        value: Node::Object(members),
                        end: after,
                    },
                },
                _ => Lex::Fail { kind: ErrorKind::UnexpectedToken },
            }
        },
    }
}

/// Strings with the same UTF-8 bytes are the same string.
pub proof fn lemma_same_bytes_same_text(a: Seq<char>, b: Seq<char>)
    requires
        encode_utf8(a) == encode_utf8(b),
    ensures
        a == b,
{
    vstd::utf8::encode_utf8_decode_utf8(a);
    vstd::utf8::encode_utf8_decode_utf8(b);
}

/// The values of all members are well formed exactly when the value of each
/// is.
pub proof fn lemma_members_well_formed(members: Seq<(String, Value)>)
    ensures
        members_well_formed(members) <==> (forall|i: int|
            0 <= i < members.len() ==> (#[trigger] members[i]).1.well_formed()),
    decreases members.len(),
{
    if members.len() > 0 {
        let front = members.drop_last();
        lemma_members_well_formed(front);
        if members_well_formed(members) {
            assert forall|i: int| 0 <= i < members.len() implies (
            #[trigger] members[i]).1.well_formed() by {
                if i < members.len() - 1 {
                    assert(front[i] == members[i]);
                }
            }
        } else if members.last().1.well_formed() {
            let i = choose|i: int| 0 <= i < front.len() && !(#[trigger] front[i]).1.well_formed();
            assert(front[i] == members[i]);
        }
    }
}

/// A member whose key is new goes behind the others.
pub proof fn lemma_members_view_push(members: Seq<(String, Value)>, member: (String, Value))
    ensures
        members_view(members.push(member)) == members_view(members).insert(
            encode_utf8(member.0@),
            member.1@,
        ),
{
    assert(members.push(member).drop_last() =~= members);
}

/// A member whose key is there already takes the place of the member that
/// has it.
pub proof fn lemma_members_view_update(
    members: Seq<(String, Value)>,
    j: int,
    member: (String, Value),
)
    requires
        unique_keys(members),
        0 <= j < members.len(),
        members[j].0@ == member.0@,
    ensures
        members_view(members.update(j, member)) == members_view(members).insert(
            encode_utf8(member.0@),
            member.1@,
        ),
    decreases members.len(),
{
    let front = members.drop_last();
    let key = encode_utf8(member.0@);
    if j == members.len() - 1 {
        assert(members.update(j, member).drop_last() =~= front);
        assert(members_view(front).insert(key, members.last().1@).insert(key, member.1@)
            =~= members_view(front).insert(key, member.1@));
    } else {
        assert(members.update(j, member).drop_last() =~= front.update(j, member));
        assert(unique_keys(front)) by {
            assert forall|a: int, b: int| 0 <= a < b < front.len() implies (#[trigger] front[a]).0@
                != (#[trigger] front[b]).0@ by {
                assert(members[a].0@ != members[b].0@);
            }
        }
        lemma_members_view_update(front, j, member);
        let last = members.last();
        assert(members[j].0@ != members[members.len() - 1].0@);
        if encode_utf8(last.0@) == key {
            lemma_same_bytes_same_text(last.0@, member.0@);
        }
        assert(members_view(front).insert(key, member.1@).insert(encode_utf8(last.0@), last.1@)
            =~= members_view(front).insert(encode_utf8(last.0@), last.1@).insert(key, member.1@));
    }
}

/// Nothing comes before itself.
pub proof fn lemma_less_irreflexive(a: Seq<u8>, i: int)
    ensures
        !less_from(a, a, i),
    decreases a.len() - i,
{
    if 0 <= i < a.len() {
        lemma_less_irreflexive(a, i + 1);
    }
}

/// What comes before something that comes before a third comes before the
/// third.
pub proof fn lemma_less_transitive(a: Seq<u8>, b: Seq<u8>, c: Seq<u8>, i: int)
    requires
        less_from(a, b, i),
        less_from(b, c, i),
    ensures
        less_from(a, c, i),
    decreases b.len() - i,
{
    if i < a.len() && a[i] == b[i] && b[i] == c[i] {
        lemma_less_transitive(a, b, c, i + 1);
    }
}

/// Of two sequences that are the same up to `i`, one comes before the
/// other, or they are the same.
pub proof fn lemma_less_total(a: Seq<u8>, b: Seq<u8>, i: int)
    requires
        0 <= i <= a.len(),
        i <= b.len(),
        a.take(i) == b.take(i),
    ensures
        less_from(a, b, i) || less_from(b, a, i) || a == b,
    decreases a.len() - i,
{
    if i < a.len() && i < b.len() {
        if a[i] == b[i] {
            assert(a.take(i + 1) =~= a.take(i).push(a[i]));
            assert(b.take(i + 1) =~= b.take(i).push(b[i]));
            lemma_less_total(a, b, i + 1);
        }
    } else if i == a.len() && i == b.len() {
        assert(a.take(i) =~= a);
        assert(b.take(i) =~= b);
    }
}

/// Members in the order of their keys have each key once.
pub proof fn lemma_sorted_unique(members: Seq<(String, Value)>)
    requires
        sorted_keys(members),
    ensures
        unique_keys(members),
{
    assert forall|i: int, j: int| 0 <= i < j < members.len() implies (#[trigger] members[i]).0@ != (
    #[trigger] members[j]).0@ by {
        assert(key_less(members[i].0@, members[j].0@));
        lemma_less_irreflexive(encode_utf8(members[i].0@), 0);
    }
}

/// A member whose key is new goes in wherever it is put.
pub proof fn lemma_members_view_insert(
    members: Seq<(String, Value)>,
    p: int,
    member: (String, Value),
)
    requires
        unique_keys(members),
        0 <= p <= members.len(),
        forall|i: int| 0 <= i < members.len() ==> (#[trigger] members[i]).0@ != member.0@,
    ensures
        members_view(members.insert(p, member)) == members_view(members).insert(
            encode_utf8(member.0@),
            member.1@,
        ),
    decreases members.len() - p,
{
    let key = encode_utf8(member.0@);
    if p == members.len() {
        assert(members.insert(p, member) =~= members.push(member));
        lemma_members_view_push(members, member);
    } else {
        let front = members.drop_last();
        let last = members.last();
        assert(members.insert(p, member).drop_last() =~= front.insert(p, member));
        assert(members.insert(p, member).last() == last);
        assert(unique_keys(front)) by {
            assert forall|a: int, b: int| 0 <= a < b < front.len() implies (#[trigger] front[a]).0@
                != (#[trigger] front[b]).0@ by {
                assert(members[a].0@ != members[b].0@);
            }
        }
        assert forall|i: int| 0 <= i < front.len() implies (#[trigger] front[i]).0@
            != member.0@ by {
            assert(members[i].0@ != member.0@);
        }
        lemma_members_view_insert(front, p, member);
        assert(members[members.len() - 1].0@ != member.0@);
        if encode_utf8(last.0@) == key {
            lemma_same_bytes_same_text(last.0@, member.0@);
        }
        assert(members_view(front).insert(key, member.1@).insert(encode_utf8(last.0@), last.1@)
            =~= members_view(front).insert(encode_utf8(last.0@), last.1@).insert(key, member.1@));
    }
}

/// Whether `a` comes before `b` in the order of the dictionary.
fn bytes_less(a: &[u8], b: &[u8]) -> (r: bool)
    ensures
        r == less_from(a@, b@, 0),
{
    let mut i: usize = 0;
    loop
        invariant
            i <= a.len(),
            i <= b.len(),
            less_from(a@, b@, 0) == less_from(a@, b@, i as int),
        decreases a.len() - i,
    {
        if i >= b.len() {
            return false;
        }
        if i >= a.len() {
            return true;
        }
        if a[i] != b[i] {
            return a[i] < b[i];
        }
        i += 1;
    }
}

/// Puts a member into a list that is in the order of its keys, each key
/// once: in the place of the member with the same key, or where its key
/// belongs.
fn put_member(members: &mut Vec<(String, Value)>, key: String, value: Value)
    requires
        sorted_keys(old(members)@),
        members_well_formed(old(members)@),
        value.well_formed(),
    ensures
        sorted_keys(final(members)@),
        members_well_formed(final(members)@),
        members_view(final(members)@) == members_view(old(members)@).insert(
            encode_utf8(key@),
            value@,
        ),
{
    let mut p: usize = 0;
    proof {
        lemma_members_well_formed(members@);
        lemma_sorted_unique(members@);
    }
    while p < members.len() && bytes_less(
        members[p].0.as_str().as_bytes(),
        key.as_str().as_bytes(),
    )
        invariant
            p <= members.len(),
            members@ == old(members)@,
            forall|k: int| 0 <= k < p ==> key_less((#[trigger] members@[k]).0@, key@),
        decreases members.len() - p,
    {
        p += 1;
    }
    let found = p < members.len() && !bytes_less(
        key.as_str().as_bytes(),
        members[p].0.as_str().as_bytes(),
    );
    let ghost before = members@;
    let ghost member = (key, value);
    if found {
        proof {
            let a = encode_utf8(members@[p as int].0@);
            let b = encode_utf8(key@);
            assert(a.take(0) =~= b.take(0));
            lemma_less_total(a, b, 0);
            lemma_same_bytes_same_text(members@[p as int].0@, key@);
            lemma_members_view_update(members@, p as int, member);
        }
        members[p] = (key, value);
        proof {
            lemma_members_well_formed(members@);
            assert forall|a: int, b: int| 0 <= a < b < members@.len() implies key_less(
                (#[trigger] members@[a]).0@,
                (#[trigger] members@[b]).0@,
            ) by {
                assert(key_less(before[a].0@, before[b].0@));
            }
        }
    } else {
        proof {
            assert forall|i: int| 0 <= i < before.len() implies (#[trigger] before[i]).0@
                != key@ by {
                lemma_less_irreflexive(encode_utf8(key@), 0);
                if i < p {
                    assert(key_less(before[i].0@, key@));
                } else {
                    assert(key_less(key@, before[p as int].0@));
                    if i > p {
                        assert(key_less(before[p as int].0@, before[i].0@));
                        lemma_less_transitive(
                            encode_utf8(key@),
                            encode_utf8(before[p as int].0@),
                            encode_utf8(before[i].0@),
                            0,
                        );
                    }
                }
            }
            lemma_members_view_insert(before, p as int, member);
        }
        members.insert(p, (key, value));
        proof {
            lemma_members_well_formed(members@);
            assert forall|i: int| 0 <= i < members@.len() implies (
            #[trigger] members@[i]).1.well_formed() by {
                if i < p {
                    assert(before[i].1.well_formed());
                } else if i > p {
                    assert(before[i - 1].1.well_formed());
                }
            }
            assert forall|a: int, b: int| 0 <= a < b < members@.len() implies key_less(
                (#[trigger] members@[a]).0@,
                (#[trigger] members@[b]).0@,
            ) by {
                if b < p {
                    assert(key_less(before[a].0@, before[b].0@));
                } else if b == p {
                    assert(key_less(before[a].0@, key@));
                } else if a < p {
                    assert(key_less(before[a].0@, before[b - 1].0@));
                } else if a == p {
                    assert(key_less(key@, before[p as int].0@));
                    if b - 1 > p {
                        assert(key_less(before[p as int].0@, before[b - 1].0@));
                        lemma_less_transitive(
                            encode_utf8(key@),
                            encode_utf8(before[p as int].0@),
                            encode_utf8(before[b - 1].0@),
                            0,
                        );
                    }
                } else {
                    assert(key_less(before[a - 1].0@, before[b - 1].0@));
                }
            }
        }
    }
}

impl Reader {
    /// Reads one value of any kind.
    pub fn read_value(&mut self) -> (r: Result<Value, Error>)
        requires
            old(self).wf(),
        ensures
            final(self).follows(old(self)),
            final(self).last_index() == old(self).last_index(),
            match lex_value(old(self).input(), old(self).position()) {
                Lex::Done { value, end } => r is Ok && r->Ok_0@ == value && r->Ok_0.well_formed()
                    && final(self).position() == end && old(self).position() < end,
                Lex::Fail { kind } => fails_with(r, kind, old(self).path()),
            },
        decreases old(self).input().len() - old(self).position(), 0int,
    {
        proof {
            self.lemma_wf();
        }
        let token = self.next_token()?;
        match token {
            Token::Null => Ok(Value::Null),
            Token::False => Ok(Value::Bool(false)),
            Token::True => Ok(Value::Bool(true)),
            Token::Number(exponent, negative) => {
                let digits = vstd::slice::slice_to_vec(self.get_key());
                Ok(Value::Number(digits, exponent, negative))
            },
            Token::QuoteStart => {
                let text = self.read_string_contents()?;
                Ok(Value::String(text))
            },
            Token::ArrayBegin => {
                if self.take_if_next(0x5d) {
                    let items: Vec<Value> = Vec::new();
                    proof {
                        assert(items_view(items@) =~= Seq::<Node>::empty());
                    }
                    return Ok(Value::Array(items));
                }
                self.read_items()
            },
            Token::ObjectBegin => self.read_members(),
            _ => Err(self.refuse(token, "a value")),
        }
    }

    /// Reads the elements of an array that is not empty, behind whose `[`
    /// the cursor stands.
    fn read_items(&mut self) -> (r: Result<Value, Error>)
        requires
            old(self).wf(),
            0 < old(self).position(),
        ensures
            final(self).follows(old(self)),
            final(self).last_index() == old(self).last_index(),
            match lex_items(old(self).input(), old(self).position(), Seq::empty()) {
                Lex::Done { value, end } => r is Ok && r->Ok_0@ == Node::Array(value)
                    && r->Ok_0.well_formed() && final(self).position() == end,
                Lex::Fail { kind } => fails_with(r, kind, old(self).path()),
            },
        decreases old(self).input().len() - old(self).position(), 1int,
    {
        let mut items: Vec<Value> = Vec::new();
        proof {
            assert(items_view(items@) =~= Seq::<Node>::empty());
            self.lemma_wf();
        }
        loop
            invariant
                self.follows(old(self)),
                self.last_index() == old(self).last_index(),
                0 < old(self).position(),
                lex_items(old(self).input(), old(self).position(), Seq::empty()) == lex_items(
                    self.input(),
                    self.position(),
                    items_view(items@),
                ),
                items_well_formed(items@),
            decreases self.input().len() - self.position(),
        {
            let value = self.read_value()?;
            proof {
                assert(items@.push(value).drop_last() =~= items@);
            }
            items.push(value);
            let token = self.next_token()?;
            match token {
                Token::ArrayEnd => {
                    return Ok(Value::Array(items));
                },
                Token::Comma => {},
                _ => {
                    return Err(self.expected(token, "',' or ']'"));
                },
            }
        }
    }

    /// Reads the members of an object, behind whose `{` the cursor stands.
    fn read_members(&mut self) -> (r: Result<Value, Error>)
        requires
            old(self).wf(),
            0 < old(self).position(),
        ensures
            final(self).follows(old(self)),
            final(self).last_index() == old(self).last_index(),
            match lex_members(old(self).input(), old(self).position(), Map::empty(), true) {
                Lex::Done { value, end } => r is Ok && r->Ok_0@ == Node::Object(value)
                    && r->Ok_0.well_formed() && final(self).position() == end,
                Lex::Fail { kind } => fails_with(r, kind, old(self).path()),
            },
        decreases old(self).input().len() - old(self).position(), 1int,
    {
        let mut members: Vec<(String, Value)> = Vec::new();
        let mut first = true;
        proof {
            self.lemma_wf();
        }
        loop
            invariant
                self.follows(old(self)),
                self.last_index() == old(self).last_index(),
                0 < old(self).position(),
                lex_members(old(self).input(), old(self).position(), Map::empty(), true)
                    == lex_members(self.input(), self.position(), members_view(members@), first),
                sorted_keys(members@),
                members_well_formed(members@),
            decreases self.input().len() - self.position(),
        {
            let token = self.next_token()?;
            match token {
                Token::ObjectEnd => {
                    if first {
                        return Ok(Value::Object(members));
                    }
                    return Err(self.expected(token, "key"));
                },
                Token::QuoteStart => {},
                _ => {
                    return Err(self.expected(token, "key"));
                },
            }
            proof {
                lemma_lex_string_acc(self.input(), self.position(), Seq::empty());
            }
            let ghost s = self.input();
            let ghost p = self.position();
            let key = match self.read_string_contents() {
                Ok(key) => key,
                Err(e) => {
                    assert(lex_member(s, p) is Fail);
                    assert(lex_member(s, p)->Fail_kind == e.kind);
                    return Err(e);
                },
            };
            let colon = self.next_token()?;
            match colon {
                Token::Colon => {},
                _ => {
                    return Err(self.expected(colon, "':'"));
                },
            }
            let value = self.read_value()?;
            put_member(&mut members, key, value);
            let token = self.next_token()?;
            match token {
                Token::ObjectEnd => {
                    return Ok(Value::Object(members));
                },
                Token::Comma => {
                    first = false;
                },
                _ => {
                    return Err(self.expected(token, "',' or '}'"));
                },
            }
        }
    }
}

/// The values of two lists stand for the same nodes where they do so one
/// by one.
pub proof fn lemma_items_view_same(a: Seq<Value>, b: Seq<Value>)
    requires
        a.len() == b.len(),
        forall|i: int| 0 <= i < a.len() ==> (#[trigger] a[i])@ == b[i]@,
    ensures
        items_view(a) == items_view(b),
    decreases a.len(),
{
    if a.len() > 0 {
        lemma_items_view_same(a.drop_last(), b.drop_last());
    }
}

/// The values of a list are well formed exactly when each of them is.
pub proof fn lemma_items_well_formed(items: Seq<Value>)
    ensures
        items_well_formed(items) <==> (forall|i: int|
            0 <= i < items.len() ==> (#[trigger] items[i]).well_formed()),
    decreases items.len(),
{
    if items.len() > 0 {
        let front = items.drop_last();
        lemma_items_well_formed(front);
        if items_well_formed(items) {
            assert forall|i: int| 0 <= i < items.len() implies (#[trigger] items[i]).well_formed() by {
                if i < items.len() - 1 {
                    assert(front[i] == items[i]);
                }
            }
        } else if items.last().well_formed() {
            let i = choose|i: int| 0 <= i < front.len() && !(#[trigger] front[i]).well_formed();
            assert(front[i] == items[i]);
        }
    }
}

/// Members stand for the same mapping where they have the same keys and
/// their values stand for the same nodes, one by one.
pub proof fn lemma_members_view_same(a: Seq<(String, Value)>, b: Seq<(String, Value)>)
    requires
        a.len() == b.len(),
        forall|i: int| 0 <= i < a.len() ==> (#[trigger] a[i]).0@ == b[i].0@ && a[i].1@ == b[i].1@,
    ensures
        members_view(a) == members_view(b),
    decreases a.len(),
{
    if a.len() > 0 {
        lemma_members_view_same(a.drop_last(), b.drop_last());
        assert(a.last().0@ == b.last().0@);
    }
}

/// Whether two texts are the same.
pub fn same_text(a: &str, b: &str) -> (r: bool)
    ensures
        r == (a@ == b@),
{
    let x = a.as_bytes();
    let y = b.as_bytes();
    if x.len() != y.len() {
        return false;
    }
    let mut i: usize = 0;
    while i < x.len()
        invariant
            i <= x.len(),
            x.len() == y.len(),
            x@ == encode_utf8(a@),
            y@ == encode_utf8(b@),
            forall|j: int| 0 <= j < i ==> x@[j] == y@[j],
        decreases x.len() - i,
    {
        if x[i] != y[i] {
            return false;
        }
        i += 1;
    }
    proof {
        assert(x@ =~= y@);
        lemma_same_bytes_same_text(a@, b@);
    }
    true
}

impl Clone for Value {
    /// A value that stands for the same node, and is well formed if this
    /// one is.
    #[verifier::loop_isolation(false)]
    fn clone(&self) -> (r: Value)
        ensures
            r@ == self@,
            self.well_formed() ==> r.well_formed(),
        decreases self,
    {
        match self {
            Value::Null => Value::Null,
            Value::Bool(b) => Value::Bool(*b),
            Value::Number(digits, exponent, negative) => Value::Number(
                vstd::slice::slice_to_vec(digits.as_slice()),
                *exponent,
                *negative,
            ),
            Value::String(text) => Value::String(text.clone()),
            Value::Array(items) => {
                let mut copy: Vec<Value> = Vec::new();
                let mut i: usize = 0;
                proof {
                    lemma_items_well_formed(items@);
                }
                while i < items.len()
                    invariant
                        i <= items.len(),
                        copy@.len() == i,
                        forall|j: int| 0 <= j < i ==> (#[trigger] copy@[j])@ == items@[j]@,
                        forall|j: int|
                            0 <= j < i && self.well_formed() ==> (#[trigger] copy@[j]).well_formed(),
                    decreases items.len() - i,
                {
                    proof {
                        vstd::std_specs::vec::axiom_vec_index_decreases(*items, i as int);
                    }
                    let item = items[i].clone();
                    copy.push(item);
                    i += 1;
                }
                proof {
                    lemma_items_view_same(copy@, items@);
                    lemma_items_well_formed(copy@);
                }
                Value::Array(copy)
            },
            Value::Object(members) => {
                let mut copy: Vec<(String, Value)> = Vec::new();
                let mut i: usize = 0;
                proof {
                    lemma_members_well_formed(members@);
                }
                while i < members.len()
                    invariant
                        i <= members.len(),
                        copy@.len() == i,
                        forall|j: int|
                            0 <= j < i ==> (#[trigger] copy@[j]).0@ == members@[j].0@ && copy@[j].1@
                                == members@[j].1@,
                        forall|j: int|
                            0 <= j < i && self.well_formed() ==> (
                            #[trigger] copy@[j]).1.well_formed(),
                    decreases members.len() - i,
                {
                    proof {
                        vstd::std_specs::vec::axiom_vec_index_decreases(*members, i as int);
                    }
                    let key = members[i].0.clone();
                    let value = members[i].1.clone();
                    copy.push((key, value));
                    i += 1;
                }
                proof {
                    lemma_members_view_same(copy@, members@);
                    lemma_members_well_formed(copy@);
                    if self.well_formed() {
                        assert forall|a: int, b: int| 0 <= a < b < copy@.len() implies key_less(
                            (#[trigger] copy@[a]).0@,
                            (#[trigger] copy@[b]).0@,
                        ) by {
                            assert(key_less(members@[a].0@, members@[b].0@));
                        }
                    }
                }
                Value::Object(copy)
            },
        }
    }
}

impl Value {
    /// The value of the first member with the given key, if this is an
    /// object and has such a member.
    pub open spec fn get_spec(&self, key: Seq<char>) -> Option<Value> {
        match self {
            Value::Object(members) => if exists|i: int|
                0 <= i < members@.len() && (#[trigger] members@[i]).0@ == key {
                let i = choose|i: int|
                    0 <= i < members@.len() && (#[trigger] members@[i]).0@ == key && forall|j: int|
                        0 <= j < i ==> (#[trigger] members@[j]).0@ != key;
                Some(members@[i].1)
            } else {
                None
            },
            _ => None,
        }
    }

    /// The value of the first member with the given key, if this is an
    /// object and has such a member.
    #[verifier::loop_isolation(false)]
    pub fn get(&self, key: &str) -> (r: Option<&Value>)
        ensures
            match self.get_spec(key@) {
                Some(value) => r is Some && *r->Some_0 == value,
                None => r is None,
            },
    {
        match self {
            Value::Object(members) => {
                let mut i: usize = 0;
                while i < members.len()
                    invariant
                        i <= members.len(),
                        forall|j: int| 0 <= j < i ==> (#[trigger] members@[j]).0@ != key@,
                    decreases members.len() - i,
                {
                    if same_text(members[i].0.as_str(), key) {
                        let value = &members[i].1;
                        proof {
                            let k = choose|k: int|
                                0 <= k < members@.len() && (#[trigger] members@[k]).0@ == key@
                                    && forall|j: int|
                                    0 <= j < k ==> (#[trigger] members@[j]).0@ != key@;
                            assert(members@[i as int].0@ == key@);
                            assert(k == i) by {
                                if k < i {
                                    assert(members@[k].0@ != key@);
                                }
                                if i < k {
                                    assert(members@[i as int].0@ != key@);
                                }
                            }
                        }
                        return Some(value);
                    }
                    i += 1;
                }
                None
            },
            _ => None,
        }
    }
}

impl<'a> vstd::std_specs::core::IndexSpecImpl<&'a str> for Value {
    /// Every key can be asked for, of every value.
    open spec fn index_req(&self, index: &&'a str) -> bool {
        true
    }
}

impl<'a> std::ops::Index<&'a str> for Value {
    type Output = Value;

    /// The value of the member with the given key, and `null` where this
    /// is no object or has no such member.
    fn index(&self, index: &'a str) -> (r: &Value)
        ensures
            match self.get_spec(index@) {
                Some(value) => *r == value,
                None => *r is Null,
            },
    {
        match self.get(index) {
            Some(value) => value,
            None => &Value::Null,
        }
    }
}

} // verus!
