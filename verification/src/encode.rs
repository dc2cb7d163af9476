//! From a `Value` to JSON text.

use vstd::prelude::*;
use vstd::utf8::{encode_utf8, valid_utf8, valid_utf8_concat};
use crate::ascii::{all_digits, int_text, is_digit, lemma_nat_text, nat_text};
use crate::escape::{
    escape, escape_seq, lemma_ascii_is_utf8, lemma_escape_keeps_utf8,
};
use crate::format::{magnitude_text, number_text, push_number_text, sign_text};
use crate::token::{word_false, word_null, word_true};
use crate::value::{items_well_formed, members_well_formed, Value};

verus! {

/// Text between quotes, escaped.
pub open spec fn quoted(bytes: Seq<u8>) -> Seq<u8> {
    seq![0x22u8] + escape_seq(bytes) + seq![0x22u8]
}

/// The texts of the values of a list, with commas between them.
pub open spec fn items_text(items: Seq<Value>) -> Seq<u8>
    decreases items, 0int,
{
    if items.len() == 0 {
        Seq::empty()
    } else if items.len() == 1 {
        value_text(items.last())
    } else {
        items_text(items.drop_last()) + seq![0x2cu8] + value_text(items.last())
    }
}

/// The texts of the members of an object, each a key in quotes, a colon and
/// the text of a value, with commas between them.
pub open spec fn members_text(members: Seq<(String, Value)>) -> Seq<u8>
    decreases members, 0int,
{
    if members.len() == 0 {
        Seq::empty()
    } else if members.len() == 1 {
        quoted(encode_utf8(members.last().0@)) + seq![0x3au8] + value_text(members.last().1)
    } else {
        members_text(members.drop_last()) + seq![0x2cu8] + (quoted(
            encode_utf8(members.last().0@),
        ) + seq![0x3au8] + value_text(members.last().1))
    }
}

/// The JSON text of a value: `null`, `false`, `true`, the canonical text of
/// a number, a string in quotes and escaped, the elements of an array
/// between `[` and `]`, and the members of an object, in the order in which
/// it holds them, between `{` and `}`. Nothing stands between the tokens.
pub open spec fn value_text(v: Value) -> Seq<u8>
    decreases v, 1int,
{
    match v {
        Value::Null => word_null(),
        Value::Bool(b) => if b {
            word_true()
        } else {
            word_false()
        },
        Value::Number(digits, exponent, negative) => number_text(
            digits@,
            exponent as int,
            negative,
        ),
        Value::String(text) => quoted(encode_utf8(text@)),
        Value::Array(items) => seq![0x5bu8] + items_text(items@) + seq![0x5du8],
        Value::Object(members) => seq![0x7bu8] + members_text(members@) + seq![0x7du8],
    }
}

/// Appends text in quotes, escaped.
pub fn push_quoted(out: &mut Vec<u8>, text: &str)
    ensures
        final(out)@ == old(out)@ + quoted(encode_utf8(text@)),
{
    out.push(0x22);
    let escaped = escape(text);
    match &escaped {
        std::borrow::Cow::Borrowed(s) => out.extend_from_slice(s.as_bytes()),
        std::borrow::Cow::Owned(s) => out.extend_from_slice(s.as_str().as_bytes()),
    }
    out.push(0x22);
    proof {
        assert(out@ =~= old(out)@ + quoted(encode_utf8(text@)));
    }
}

impl Value {
    /// Appends the JSON text of the value.
    #[verifier::loop_isolation(false)]
    pub fn write_json(&self, out: &mut Vec<u8>)
        ensures
            final(out)@ == old(out)@ + value_text(*self),
        decreases self,
    {
        match self {
            Value::Null => {
                out.push(0x6e);
                out.push(0x75);
                out.push(0x6c);
                out.push(0x6c);
                proof {
                    assert(out@ =~= old(out)@ + word_null());
                }
            },
            Value::Bool(b) => {
                if *b {
                    out.push(0x74);
                    out.push(0x72);
                    out.push(0x75);
                    out.push(0x65);
                    proof {
                        assert(out@ =~= old(out)@ + word_true());
                    }
                } else {
                    out.push(0x66);
                    out.push(0x61);
                    out.push(0x6c);
                    out.push(0x73);
                    out.push(0x65);
                    proof {
                        assert(out@ =~= old(out)@ + word_false());
                    }
                }
            },
            Value::Number(digits, exponent, negative) => {
                push_number_text(out, digits.as_slice(), *exponent, *negative);
            },
            Value::String(text) => {
                push_quoted(out, text.as_str());
            },
            Value::Array(items) => {
                out.push(0x5b);
                let ghost front = out@;
                let mut i: usize = 0;
                proof {
                    assert(items@.take(0) =~= Seq::<Value>::empty());
                    assert(front + items_text(items@.take(0)) =~= front);
                }
                while i < items.len()
                    invariant
                        i <= items.len(),
                        out@ == front + items_text(items@.take(i as int)),
                        self == Value::Array(*items),
                    decreases items.len() - i,
                {
                    if i > 0 {
                        out.push(0x2c);
                    }
                    proof {
                        vstd::std_specs::vec::axiom_vec_index_decreases(*items, i as int);
                    }
                    items[i].write_json(out);
                    proof {
                        let taken = items@.take(i + 1);
                        assert(taken.drop_last() =~= items@.take(i as int));
                        assert(taken.last() == items@[i as int]);
                        if i == 0 {
                            assert(items_text(items@.take(0)) =~= Seq::<u8>::empty());
                            assert(out@ =~= front + items_text(taken));
                        } else {
                            assert(out@ =~= front + items_text(taken));
                        }
                    }
                    i += 1;
                }
                proof {
                    assert(items@.take(items@.len() as int) =~= items@);
                }
                out.push(0x5d);
                proof {
                    assert(out@ =~= old(out)@ + (seq![0x5bu8] + items_text(items@) + seq![0x5du8]));
                }
            },
            Value::Object(members) => {
                out.push(0x7b);
                let ghost front = out@;
                let mut i: usize = 0;
                proof {
                    assert(members@.take(0) =~= Seq::<(String, Value)>::empty());
                    assert(front + members_text(members@.take(0)) =~= front);
                }
                while i < members.len()
                    invariant
                        i <= members.len(),
                        out@ == front + members_text(members@.take(i as int)),
                        self == Value::Object(*members),
                    decreases members.len() - i,
                {
                    if i > 0 {
                        out.push(0x2c);
                    }
                    push_quoted(out, members[i].0.as_str());
                    out.push(0x3a);
                    proof {
                        vstd::std_specs::vec::axiom_vec_index_decreases(*members, i as int);
                    }
                    members[i].1.write_json(out);
                    proof {
                        let taken = members@.take(i + 1);
                        assert(taken.drop_last() =~= members@.take(i as int));
                        assert(taken.last() == members@[i as int]);
                        if i == 0 {
                            assert(members_text(members@.take(0)) =~= Seq::<u8>::empty());
                            assert(out@ =~= front + members_text(taken));
                        } else {
                            assert(out@ =~= front + members_text(taken));
                        }
                    }
                    i += 1;
                }
                proof {
                    assert(members@.take(members@.len() as int) =~= members@);
                }
                out.push(0x7d);
                proof {
                    assert(out@ =~= old(out)@ + (seq![0x7bu8] + members_text(members@) + seq![
                        0x7du8,
                    ]));
                }
            },
        }
    }

    /// The JSON text of the value, in bytes.
    pub fn to_json_bytes(&self) -> (text: Vec<u8>)
        ensures
            text@ == value_text(*self),
    {
        let mut out: Vec<u8> = Vec::new();
        self.write_json(&mut out);
        proof {
            assert(Seq::<u8>::empty() + value_text(*self) =~= value_text(*self));
        }
        out
    }
}

/// Whether every byte is below `0x80`.
pub open spec fn is_ascii(bytes: Seq<u8>) -> bool {
    forall|i: int| 0 <= i < bytes.len() ==> #[trigger] bytes[i] < 0x80
}

/// The canonical text of a number with proper digits has only bytes below
/// `0x80`.
pub proof fn lemma_number_text_ascii(digits: Seq<u8>, exponent: int, negative: bool)
    requires
        all_digits(digits),
    ensures
        is_ascii(number_text(digits, exponent, negative)),
{
    assert(is_ascii(digits)) by {
        assert forall|i: int| 0 <= i < digits.len() implies #[trigger] digits[i] < 0x80 by {
            assert(is_digit(digits[i]));
        }
    }
    let power = int_text(exponent);
    assert(is_ascii(power)) by {
        if exponent < 0 {
            lemma_nat_text((-exponent) as nat);
            let t = nat_text((-exponent) as nat);
            assert forall|i: int| 0 <= i < power.len() implies #[trigger] power[i] < 0x80 by {
                if i > 0 {
                    assert(is_digit(t[i - 1]));
                }
            }
        } else {
            lemma_nat_text(exponent as nat);
            assert forall|i: int| 0 <= i < power.len() implies #[trigger] power[i] < 0x80 by {
                assert(is_digit(power[i]));
            }
        }
    }
    let body = magnitude_text(digits, exponent);
    assert(is_ascii(body));
    assert(is_ascii(sign_text(negative)));
}

/// Text in quotes, escaped, is UTF-8.
pub proof fn lemma_quoted_utf8(text: Seq<char>)
    ensures
        valid_utf8(quoted(encode_utf8(text))),
{
    lemma_escape_keeps_utf8(text);
    lemma_ascii_is_utf8(seq![0x22u8]);
    valid_utf8_concat(seq![0x22u8], escape_seq(encode_utf8(text)));
    valid_utf8_concat(seq![0x22u8] + escape_seq(encode_utf8(text)), seq![0x22u8]);
}

/// The texts of well-formed values, with commas between them, are UTF-8.
pub proof fn lemma_items_text_utf8(items: Seq<Value>)
    requires
        items_well_formed(items),
    ensures
        valid_utf8(items_text(items)),
    decreases items, 0int,
{
    if items.len() == 0 {
    } else if items.len() == 1 {
        lemma_value_text_utf8(items.last());
    } else {
        lemma_items_text_utf8(items.drop_last());
        lemma_value_text_utf8(items.last());
        lemma_ascii_is_utf8(seq![0x2cu8]);
        valid_utf8_concat(items_text(items.drop_last()), seq![0x2cu8]);
        valid_utf8_concat(items_text(items.drop_last()) + seq![0x2cu8], value_text(items.last()));
    }
}

/// The texts of members with well-formed values are UTF-8.
pub proof fn lemma_members_text_utf8(members: Seq<(String, Value)>)
    requires
        members_well_formed(members),
    ensures
        valid_utf8(members_text(members)),
    decreases members, 0int,
{
    if members.len() > 0 {
        let last = members.last();
        let key = quoted(encode_utf8(last.0@));
        lemma_quoted_utf8(last.0@);
        lemma_value_text_utf8(last.1);
        lemma_ascii_is_utf8(seq![0x3au8]);
        valid_utf8_concat(key, seq![0x3au8]);
        valid_utf8_concat(key + seq![0x3au8], value_text(last.1));
        if members.len() > 1 {
            lemma_members_text_utf8(members.drop_last());
            lemma_ascii_is_utf8(seq![0x2cu8]);
            valid_utf8_concat(members_text(members.drop_last()), seq![0x2cu8]);
            valid_utf8_concat(
                members_text(members.drop_last()) + seq![0x2cu8],
                key + seq![0x3au8] + value_text(last.1),
            );
        }
    }
}

/// The JSON text of a well-formed value is UTF-8.
pub proof fn lemma_value_text_utf8(v: Value)
    requires
        v.well_formed(),
    ensures
        valid_utf8(value_text(v)),
    decreases v, 1int,
{
    match v {
        Value::Null => {
            lemma_ascii_is_utf8(word_null());
        },
        Value::Bool(b) => {
            lemma_ascii_is_utf8(word_true());
            lemma_ascii_is_utf8(word_false());
        },
        Value::Number(digits, exponent, negative) => {
            lemma_number_text_ascii(digits@, exponent as int, negative);
            lemma_ascii_is_utf8(number_text(digits@, exponent as int, negative));
        },
        Value::String(text) => {
            lemma_quoted_utf8(text@);
        },
        Value::Array(items) => {
            lemma_items_text_utf8(items@);
            lemma_ascii_is_utf8(seq![0x5bu8]);
            lemma_ascii_is_utf8(seq![0x5du8]);
            valid_utf8_concat(seq![0x5bu8], items_text(items@));
            valid_utf8_concat(seq![0x5bu8] + items_text(items@), seq![0x5du8]);
        },
        Value::Object(members) => {
            lemma_members_text_utf8(members@);
            lemma_ascii_is_utf8(seq![0x7bu8]);
            lemma_ascii_is_utf8(seq![0x7du8]);
            valid_utf8_concat(seq![0x7bu8], members_text(members@));
            valid_utf8_concat(seq![0x7bu8] + members_text(members@), seq![0x7du8]);
        },
    }
}

} // verus!
