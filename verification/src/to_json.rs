//! From the types of the language to JSON text.

use vstd::prelude::*;
use vstd::utf8::{encode_utf8, valid_utf8};
use crate::ascii::{int_text, nat_digits, nat_text};
use crate::encode::{push_quoted, quoted, value_text};
use crate::token::{word_false, word_null, word_true};
use crate::trusted::{char_to_string, string_from_utf8};
use crate::value::Value;

verus! {

/// A type whose values can be written as JSON text.
///
/// An implementation says in `json_text` what the text is. One that does
/// not say it promises nothing of what it writes.
pub trait WriteToJson {
    /// The JSON text of `self`.
    open spec fn json_text(&self) -> Seq<u8> {
        arbitrary()
    }

    /// Appends the JSON text of `self` to `out`.
    fn write_to_json(&self, out: &mut Vec<u8>)
        ensures
            final(out)@ == old(out)@ + self.json_text(),
    ;
}

/// A type whose values can be shown as JSON text: every type that can be
/// written as JSON text.
pub trait DebugToJson: WriteToJson {
    /// The JSON text of `self`, or the empty string where that text is not
    /// UTF-8.
    fn to_json_string(&self) -> (text: String)
        ensures
            valid_utf8(self.json_text()) ==> encode_utf8(text@) == self.json_text(),
            !valid_utf8(self.json_text()) ==> text@ == Seq::<char>::empty(),
    {
        let mut out: Vec<u8> = Vec::new();
        self.write_to_json(&mut out);
        proof {
            assert(Seq::<u8>::empty() + self.json_text() =~= self.json_text());
        }
        match string_from_utf8(out) {
            Some(text) => text,
            None => String::new(),
        }
    }
}

impl<T: WriteToJson> DebugToJson for T {

}

/// Appends the decimal text of an integer.
fn push_integer(out: &mut Vec<u8>, magnitude: u128, negative: bool)
    ensures
        final(out)@ == old(out)@ + (if negative {
            seq![0x2du8] + nat_text(magnitude as nat)
        } else {
            nat_text(magnitude as nat)
        }),
{
    if negative {
        out.push(0x2d);
    }
    let digits = nat_digits(magnitude);
    out.extend_from_slice(digits.as_slice());
    proof {
        if negative {
            assert(out@ =~= old(out)@ + (seq![0x2du8] + nat_text(magnitude as nat)));
        }
    }
}

impl WriteToJson for () {
    open spec fn json_text(&self) -> Seq<u8> {
        word_null()
    }

    fn write_to_json(&self, out: &mut Vec<u8>) {
        out.push(0x6e);
        out.push(0x75);
        out.push(0x6c);
        out.push(0x6c);
        proof {
            assert(out@ =~= old(out)@ + word_null());
        }
    }
}

impl WriteToJson for bool {
    open spec fn json_text(&self) -> Seq<u8> {
        if *self {
            word_true()
        } else {
            word_false()
        }
    }

    fn write_to_json(&self, out: &mut Vec<u8>) {
        if *self {
            out.push(0x74);
            out.push(0x72);
            out.push(0x75);
            out.push(0x65);
            proof {
                assert(out@ =~= old(out)@ + word_true());
            }
        } else {
            out.push(0x66);
            out.push(0x61);
            out.push(0x6c);
            out.push(0x73);
            out.push(0x65);
            proof {
                assert(out@ =~= old(out)@ + word_false());
            }
        }
    }
}

impl WriteToJson for String {
    open spec fn json_text(&self) -> Seq<u8> {
        quoted(encode_utf8(self@))
    }

    fn write_to_json(&self, out: &mut Vec<u8>) {
        push_quoted(out, self.as_str());
    }
}

impl WriteToJson for char {
    open spec fn json_text(&self) -> Seq<u8> {
        quoted(encode_utf8(seq![*self]))
    }

    fn write_to_json(&self, out: &mut Vec<u8>) {
        let text = char_to_string(*self);
        push_quoted(out, text.as_str());
    }
}

impl WriteToJson for Value {
    open spec fn json_text(&self) -> Seq<u8> {
        value_text(*self)
    }

    fn write_to_json(&self, out: &mut Vec<u8>) {
        self.write_json(out);
    }
}

impl<T: WriteToJson> WriteToJson for Box<T> {
    open spec fn json_text(&self) -> Seq<u8> {
        (**self).json_text()
    }

    fn write_to_json(&self, out: &mut Vec<u8>) {
        (**self).write_to_json(out);
    }
}

impl<T: WriteToJson> WriteToJson for Option<T> {
    open spec fn json_text(&self) -> Seq<u8> {
        match self {
            Some(v) => v.json_text(),
            None => word_null(),
        }
    }

    fn write_to_json(&self, out: &mut Vec<u8>) {
        match self {
            Some(v) => v.write_to_json(out),
            None => ().write_to_json(out),
        }
    }
}

/// The texts of the values of a list, with commas between them.
pub open spec fn list_text<T: WriteToJson>(items: Seq<T>) -> Seq<u8>
    decreases items.len(),
{
    if items.len() == 0 {
        Seq::empty()
    } else if items.len() == 1 {
        items.last().json_text()
    } else {
        list_text(items.drop_last()) + seq![0x2cu8] + items.last().json_text()
    }
}

impl<T: WriteToJson> WriteToJson for Vec<T> {
    open spec fn json_text(&self) -> Seq<u8> {
        seq![0x5bu8] + list_text(self@) + seq![0x5du8]
    }

    fn write_to_json(&self, out: &mut Vec<u8>) {
        out.push(0x5b);
        let ghost front = out@;
        let mut i: usize = 0;
        proof {
            assert(self@.take(0) =~= Seq::<T>::empty());
            assert(front + list_text(self@.take(0)) =~= front);
        }
        while i < self.len()
            invariant
                i <= self.len(),
                out@ == front + list_text(self@.take(i as int)),
            decreases self.len() - i,
        {
            if i > 0 {
                out.push(0x2c);
            }
            self[i].write_to_json(out);
            proof {
                let taken = self@.take(i + 1);
                assert(taken.drop_last() =~= self@.take(i as int));
                assert(taken.last() == self@[i as int]);
                if i == 0 {
                    assert(list_text(self@.take(0)) =~= Seq::<u8>::empty());
                    assert(out@ =~= front + list_text(taken));
                } else {
                    assert(out@ =~= front + list_text(taken));
                }
            }
            i += 1;
        }
        proof {
            assert(self@.take(self@.len() as int) =~= self@);
        }
        out.push(0x5d);
        proof {
            assert(out@ =~= old(out)@ + (seq![0x5bu8] + list_text(self@) + seq![0x5du8]));
        }
    }
}

impl<A: WriteToJson, B: WriteToJson> WriteToJson for (A, B) {
    open spec fn json_text(&self) -> Seq<u8> {
        seq![0x5bu8] + self.0.json_text() + seq![0x2cu8] + self.1.json_text() + seq![0x5du8]
    }

    fn write_to_json(&self, out: &mut Vec<u8>) {
        out.push(0x5b);
        self.0.write_to_json(out);
        out.push(0x2c);
        self.1.write_to_json(out);
        out.push(0x5d);
        proof {
            assert(out@ =~= old(out)@ + self.json_text());
        }
    }
}

impl<A: WriteToJson, B: WriteToJson, C: WriteToJson> WriteToJson for (A, B, C) {
    open spec fn json_text(&self) -> Seq<u8> {
        seq![0x5bu8] + self.0.json_text() + seq![0x2cu8] + self.1.json_text() + seq![0x2cu8]
            + self.2.json_text() + seq![0x5du8]
    }

    fn write_to_json(&self, out: &mut Vec<u8>) {
        out.push(0x5b);
        self.0.write_to_json(out);
        out.push(0x2c);
        self.1.write_to_json(out);
        out.push(0x2c);
        self.2.write_to_json(out);
        out.push(0x5d);
        proof {
            assert(out@ =~= old(out)@ + self.json_text());
        }
    }
}

} // verus!

verus! {

impl WriteToJson for i8 {
    open spec fn json_text(&self) -> Seq<u8> {
        int_text(*self as int)
    }

    fn write_to_json(&self, out: &mut Vec<u8>) {
        if *self < 0 {
            if *self == i8::MIN {
                push_integer(out, (i8::MAX as u128) + 1, true);
            } else {
                push_integer(out, (-*self) as u128, true);
            }
        } else {
            push_integer(out, *self as u128, false);
        }
    }
}

impl WriteToJson for i16 {
    open spec fn json_text(&self) -> Seq<u8> {
        int_text(*self as int)
    }

    fn write_to_json(&self, out: &mut Vec<u8>) {
        if *self < 0 {
            if *self == i16::MIN {
                push_integer(out, (i16::MAX as u128) + 1, true);
            } else {
                push_integer(out, (-*self) as u128, true);
            }
        } else {
            push_integer(out, *self as u128, false);
        }
    }
}

impl WriteToJson for i32 {
    open spec fn json_text(&self) -> Seq<u8> {
        int_text(*self as int)
    }

    fn write_to_json(&self, out: &mut Vec<u8>) {
        if *self < 0 {
            if *self == i32::MIN {
                push_integer(out, (i32::MAX as u128) + 1, true);
            } else {
                push_integer(out, (-*self) as u128, true);
            }
        } else {
            push_integer(out, *self as u128, false);
        }
    }
}

impl WriteToJson for i64 {
    open spec fn json_text(&self) -> Seq<u8> {
        int_text(*self as int)
    }

    fn write_to_json(&self, out: &mut Vec<u8>) {
        if *self < 0 {
            if *self == i64::MIN {
                push_integer(out, (i64::MAX as u128) + 1, true);
            } else {
                push_integer(out, (-*self) as u128, true);
            }
        } else {
            push_integer(out, *self as u128, false);
        }
    }
}

impl WriteToJson for i128 {
    open spec fn json_text(&self) -> Seq<u8> {
        int_text(*self as int)
    }

    fn write_to_json(&self, out: &mut Vec<u8>) {
        if *self < 0 {
            if *self == i128::MIN {
                push_integer(out, (i128::MAX as u128) + 1, true);
            } else {
                push_integer(out, (-*self) as u128, true);
            }
        } else {
            push_integer(out, *self as u128, false);
        }
    }
}

impl WriteToJson for isize {
    open spec fn json_text(&self) -> Seq<u8> {
        int_text(*self as int)
    }

    fn write_to_json(&self, out: &mut Vec<u8>) {
        if *self < 0 {
            if *self == isize::MIN {
                push_integer(out, (isize::MAX as u128) + 1, true);
            } else {
                push_integer(out, (-*self) as u128, true);
            }
        } else {
            push_integer(out, *self as u128, false);
        }
    }
}

impl WriteToJson for u8 {
    open spec fn json_text(&self) -> Seq<u8> {
        int_text(*self as int)
    }

    fn write_to_json(&self, out: &mut Vec<u8>) {
        push_integer(out, *self as u128, false);
    }
}

impl WriteToJson for u16 {
    open spec fn json_text(&self) -> Seq<u8> {
        int_text(*self as int)
    }

    fn write_to_json(&self, out: &mut Vec<u8>) {
        push_integer(out, *self as u128, false);
    }
}

impl WriteToJson for u32 {
    open spec fn json_text(&self) -> Seq<u8> {
        int_text(*self as int)
    }

    fn write_to_json(&self, out: &mut Vec<u8>) {
        push_integer(out, *self as u128, false);
    }
}

impl WriteToJson for u64 {
    open spec fn json_text(&self) -> Seq<u8> {
        int_text(*self as int)
    }

    fn write_to_json(&self, out: &mut Vec<u8>) {
        push_integer(out, *self as u128, false);
    }
}

impl WriteToJson for u128 {
    open spec fn json_text(&self) -> Seq<u8> {
        int_text(*self as int)
    }

    fn write_to_json(&self, out: &mut Vec<u8>) {
        push_integer(out, *self as u128, false);
    }
}

impl WriteToJson for usize {
    open spec fn json_text(&self) -> Seq<u8> {
        int_text(*self as int)
    }

    fn write_to_json(&self, out: &mut Vec<u8>) {
        push_integer(out, *self as u128, false);
    }
}

} // verus!
