//! What a failed read reports: the kind of failure, where in the document it
//! happened, and a sentence for people.

use vstd::prelude::*;
use vstd::utf8::encode_utf8;
use crate::ascii::{lemma_nat_text_ascii, lemma_nat_text_utf8, nat_digits, nat_text};
use crate::trusted::string_from_utf8;

verus! {

/// The kinds of failure that decoding can end in.
#[derive(Clone, Copy, Debug, PartialEq, Eq, Structural)]
pub enum ErrorKind {
    /// The input ended inside a value.
    UnexpectedEndOfInput,
    /// A token stands where the grammar, or the requested type, allows none
    /// of its kind.
    UnexpectedToken,
    /// A number is spelled in a way that the grammar does not accept.
    InvalidNumberFormat,
    /// A number, or one of the steps that compute it, does not fit.
    NumberTooBig,
    /// A string holds bytes that are not UTF-8.
    InvalidUtf8,
    /// A backslash escape is malformed.
    InvalidEscapeSequence,
    /// A `\u` escape gives half of a surrogate pair without the other half.
    InvalidSurrogatePair,
    /// A failure that the caller of the reader raised.
    Custom,
}

/// One step on the way from the root of a document to a value.
#[derive(Clone, Copy, Debug)]
pub enum PathItem {
    /// The property of an object, by name.
    Prop(&'static str),
    /// The element of an array, by position.
    Index(usize),
}

/// A failed read.
#[derive(Debug)]
pub struct Error {
    /// What went wrong.
    pub kind: ErrorKind,
    /// Where the reader stood: the steps from the root to the failing value.
    pub path: Vec<PathItem>,
    /// What went wrong, in words.
    pub detail: String,
}

/// Bytes below `0x80` as the characters that they are.
pub open spec fn ascii_chars(bytes: Seq<u8>) -> Seq<char> {
    Seq::new(bytes.len(), |i: int| bytes[i] as char)
}

/// One step of a path as people read it: `.name` for a property and
/// `[position]` for an element.
pub open spec fn item_text(item: PathItem) -> Seq<char> {
    match item {
        PathItem::Prop(name) => seq!['.'] + name@,
        PathItem::Index(k) => seq!['['] + ascii_chars(nat_text(k as nat)) + seq![']'],
    }
}

/// A path as people read it: `$` for the root, and then its steps.
pub open spec fn path_text(path: Seq<PathItem>) -> Seq<char>
    decreases path.len(),
{
    if path.len() == 0 {
        seq!['$']
    } else {
        path_text(path.drop_last()) + item_text(path.last())
    }
}

/// Text that is made of the given bytes, all below `0x80`, is made of the
/// characters that the bytes are.
pub proof fn lemma_ascii_text(text: Seq<char>, bytes: Seq<u8>)
    requires
        encode_utf8(text) == bytes,
        forall|i: int| 0 <= i < bytes.len() ==> #[trigger] bytes[i] < 0x80,
    ensures
        text == ascii_chars(bytes),
{
    let chars = ascii_chars(bytes);
    assert(vstd::utf8::is_ascii_chars(chars)) by {
        assert forall|i: int| 0 <= i < chars.len() implies '\0' <= #[trigger] chars[i]
            <= '\u{7f}' by {
            assert(bytes[i] < 0x80);
        }
    }
    vstd::utf8::is_ascii_chars_encode_utf8(chars);
    assert(encode_utf8(chars) =~= bytes) by {
        assert forall|i: int| 0 <= i < bytes.len() implies encode_utf8(chars)[i] == bytes[i] by {
            assert(chars[i] as u8 == encode_utf8(chars)[i]);
            assert(bytes[i] < 0x80);
        }
    }
    vstd::utf8::encode_utf8_decode_utf8(text);
    vstd::utf8::encode_utf8_decode_utf8(chars);
}

impl Error {
    /// The message of the failure: the path, a colon and what went wrong.
    pub open spec fn message_text(&self) -> Seq<char> {
        path_text(self.path@) + seq![':', ' '] + self.detail@
    }

    /// The message of the failure, with the path in front: `$` for the
    /// root, `.name` for each property and `[position]` for each element on
    /// the way, then a colon and what went wrong.
    pub fn message(&self) -> (text: String)
        ensures
            text@ == self.message_text(),
    {
        let mut text = String::new();
        proof {
            reveal_strlit("$");
            reveal_strlit(".");
            reveal_strlit("[");
            reveal_strlit("]");
            reveal_strlit(": ");
        }
        text.append("$");
        proof {
            assert(text@ =~= seq!['$']);
            assert(self.path@.take(0) =~= Seq::<PathItem>::empty());
        }
        let mut i: usize = 0;
        while i < self.path.len()
            invariant
                i <= self.path.len(),
                text@ == path_text(self.path@.take(i as int)),
                "."@ == seq!['.'],
                "["@ == seq!['['],
                "]"@ == seq![']'],
            decreases self.path.len() - i,
        {
            let ghost before = text@;
            proof {
                assert(self.path@.take(i + 1).drop_last() =~= self.path@.take(i as int));
                assert(self.path@.take(i + 1).last() == self.path@[i as int]);
            }
            match self.path[i] {
                PathItem::Prop(name) => {
                    text.append(".");
                    text.append(name);
                    proof {
                        assert(text@ =~= before + (seq!['.'] + name@));
                    }
                },
                PathItem::Index(k) => {
                    text.append("[");
                    let digits = nat_digits(k as u128);
                    proof {
                        lemma_nat_text_ascii(k as nat);
                        lemma_nat_text_utf8(k as nat);
                    }
                    match string_from_utf8(digits) {
                        Some(number) => {
                            proof {
                                lemma_ascii_text(number@, nat_text(k as nat));
                            }
                            text.append(number.as_str());
                        },
                        None => {
                            proof {
                                assert(false);
                            }
                        },
                    }
                    text.append("]");
                    proof {
                        assert(text@ =~= before + (seq!['['] + ascii_chars(nat_text(k as nat))
                            + seq![']']));
                    }
                },
            }
            i += 1;
        }
        proof {
            assert(self.path@.take(self.path@.len() as int) =~= self.path@);
        }
        text.append(": ");
        text.append(self.detail.as_str());
        proof {
            assert(text@ =~= path_text(self.path@) + seq![':', ' '] + self.detail@);
        }
        text
    }
}

} // verus!
