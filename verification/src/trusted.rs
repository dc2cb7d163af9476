//! The calls that leave the verified code. What is stated of them here is
//! believed, not proved.

use vstd::prelude::*;
use vstd::utf8::{encode_utf8, is_scalar, valid_utf8};
use numtoa::NumToA;
use crate::ascii::int_text;

verus! {

/// The arguments of a formatting macro, as the standard library holds them.
#[verifier::external_type_specification]
#[verifier::external_body]
pub struct ExArguments<'a>(core::fmt::Arguments<'a>);

/// Calls `core::fmt::write` of the standard library, which writes the
/// arguments of a formatting macro into a string.
///
/// Nothing is believed of the text that comes back: it is whatever the
/// formatting of the arguments gives. Where the formatting fails, the text
/// is what was written until then.
#[verifier::external_body]
pub(crate) fn arguments_to_string(args: core::fmt::Arguments) -> (text: String) {
    let mut text = String::new();
    let _ = core::fmt::write(&mut text, args);
    text
}

/// Calls `String::from_utf8` of the standard library.
///
/// Believed of it: the bytes become a string exactly when they are UTF-8,
/// and the string then has those bytes as its UTF-8 encoding.
#[verifier::external_body]
pub(crate) fn string_from_utf8(bytes: Vec<u8>) -> (r: Option<String>)
    ensures
        r is Some <==> valid_utf8(bytes@),
        r is Some ==> encode_utf8(r->Some_0@) == bytes@,
{
    String::from_utf8(bytes).ok()
}

/// Calls `char::from_u32` of the standard library.
///
/// Believed of it: a number becomes a `char` exactly when it is a Unicode
/// scalar value, and the `char` then has that number.
#[verifier::external_body]
pub(crate) fn char_from_u32(u: u32) -> (r: Option<char>)
    ensures
        r is Some <==> is_scalar(u),
        r is Some ==> r->Some_0 as u32 == u,
{
    char::from_u32(u)
}

/// Calls `char::to_string` of the standard library.
///
/// Believed of it: the string holds the character and nothing else.
#[verifier::external_body]
pub(crate) fn char_to_string(c: char) -> (text: String)
    ensures
        text@ == seq![c],
{
    c.to_string()
}

/// Calls `NumToA::numtoa` of the crate numtoa, in base ten, on an `i32`.
///
/// Believed of it: the result is the decimal text of the number, with `-`
/// in front of a negative number and no zeros in front of the digits.
#[verifier::external_body]
pub(crate) fn i32_text(n: i32) -> (text: Vec<u8>)
    ensures
        text@ == int_text(n as int),
{
    let mut buffer = [0u8; 24];
    n.numtoa(10, &mut buffer).to_vec()
}

} // verus!
