//! The text primitives of the standard library that the decoders are built on,
//! each with the behaviour that is assumed of it.
use vstd::prelude::*;
use vstd::string::StringSliceAdditionalSpecFns;
use vstd::utf8::{is_scalar, valid_utf8};

verus! {

/// U+FFFD, the character that stands in for whatever cannot be decoded.
pub const REPLACEMENT_CHARACTER: char = '\u{FFFD}';

/// Assumed of `String::push`: the character is appended and everything before
/// it stays as it was.
pub assume_specification[ String::push ](text: &mut String, c: char)
    ensures
        final(text)@ == old(text)@.push(c),
;

/// Assumed of `char::from_u32`: the result is the character with that scalar
/// value, and `None` exactly when the number is no Unicode scalar value
/// (a surrogate, or above U+10FFFF).
pub assume_specification[ char::from_u32 ](value: u32) -> (c: Option<char>)
    ensures
        is_scalar(value) ==> c == Some(value as char),
        !is_scalar(value) ==> c is None,
;

/// Assumed of `core::str::from_utf8`: it accepts exactly the byte sequences
/// that are well-formed UTF-8, and the string slice it then returns is made of
/// the very bytes it was given. The call is not verified.
#[verifier::external_body]
pub(crate) fn str_from_utf8<'a>(bytes: &'a [u8]) -> (text: Option<&'a str>)
    ensures
        text is Some <==> valid_utf8(bytes@),
        text is Some ==> text.unwrap().spec_bytes() == bytes@,
{
    match core::str::from_utf8(bytes) {
        Ok(text) => Some(text),
        Err(_) => None,
    }
}

/// The character whose scalar value is `value`.
pub(crate) fn char_from_scalar(value: u32) -> (c: char)
    requires
        is_scalar(value),
    ensures
        c == value as char,
        c as u32 == value,
{
    match char::from_u32(value) {
        Some(c) => c,
        None => REPLACEMENT_CHARACTER,
    }
}

} // verus!
