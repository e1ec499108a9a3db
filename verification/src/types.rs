//! The two-variant string representation and its conversion to text.
use crate::text::str_from_utf8;
use crate::utf16::{decode_utf16_lossy, utf16_lossy_text};
use crate::utf8::{decode_utf8_lossy, lemma_utf8_well_formed_exact, utf8_lossy_text};
use std::borrow::Cow;
use vstd::prelude::*;
use vstd::string::StringSliceAdditionalSpecFns;
use vstd::utf8::{decode_utf8, encode_utf8_decode_utf8, valid_utf8};

verus! {

/// A string as the platform handed it over: borrowed bytes, or borrowed 16-bit
/// units. Neither has to be well-formed text.
#[derive(Debug)]
pub enum BytesOrWideString<'a> {
    /// 8-bit code units, read as UTF-8.
    Bytes(&'a [u8]),
    /// 16-bit code units, read as UTF-16.
    Wide(&'a [u16]),
}

impl<'a> BytesOrWideString<'a> {
    /// The text that the code units stand for, with U+FFFD in place of whatever
    /// cannot be decoded.
    pub open spec fn lossy_text(&self) -> Seq<char> {
        match self {
            BytesOrWideString::Bytes(bytes) => utf8_lossy_text(bytes@),
            BytesOrWideString::Wide(units) => utf16_lossy_text(units@),
        }
    }

    /// Whether the code units are text already, so that a conversion can hand
    /// them out as they are: only bytes that are well-formed UTF-8.
    pub open spec fn is_well_formed_bytes(&self) -> bool {
        match self {
            BytesOrWideString::Bytes(bytes) => valid_utf8(bytes@),
            BytesOrWideString::Wide(_) => false,
        }
    }

    /// Converts to text, lossily. Bytes that are well-formed UTF-8 are borrowed
    /// as they are; in every other case the text is decoded into a new string.
    pub fn to_str_lossy(&self) -> (text: Cow<'a, str>)
        ensures
            text@ == self.lossy_text(),
            text is Borrowed <==> self.is_well_formed_bytes(),
            self matches BytesOrWideString::Bytes(bytes) ==> (valid_utf8(bytes@) ==> text@
                == decode_utf8(bytes@)),
    {
        match self {
            BytesOrWideString::Bytes(bytes) => {
                match str_from_utf8(bytes) {
                    Some(borrowed) => {
                        proof {
                            encode_utf8_decode_utf8(borrowed@);
                            lemma_utf8_well_formed_exact(bytes@);
                        }
                        Cow::Borrowed(borrowed)
                    },
                    None => Cow::Owned(decode_utf8_lossy(bytes)),
                }
            },
            BytesOrWideString::Wide(units) => Cow::Owned(decode_utf16_lossy(units)),
        }
    }

    /// The converted text as a string of its own: what formatting the value
    /// writes out.
    pub fn to_string(&self) -> (text: String)
        ensures
            text@ == self.lossy_text(),
    {
        match self.to_str_lossy() {
            Cow::Borrowed(borrowed) => borrowed.to_owned(),
            Cow::Owned(owned) => owned,
        }
    }
}

/// Converting the same value again gives the same text: whatever two
/// conversions of `value` return, their contents are equal.
pub proof fn lemma_conversion_repeatable(
    value: BytesOrWideString,
    first: Cow<str>,
    second: Cow<str>,
)
    requires
        first@ == value.lossy_text(),
        second@ == value.lossy_text(),
    ensures
        first@ == second@,
{
}

} // verus!
