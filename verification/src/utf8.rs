//! Lenient decoding of UTF-8.
//!
//! Bytes that begin a well-formed encoding of a scalar value decode to that
//! character. Anywhere else one U+FFFD is put out for the longest run of bytes
//! that still begins a well-formed sequence (or for a single byte, where none
//! begins there), and decoding goes on behind that run.
use crate::text::{char_from_scalar, REPLACEMENT_CHARACTER};
use vstd::prelude::*;
use vstd::utf8::{
    codepoint_width_1, codepoint_width_2, codepoint_width_3, codepoint_width_4, decode_first_scalar,
    decode_utf8, encode_utf8, encode_utf8_decode_utf8, encode_utf8_valid_utf8,
    is_continuation_byte, is_scalar, length_of_first_scalar, pop_first_scalar, valid_first_scalar,
    valid_utf8,
};

verus! {

/// The number of bytes in a well-formed sequence that begins with `lead`, and 0
/// where no well-formed sequence begins with it.
pub open spec fn sequence_len(lead: u8) -> int {
    if lead <= 0x7F {
        1
    } else if 0xC2 <= lead <= 0xDF {
        2
    } else if 0xE0 <= lead <= 0xEF {
        3
    } else if 0xF0 <= lead <= 0xF4 {
        4
    } else {
        0
    }
}

/// Whether `second` may directly follow the leading byte `lead`. After four of
/// the leading bytes only part of the continuation range is allowed: the rest
/// would encode a value in more bytes than needed, a surrogate, or a value
/// above U+10FFFF.
pub open spec fn second_byte_fits(lead: u8, second: u8) -> bool {
    if lead == 0xE0 {
        0xA0 <= second <= 0xBF
    } else if lead == 0xED {
        0x80 <= second <= 0x9F
    } else if lead == 0xF0 {
        0x90 <= second <= 0xBF
    } else if lead == 0xF4 {
        0x80 <= second <= 0x8F
    } else {
        0x80 <= second <= 0xBF
    }
}

/// How many bytes at the start of `bytes` begin a well-formed sequence: the
/// leading byte, then each following byte as long as it fits and the sequence
/// is not yet complete.
pub open spec fn matched_len(bytes: Seq<u8>) -> int {
    if bytes.len() == 0 || sequence_len(bytes[0]) == 0 {
        0
    } else if sequence_len(bytes[0]) == 1 || bytes.len() < 2 || !second_byte_fits(
        bytes[0],
        bytes[1],
    ) {
        1
    } else if sequence_len(bytes[0]) == 2 || bytes.len() < 3 || !is_continuation_byte(bytes[2]) {
        2
    } else if sequence_len(bytes[0]) == 3 || bytes.len() < 4 || !is_continuation_byte(bytes[3]) {
        3
    } else {
        4
    }
}

/// The number of bytes that one U+FFFD replaces where `bytes` does not begin
/// with a well-formed sequence: between one and three.
pub open spec fn ill_formed_len(bytes: Seq<u8>) -> int
    recommends
        bytes.len() > 0,
        !valid_first_scalar(bytes),
{
    if matched_len(bytes) == 0 {
        1
    } else {
        matched_len(bytes)
    }
}

/// How many bytes the first decoded character takes up.
pub open spec fn first_len(bytes: Seq<u8>) -> int
    recommends
        bytes.len() > 0,
{
    if valid_first_scalar(bytes) {
        length_of_first_scalar(bytes)
    } else {
        ill_formed_len(bytes)
    }
}

/// The first character that lenient decoding yields.
pub open spec fn first_char(bytes: Seq<u8>) -> char
    recommends
        bytes.len() > 0,
{
    if valid_first_scalar(bytes) {
        decode_first_scalar(bytes) as char
    } else {
        REPLACEMENT_CHARACTER
    }
}

/// Whether lenient decoding of `bytes` begins a character at `at`, or ends
/// there: the places where one decoded character stops and the next starts.
pub open spec fn starts_character(bytes: Seq<u8>, at: int) -> bool
    decreases bytes.len(),
{
    if at == 0 {
        true
    } else if at < 0 || bytes.len() == 0 {
        false
    } else {
        first_len(bytes) <= at && starts_character(
            bytes.skip(first_len(bytes)),
            at - first_len(bytes),
        )
    }
}

/// The text that lenient decoding of `bytes` yields.
pub open spec fn utf8_lossy_text(bytes: Seq<u8>) -> Seq<char>
    decreases bytes.len(),
{
    if bytes.len() == 0 {
        Seq::empty()
    } else {
        seq![first_char(bytes)] + utf8_lossy_text(bytes.skip(first_len(bytes)))
    }
}

/// A byte below 0x80 encodes its own value.
proof fn lemma_one_byte(lead: u8)
    by (bit_vector)
    requires
        lead <= 0x7F,
    ensures
        codepoint_width_1(lead) == lead,
{
}

/// What two bytes encode is at least U+0080 exactly when the leading byte is at
/// least 0xC2, and always below U+0800.
proof fn lemma_two_bytes(lead: u8, second: u8)
    by (bit_vector)
    requires
        0xC0 <= lead <= 0xDF,
        0x80 <= second <= 0xBF,
    ensures
        0x80 <= codepoint_width_2(lead, second) <==> 0xC2 <= lead,
        codepoint_width_2(lead, second) <= 0x7FF,
{
}

/// What three bytes encode is at least U+0800 unless 0xE0 is followed by a byte
/// below 0xA0, a surrogate exactly when 0xED is followed by a byte from 0xA0
/// on, and never above U+FFFF.
proof fn lemma_three_bytes(lead: u8, second: u8, third: u8)
    by (bit_vector)
    requires
        0xE0 <= lead <= 0xEF,
        0x80 <= second <= 0xBF,
        0x80 <= third <= 0xBF,
    ensures
        0x800 <= codepoint_width_3(lead, second, third) <==> !(lead == 0xE0 && second < 0xA0),
        0xD800 <= codepoint_width_3(lead, second, third) <= 0xDFFF <==> lead == 0xED && 0xA0
            <= second,
        codepoint_width_3(lead, second, third) <= 0xFFFF,
{
}

/// What four bytes encode lies from U+10000 to U+10FFFF exactly when the
/// leading byte is at most 0xF4, 0xF0 is followed by a byte from 0x90 on, and
/// 0xF4 by a byte below 0x90.
proof fn lemma_four_bytes(lead: u8, second: u8, third: u8, fourth: u8)
    by (bit_vector)
    requires
        0xF0 <= lead <= 0xF7,
        0x80 <= second <= 0xBF,
        0x80 <= third <= 0xBF,
        0x80 <= fourth <= 0xBF,
    ensures
        0x10000 <= codepoint_width_4(lead, second, third, fourth) <= 0x10FFFF <==> lead <= 0xF4
            && !(lead == 0xF0 && second < 0x90) && !(lead == 0xF4 && 0x90 <= second),
{
}

/// The byte ranges above single out exactly the sequences that encode a scalar
/// value: `bytes` begins with the encoding of one if and only if as many bytes
/// fit as its leading byte asks for.
pub proof fn lemma_first_scalar_by_ranges(bytes: Seq<u8>)
    ensures
        valid_first_scalar(bytes) <==> matched_len(bytes) > 0 && matched_len(bytes)
            == sequence_len(bytes[0]),
        valid_first_scalar(bytes) ==> length_of_first_scalar(bytes) == sequence_len(bytes[0])
            && is_scalar(decode_first_scalar(bytes)),
        bytes.len() > 0 ==> 1 <= first_len(bytes) <= bytes.len() && first_len(bytes) <= 4,
        bytes.len() > 0 && !valid_first_scalar(bytes) ==> first_len(bytes) <= 3,
{
    if bytes.len() > 0 {
        let lead = bytes[0];
        if lead <= 0x7F {
            lemma_one_byte(lead);
        } else if 0xC0 <= lead <= 0xDF {
            if bytes.len() >= 2 && is_continuation_byte(bytes[1]) {
                lemma_two_bytes(lead, bytes[1]);
            }
        } else if 0xE0 <= lead <= 0xEF {
            if bytes.len() >= 3 && is_continuation_byte(bytes[1]) && is_continuation_byte(
                bytes[2],
            ) {
                lemma_three_bytes(lead, bytes[1], bytes[2]);
            }
        } else if 0xF0 <= lead <= 0xF7 {
            if bytes.len() >= 4 && is_continuation_byte(bytes[1]) && is_continuation_byte(bytes[2])
                && is_continuation_byte(bytes[3]) {
                lemma_four_bytes(lead, bytes[1], bytes[2], bytes[3]);
            }
        }
    }
}

/// Whether `byte` is a continuation byte.
fn is_continuation(byte: u8) -> (fits: bool)
    ensures
        fits == is_continuation_byte(byte),
{
    0x80 <= byte && byte <= 0xBF
}

/// Whether `second` may follow the leading byte `lead`.
fn second_fits(lead: u8, second: u8) -> (fits: bool)
    ensures
        fits == second_byte_fits(lead, second),
{
    if lead == 0xE0 {
        0xA0 <= second && second <= 0xBF
    } else if lead == 0xED {
        0x80 <= second && second <= 0x9F
    } else if lead == 0xF0 {
        0x90 <= second && second <= 0xBF
    } else if lead == 0xF4 {
        0x80 <= second && second <= 0x8F
    } else {
        0x80 <= second && second <= 0xBF
    }
}

/// Decodes one character at `start`; returns it with the number of bytes it took.
fn decode_first(bytes: &[u8], start: usize) -> (step: (char, usize))
    requires
        start < bytes.len(),
    ensures
        step.0 == first_char(bytes@.skip(start as int)),
        step.1 == first_len(bytes@.skip(start as int)),
        start + step.1 <= bytes.len(),
{
    let len: usize = bytes.len();
    let lead: u8 = bytes[start];
    proof {
        lemma_first_scalar_by_ranges(bytes@.skip(start as int));
    }
    if lead <= 0x7F {
        proof {
            lemma_one_byte(lead);
        }
        (char_from_scalar(lead as u32), 1)
    } else if lead < 0xC2 || lead > 0xF4 {
        (REPLACEMENT_CHARACTER, 1)
    } else if len - start < 2 || !second_fits(lead, bytes[start + 1]) {
        (REPLACEMENT_CHARACTER, 1)
    } else if lead <= 0xDF {
        let second: u8 = bytes[start + 1];
        let value: u32 = (((lead & 0x1F) as u32) << 6) | ((second & 0x3F) as u32);
        (char_from_scalar(value), 2)
    } else if len - start < 3 || !is_continuation(bytes[start + 2]) {
        (REPLACEMENT_CHARACTER, 2)
    } else if lead <= 0xEF {
        let second: u8 = bytes[start + 1];
        let third: u8 = bytes[start + 2];
        let value: u32 = (((lead & 0x0F) as u32) << 12)
            | (((second & 0x3F) as u32) << 6)
            | ((third & 0x3F) as u32);
        (char_from_scalar(value), 3)
    } else if len - start < 4 || !is_continuation(bytes[start + 3]) {
        (REPLACEMENT_CHARACTER, 3)
    } else {
        let second: u8 = bytes[start + 1];
        let third: u8 = bytes[start + 2];
        let fourth: u8 = bytes[start + 3];
        let value: u32 = (((lead & 0x07) as u32) << 18)
            | (((second & 0x3F) as u32) << 12)
            | (((third & 0x3F) as u32) << 6)
            | ((fourth & 0x3F) as u32);
        (char_from_scalar(value), 4)
    }
}

/// Decodes `bytes` as UTF-8, putting U+FFFD in place of whatever is not well
/// formed.
pub fn decode_utf8_lossy(bytes: &[u8]) -> (text: String)
    ensures
        text@ == utf8_lossy_text(bytes@),
{
    let mut text = String::new();
    let mut at: usize = 0;
    proof {
        assert(bytes@.skip(0) =~= bytes@);
        assert(text@ + utf8_lossy_text(bytes@) =~= utf8_lossy_text(bytes@));
    }
    while at < bytes.len()
        invariant
            at <= bytes.len(),
            text@ + utf8_lossy_text(bytes@.skip(at as int)) == utf8_lossy_text(bytes@),
        decreases bytes.len() - at,
    {
        let (c, taken) = decode_first(bytes, at);
        proof {
            let rest = bytes@.skip(at as int);
            lemma_first_scalar_by_ranges(rest);
            assert(rest.skip(taken as int) == bytes@.skip(at + taken));
            assert(text@.push(c) + utf8_lossy_text(rest.skip(taken as int)) == text@
                + utf8_lossy_text(rest));
        }
        text.push(c);
        at = at + taken;
    }
    proof {
        assert(text@ + utf8_lossy_text(bytes@.skip(at as int)) =~= text@);
    }
    text
}

/// Well-formed UTF-8 is decoded exactly: nothing is replaced, and the text is
/// the one that the bytes encode.
pub proof fn lemma_utf8_well_formed_exact(bytes: Seq<u8>)
    requires
        valid_utf8(bytes),
    ensures
        utf8_lossy_text(bytes) == decode_utf8(bytes),
    decreases bytes.len(),
{
    if bytes.len() > 0 {
        lemma_first_scalar_by_ranges(bytes);
        lemma_utf8_well_formed_exact(pop_first_scalar(bytes));
    }
}

/// Every text comes back unchanged from decoding its UTF-8 encoding.
pub proof fn lemma_utf8_decodes_encoding(chars: Seq<char>)
    ensures
        utf8_lossy_text(encode_utf8(chars)) == chars,
{
    encode_utf8_valid_utf8(chars);
    encode_utf8_decode_utf8(chars);
    lemma_utf8_well_formed_exact(encode_utf8(chars));
}

/// Where decoding may be cut in two: a first part ends with well-formed bytes,
/// or the second part does not begin with a continuation byte, then `at` is
/// where a character starts.
pub proof fn lemma_utf8_character_starts(bytes: Seq<u8>, at: int)
    requires
        0 <= at <= bytes.len(),
        valid_utf8(bytes.take(at)) || at == bytes.len() || !is_continuation_byte(bytes[at]),
    ensures
        starts_character(bytes, at),
    decreases bytes.len(),
{
    if at > 0 {
        let front = bytes.take(at);
        lemma_first_scalar_by_ranges(bytes);
        lemma_first_scalar_by_ranges(front);
        let taken = first_len(bytes);
        if valid_utf8(front) {
            assert(matched_len(bytes) == matched_len(front));
            assert(bytes.skip(taken).take(at - taken) =~= pop_first_scalar(front));
        }
        lemma_utf8_character_starts(bytes.skip(taken), at - taken);
    }
}

/// Decoding may be done in two parts wherever a character starts.
pub proof fn lemma_utf8_split(bytes: Seq<u8>, at: int)
    requires
        starts_character(bytes, at),
    ensures
        0 <= at <= bytes.len(),
        utf8_lossy_text(bytes) == utf8_lossy_text(bytes.take(at)) + utf8_lossy_text(
            bytes.skip(at),
        ),
    decreases bytes.len(),
{
    let front = bytes.take(at);
    let back = bytes.skip(at);
    if at == 0 {
        assert(back =~= bytes);
        assert(utf8_lossy_text(front) + utf8_lossy_text(back) =~= utf8_lossy_text(bytes));
    } else {
        lemma_first_scalar_by_ranges(bytes);
        let taken = first_len(bytes);
        lemma_utf8_split(bytes.skip(taken), at - taken);
        lemma_first_scalar_by_ranges(front);
        assert(matched_len(front) == matched_len(bytes));
        assert(first_len(front) == taken);
        assert(first_char(front) == first_char(bytes));
        assert(bytes.skip(taken).take(at - taken) =~= front.skip(taken));
        assert(bytes.skip(taken).skip(at - taken) =~= back);
        assert(utf8_lossy_text(bytes) =~= utf8_lossy_text(front) + utf8_lossy_text(back));
    }
}

/// A well-formed run of bytes is kept as it is, wherever it stands: what comes
/// before it and what comes after it are decoded by themselves.
pub proof fn lemma_utf8_well_formed_run_kept(before: Seq<u8>, run: Seq<u8>, after: Seq<u8>)
    requires
        valid_utf8(run),
        run.len() > 0,
    ensures
        utf8_lossy_text(before + run + after) == utf8_lossy_text(before) + decode_utf8(run)
            + utf8_lossy_text(after),
{
    let bytes = before + run + after;
    let tail = run + after;
    assert(bytes[before.len() as int] == run[0]);
    lemma_utf8_character_starts(bytes, before.len() as int);
    lemma_utf8_split(bytes, before.len() as int);
    assert(bytes.take(before.len() as int) =~= before);
    assert(bytes.skip(before.len() as int) =~= tail);
    assert(tail.take(run.len() as int) =~= run);
    assert(tail.skip(run.len() as int) =~= after);
    lemma_utf8_character_starts(tail, run.len() as int);
    lemma_utf8_split(tail, run.len() as int);
    lemma_utf8_well_formed_exact(run);
}

/// Wherever a character starts and the bytes from there on do not begin with a
/// well-formed sequence, one U+FFFD stands in that place for between one and
/// three bytes; what comes before them and what comes after them are decoded
/// by themselves.
pub proof fn lemma_utf8_ill_formed_replaced(bytes: Seq<u8>, at: int)
    requires
        starts_character(bytes, at),
        at < bytes.len(),
        !valid_first_scalar(bytes.skip(at)),
    ensures
        1 <= ill_formed_len(bytes.skip(at)) <= 3,
        at + ill_formed_len(bytes.skip(at)) <= bytes.len(),
        utf8_lossy_text(bytes) == utf8_lossy_text(bytes.take(at)).push(REPLACEMENT_CHARACTER)
            + utf8_lossy_text(bytes.skip(at + ill_formed_len(bytes.skip(at)))),
{
    let back = bytes.skip(at);
    let taken = ill_formed_len(back);
    lemma_utf8_split(bytes, at);
    lemma_first_scalar_by_ranges(back);
    assert(back.skip(taken) =~= bytes.skip(at + taken));
    assert(utf8_lossy_text(bytes) =~= utf8_lossy_text(bytes.take(at)).push(REPLACEMENT_CHARACTER)
        + utf8_lossy_text(bytes.skip(at + taken)));
}

/// Bytes that are not well-formed UTF-8 never decode without a U+FFFD.
pub proof fn lemma_utf8_ill_formed_marked(bytes: Seq<u8>)
    requires
        !valid_utf8(bytes),
    ensures
        utf8_lossy_text(bytes).contains(REPLACEMENT_CHARACTER),
    decreases bytes.len(),
{
    let text = utf8_lossy_text(bytes);
    if valid_first_scalar(bytes) {
        lemma_first_scalar_by_ranges(bytes);
        let rest = bytes.skip(first_len(bytes));
        assert(rest == pop_first_scalar(bytes));
        lemma_utf8_ill_formed_marked(rest);
        let at = choose|at: int|
            0 <= at < utf8_lossy_text(rest).len() && utf8_lossy_text(rest)[at]
                == REPLACEMENT_CHARACTER;
        assert(text[at + 1] == REPLACEMENT_CHARACTER);
    } else {
        assert(text[0] == REPLACEMENT_CHARACTER);
    }
}

} // verus!
