//! Lenient decoding of UTF-16.
//!
//! A code unit outside the surrogate range stands for itself. A high surrogate
//! directly followed by a low surrogate stands for one character above U+FFFF.
//! Every other surrogate is unpaired and decodes to U+FFFD.
use crate::text::{char_from_scalar, REPLACEMENT_CHARACTER};
use vstd::prelude::*;

verus! {

/// A code unit of the range reserved for the first half of a pair.
pub open spec fn is_high_surrogate(unit: u16) -> bool {
    0xD800 <= unit <= 0xDBFF
}

/// A code unit of the range reserved for the second half of a pair.
pub open spec fn is_low_surrogate(unit: u16) -> bool {
    0xDC00 <= unit <= 0xDFFF
}

/// A code unit that stands for no character by itself.
pub open spec fn is_surrogate(unit: u16) -> bool {
    0xD800 <= unit <= 0xDFFF
}

/// The scalar value that a surrogate pair encodes.
pub open spec fn pair_scalar(high: u16, low: u16) -> u32
    recommends
        is_high_surrogate(high),
        is_low_surrogate(low),
{
    (0x10000 + (high - 0xD800) * 0x400 + (low - 0xDC00)) as u32
}

/// The units begin with a high surrogate and the low surrogate that completes it.
pub open spec fn starts_with_pair(units: Seq<u16>) -> bool {
    units.len() >= 2 && is_high_surrogate(units[0]) && is_low_surrogate(units[1])
}

/// How many units the first decoded character takes up.
pub open spec fn first_len(units: Seq<u16>) -> int {
    if starts_with_pair(units) {
        2
    } else {
        1
    }
}

/// The first character that lenient decoding yields.
pub open spec fn first_char(units: Seq<u16>) -> char
    recommends
        units.len() > 0,
{
    if !is_surrogate(units[0]) {
        units[0] as char
    } else if starts_with_pair(units) {
        pair_scalar(units[0], units[1]) as char
    } else {
        REPLACEMENT_CHARACTER
    }
}

/// The text that lenient decoding of `units` yields.
pub open spec fn utf16_lossy_text(units: Seq<u16>) -> Seq<char>
    decreases units.len(),
{
    if units.len() == 0 {
        Seq::empty()
    } else {
        seq![first_char(units)] + utf16_lossy_text(units.skip(first_len(units)))
    }
}

/// Decodes one character at `start`; returns it with the number of units it took.
fn decode_first(units: &[u16], start: usize) -> (step: (char, usize))
    requires
        start < units.len(),
    ensures
        step.0 == first_char(units@.skip(start as int)),
        step.1 == first_len(units@.skip(start as int)),
        start + step.1 <= units.len(),
{
    let unit: u16 = units[start];
    if unit < 0xD800 || unit > 0xDFFF {
        (char_from_scalar(unit as u32), 1)
    } else if unit <= 0xDBFF && start + 1 < units.len() && 0xDC00 <= units[start + 1]
        && units[start + 1] <= 0xDFFF {
        let high: u32 = (unit - 0xD800) as u32;
        let low: u32 = (units[start + 1] - 0xDC00) as u32;
        (char_from_scalar(0x10000 + high * 0x400 + low), 2)
    } else {
        (REPLACEMENT_CHARACTER, 1)
    }
}

/// Decodes `units` as UTF-16, putting U+FFFD in place of each unpaired surrogate.
pub fn decode_utf16_lossy(units: &[u16]) -> (text: String)
    ensures
        text@ == utf16_lossy_text(units@),
{
    let mut text = String::new();
    let mut at: usize = 0;
    proof {
        assert(units@.skip(0) =~= units@);
        assert(text@ + utf16_lossy_text(units@) =~= utf16_lossy_text(units@));
    }
    while at < units.len()
        invariant
            at <= units.len(),
            text@ + utf16_lossy_text(units@.skip(at as int)) == utf16_lossy_text(units@),
        decreases units.len() - at,
    {
        let (c, taken) = decode_first(units, at);
        proof {
            let rest = units@.skip(at as int);
            assert(rest.skip(taken as int) == units@.skip(at + taken));
            assert(text@.push(c) + utf16_lossy_text(rest.skip(taken as int)) == text@
                + utf16_lossy_text(rest));
        }
        text.push(c);
        at = at + taken;
    }
    proof {
        assert(text@ + utf16_lossy_text(units@.skip(at as int)) =~= text@);
    }
    text
}

/// The code units that encode one character: itself below U+10000, a surrogate
/// pair from there on.
pub open spec fn encode_utf16_char(c: char) -> Seq<u16> {
    let value = c as u32;
    if value < 0x10000 {
        seq![value as u16]
    } else {
        seq![
            (0xD800 + (value - 0x10000) / 0x400) as u16,
            (0xDC00 + (value - 0x10000) % 0x400) as u16,
        ]
    }
}

/// The UTF-16 encoding of a text.
pub open spec fn encode_utf16(chars: Seq<char>) -> Seq<u16>
    decreases chars.len(),
{
    if chars.len() == 0 {
        Seq::empty()
    } else {
        encode_utf16_char(chars[0]) + encode_utf16(chars.drop_first())
    }
}

/// The units are made of non-surrogate units and complete surrogate pairs only.
pub open spec fn well_formed_utf16(units: Seq<u16>) -> bool
    decreases units.len(),
{
    units.len() != 0 ==> (!is_surrogate(units[0]) || starts_with_pair(units))
        && well_formed_utf16(units.skip(first_len(units)))
}

/// The surrogate at `at` has no partner: it is a low surrogate that no high
/// surrogate precedes, or a high surrogate that no low surrogate follows.
pub open spec fn is_unpaired_surrogate(units: Seq<u16>, at: int) -> bool {
    &&& 0 <= at < units.len()
    &&& is_surrogate(units[at])
    &&& is_low_surrogate(units[at]) ==> !(at > 0 && is_high_surrogate(units[at - 1]))
    &&& is_high_surrogate(units[at]) ==> !(at + 1 < units.len() && is_low_surrogate(units[at + 1]))
}

/// Decoding the encoding of one character followed by more units yields that
/// character, and goes on behind its units.
proof fn lemma_encoded_char_first(c: char, rest: Seq<u16>)
    ensures
        first_char(encode_utf16_char(c) + rest) == c,
        first_len(encode_utf16_char(c) + rest) == encode_utf16_char(c).len(),
        (encode_utf16_char(c) + rest).skip(first_len(encode_utf16_char(c) + rest)) == rest,
        !is_surrogate((encode_utf16_char(c) + rest)[0]) || starts_with_pair(
            encode_utf16_char(c) + rest,
        ),
{
    let units = encode_utf16_char(c) + rest;
    let value = c as u32;
    if value < 0x10000 {
        assert(units[0] == value as u16);
        assert(units.skip(1) =~= rest);
    } else {
        let high = (0xD800 + (value - 0x10000) / 0x400) as u16;
        let low = (0xDC00 + (value - 0x10000) % 0x400) as u16;
        assert(units[0] == high);
        assert(units[1] == low);
        assert(pair_scalar(high, low) == value);
        assert(units.skip(2) =~= rest);
    }
}

/// Every text comes back unchanged from decoding its UTF-16 encoding, which is
/// well formed.
pub proof fn lemma_utf16_decodes_encoding(chars: Seq<char>)
    ensures
        well_formed_utf16(encode_utf16(chars)),
        utf16_lossy_text(encode_utf16(chars)) == chars,
    decreases chars.len(),
{
    if chars.len() > 0 {
        let rest = encode_utf16(chars.drop_first());
        lemma_encoded_char_first(chars[0], rest);
        lemma_utf16_decodes_encoding(chars.drop_first());
        assert(seq![chars[0]] + chars.drop_first() =~= chars);
    }
}

/// Well-formed units are decoded exactly: the text that comes out is the one
/// whose UTF-16 encoding the units are.
pub proof fn lemma_utf16_well_formed_exact(units: Seq<u16>)
    requires
        well_formed_utf16(units),
    ensures
        encode_utf16(utf16_lossy_text(units)) == units,
    decreases units.len(),
{
    if units.len() > 0 {
        let taken = first_len(units);
        let rest = units.skip(taken);
        let text = utf16_lossy_text(units);
        lemma_utf16_well_formed_exact(rest);
        assert(text.drop_first() =~= utf16_lossy_text(rest));
        assert(text[0] == first_char(units));
        if !is_surrogate(units[0]) {
            assert(encode_utf16_char(text[0]) =~= seq![units[0]]);
        } else {
            let value = pair_scalar(units[0], units[1]);
            assert((value - 0x10000) / 0x400 == units[0] - 0xD800);
            assert((value - 0x10000) % 0x400 == units[1] - 0xDC00);
            assert(encode_utf16_char(text[0]) =~= seq![units[0], units[1]]);
        }
        assert(encode_utf16_char(text[0]) + rest =~= units);
    }
}

/// Decoding may be done in two parts wherever the cut does not separate a high
/// surrogate from the low surrogate behind it.
pub proof fn lemma_utf16_split(units: Seq<u16>, at: int)
    requires
        0 <= at <= units.len(),
        !(0 < at < units.len() && is_high_surrogate(units[at - 1]) && is_low_surrogate(units[at])),
    ensures
        utf16_lossy_text(units) == utf16_lossy_text(units.take(at)) + utf16_lossy_text(
            units.skip(at),
        ),
    decreases units.len(),
{
    let front = units.take(at);
    let back = units.skip(at);
    if at == 0 {
        assert(back =~= units);
        assert(utf16_lossy_text(front) + utf16_lossy_text(back) =~= utf16_lossy_text(units));
    } else {
        let taken = first_len(units);
        assert(first_len(front) == taken);
        assert(first_char(front) == first_char(units));
        lemma_utf16_split(units.skip(taken), at - taken);
        assert(units.skip(taken).take(at - taken) =~= front.skip(taken));
        assert(units.skip(taken).skip(at - taken) =~= back);
        assert(utf16_lossy_text(units) =~= utf16_lossy_text(front) + utf16_lossy_text(back));
    }
}

/// An unpaired surrogate becomes one U+FFFD, at the place where it stood: what
/// comes before it and what comes after it are decoded as if it were not there.
pub proof fn lemma_utf16_unpaired_surrogate(units: Seq<u16>, at: int)
    requires
        is_unpaired_surrogate(units, at),
    ensures
        utf16_lossy_text(units) == utf16_lossy_text(units.take(at)).push(REPLACEMENT_CHARACTER)
            + utf16_lossy_text(units.skip(at + 1)),
{
    let back = units.skip(at);
    lemma_utf16_split(units, at);
    assert(first_char(back) == REPLACEMENT_CHARACTER);
    assert(first_len(back) == 1);
    assert(back.skip(1) =~= units.skip(at + 1));
    assert(utf16_lossy_text(back) =~= seq![REPLACEMENT_CHARACTER] + utf16_lossy_text(
        units.skip(at + 1),
    ));
    assert(utf16_lossy_text(units) =~= utf16_lossy_text(units.take(at)).push(
        REPLACEMENT_CHARACTER,
    ) + utf16_lossy_text(units.skip(at + 1)));
}

} // verus!
