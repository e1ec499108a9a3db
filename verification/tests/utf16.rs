use bytes_or_wide::utf16::decode_utf16_lossy;
use bytes_or_wide::BytesOrWideString;

#[test]
fn utf16_empty_input_is_empty_text() {
    assert_eq!(decode_utf16_lossy(&[]), "");
}

#[test]
fn utf16_units_outside_the_surrogate_range_stand_for_themselves() {
    assert_eq!(decode_utf16_lossy(&[0x0000]), "\u{0}");
    assert_eq!(decode_utf16_lossy(&[0x0041]), "A");
    assert_eq!(decode_utf16_lossy(&[0x20AC]), "\u{20AC}");
    assert_eq!(decode_utf16_lossy(&[0xD7FF]), "\u{D7FF}");
    assert_eq!(decode_utf16_lossy(&[0xE000]), "\u{E000}");
    assert_eq!(decode_utf16_lossy(&[0xFFFF]), "\u{FFFF}");
}

#[test]
fn utf16_an_encoded_replacement_character_is_kept() {
    assert_eq!(decode_utf16_lossy(&[0xFFFD]), "\u{FFFD}");
}

#[test]
fn utf16_a_surrogate_pair_is_one_character() {
    assert_eq!(decode_utf16_lossy(&[0xD83D, 0xDE00]), "\u{1F600}");
    assert_eq!(decode_utf16_lossy(&[0xD834, 0xDD1E]), "\u{1D11E}");
    assert_eq!(decode_utf16_lossy(&[0xD800, 0xDC00]), "\u{10000}");
    assert_eq!(decode_utf16_lossy(&[0xD800, 0xDFFF]), "\u{103FF}");
    assert_eq!(decode_utf16_lossy(&[0xD801, 0xDC00]), "\u{10400}");
    assert_eq!(decode_utf16_lossy(&[0xDBFF, 0xDC00]), "\u{10FC00}");
    assert_eq!(decode_utf16_lossy(&[0xDBFF, 0xDFFF]), "\u{10FFFF}");
}

#[test]
fn utf16_a_lone_low_surrogate_is_replaced() {
    assert_eq!(decode_utf16_lossy(&[0xDC00]), "\u{FFFD}");
    assert_eq!(decode_utf16_lossy(&[0xDFFF]), "\u{FFFD}");
    assert_eq!(decode_utf16_lossy(&[0x61, 0xDC00, 0x62]), "a\u{FFFD}b");
}

#[test]
fn utf16_a_high_surrogate_without_its_partner_is_replaced() {
    assert_eq!(decode_utf16_lossy(&[0xD800]), "\u{FFFD}");
    assert_eq!(decode_utf16_lossy(&[0xDBFF]), "\u{FFFD}");
    assert_eq!(decode_utf16_lossy(&[0xD800, 0x0041]), "\u{FFFD}A");
    assert_eq!(decode_utf16_lossy(&[0x61, 0xD83D]), "a\u{FFFD}");
}

#[test]
fn utf16_decoding_goes_on_correctly_behind_an_unpaired_surrogate() {
    assert_eq!(decode_utf16_lossy(&[0xD800, 0xD83D, 0xDE00]), "\u{FFFD}\u{1F600}");
    assert_eq!(decode_utf16_lossy(&[0xD83D, 0xDE00, 0xDE00]), "\u{1F600}\u{FFFD}");
    assert_eq!(decode_utf16_lossy(&[0xDC00, 0xD800]), "\u{FFFD}\u{FFFD}");
    assert_eq!(decode_utf16_lossy(&[0xDC00, 0xD800, 0xDC00]), "\u{FFFD}\u{10000}");
    assert_eq!(
        decode_utf16_lossy(&[0x68, 0xD800, 0x69, 0xDFFF, 0xD834, 0xDD1E, 0x21]),
        "h\u{FFFD}i\u{FFFD}\u{1D11E}!"
    );
}

#[test]
fn utf16_an_unpaired_surrogate_is_replaced_where_it_stood() {
    let units = [0x61u16, 0xD83D, 0xDE00, 0xDBFF, 0x62, 0xD83D, 0xDE00];
    let at = 3;
    let mut expected = decode_utf16_lossy(&units[..at]);
    expected.push('\u{FFFD}');
    expected.push_str(&decode_utf16_lossy(&units[at + 1..]));
    assert_eq!(decode_utf16_lossy(&units), expected);
    assert_eq!(decode_utf16_lossy(&units), "a\u{1F600}\u{FFFD}b\u{1F600}");
}

#[test]
fn utf16_well_formed_units_decode_as_the_text_they_encode() {
    let texts = ["", "plain", "na\u{EF}ve", "\u{20AC}100", "\u{1F600}\u{1F601}", "a\u{0}b", "\u{FFFD}"];
    for text in texts {
        let units: Vec<u16> = text.encode_utf16().collect();
        assert_eq!(decode_utf16_lossy(&units), text);
        assert_eq!(BytesOrWideString::Wide(&units).to_str_lossy(), text);
        let back: Vec<u16> = decode_utf16_lossy(&units).encode_utf16().collect();
        assert_eq!(back, units);
    }
}

#[test]
fn utf16_every_character_comes_back_from_its_encoding() {
    let mut buffer = [0u16; 2];
    for value in 0..=0x10FFFFu32 {
        if let Some(c) = char::from_u32(value) {
            let encoded = c.encode_utf16(&mut buffer);
            let text = decode_utf16_lossy(encoded);
            let mut chars = text.chars();
            assert_eq!(chars.next(), Some(c));
            assert_eq!(chars.next(), None);
        }
    }
}

#[test]
fn utf16_decoding_can_be_split_anywhere_but_inside_a_pair() {
    let units = [0x61u16, 0xD83D, 0xDE00, 0xDC00, 0xD800, 0xD800, 0xDC00, 0x62, 0xDBFF];
    for at in 0..=units.len() {
        let inside_pair = at > 0
            && at < units.len()
            && (0xD800..=0xDBFF).contains(&units[at - 1])
            && (0xDC00..=0xDFFF).contains(&units[at]);
        if !inside_pair {
            let mut joined = decode_utf16_lossy(&units[..at]);
            joined.push_str(&decode_utf16_lossy(&units[at..]));
            assert_eq!(decode_utf16_lossy(&units), joined);
        }
    }
}

#[test]
fn utf16_agrees_with_std_on_every_single_unit() {
    for unit in 0..=0xFFFFu16 {
        let units = [unit];
        assert_eq!(decode_utf16_lossy(&units), String::from_utf16_lossy(&units));
    }
}

#[test]
fn utf16_agrees_with_std_on_pairs_of_units() {
    let picks = [
        0x0000u16, 0x0041, 0xD7FF, 0xD800, 0xD801, 0xDABC, 0xDBFE, 0xDBFF, 0xDC00, 0xDC01, 0xDEAD, 0xDFFE,
        0xDFFF, 0xE000, 0xFFFD, 0xFFFF,
    ];
    for first in picks {
        for second in 0..=0xFFFFu16 {
            let units = [first, second];
            assert_eq!(decode_utf16_lossy(&units), String::from_utf16_lossy(&units));
        }
    }
}

#[test]
fn utf16_agrees_with_std_on_mixed_inputs() {
    let pool = [
        0x0041u16, 0x00E9, 0xD7FF, 0xD800, 0xD83D, 0xDBFF, 0xDC00, 0xDE00, 0xDFFF, 0xE000, 0xFFFD, 0xFFFF,
    ];
    let mut state: u64 = 0x9E37_79B9_7F4A_7C15;
    for _ in 0..20_000 {
        let mut units = Vec::new();
        state = state.wrapping_mul(6364136223846793005).wrapping_add(1442695040888963407);
        let len = (state >> 60) as usize;
        for _ in 0..len {
            state = state.wrapping_mul(6364136223846793005).wrapping_add(1442695040888963407);
            units.push(pool[((state >> 33) % pool.len() as u64) as usize]);
        }
        let value = BytesOrWideString::Wide(&units);
        assert_eq!(value.to_str_lossy(), String::from_utf16_lossy(&units));
        assert_eq!(decode_utf16_lossy(&units), String::from_utf16_lossy(&units));
    }
}
