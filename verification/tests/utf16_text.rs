use app_launcher::utf16::{decode_lossy, decode_strict, encode, to_wide};

#[test]
fn encode_writes_one_unit_or_a_pair() {
    assert_eq!(encode(""), Vec::<u16>::new());
    assert_eq!(encode("aé起"), vec![0x61, 0xE9, 0x8D77]);
    assert_eq!(encode("\u{10000}"), vec![0xD800, 0xDC00]);
    assert_eq!(encode("\u{10FFFF}"), vec![0xDBFF, 0xDFFF]);
    assert_eq!(encode("x🚀y"), vec![0x78, 0xD83D, 0xDE80, 0x79]);
    assert_eq!(encode("\u{FFFF}"), vec![0xFFFF]);
}

#[test]
fn encode_agrees_with_the_standard_library() {
    let text = "C:\\ゲーム\\🚀 launcher\\a.exe";
    assert_eq!(encode(text), text.encode_utf16().collect::<Vec<u16>>());
}

#[test]
fn decode_lossy_replaces_unpaired_surrogates() {
    assert_eq!(decode_lossy(&[]), "");
    assert_eq!(decode_lossy(&[0x61, 0xD800, 0x62]), "a\u{FFFD}b");
    assert_eq!(decode_lossy(&[0xDC00, 0xD800]), "\u{FFFD}\u{FFFD}");
    assert_eq!(decode_lossy(&[0xD800, 0xD83D, 0xDE80]), "\u{FFFD}🚀");
    let units: [u16; 6] = [0xD83D, 0xDE80, 0xDFFF, 0x41, 0xDBFF, 0xE000];
    assert_eq!(decode_lossy(&units), String::from_utf16_lossy(&units));
}

#[test]
fn decode_strict_refuses_unpaired_surrogates() {
    assert_eq!(decode_strict(&[]), Some(String::new()));
    assert_eq!(decode_strict(&[0x61, 0xD83D, 0xDE80]), Some("a🚀".to_string()));
    assert_eq!(decode_strict(&[0x61, 0xD83D]), None);
    assert_eq!(decode_strict(&[0xDE80, 0xD83D]), None);
}

#[test]
fn to_wide_closes_with_a_zero() {
    assert_eq!(to_wide(""), vec![0]);
    assert_eq!(to_wide("a.lnk"), vec![0x61, 0x2E, 0x6C, 0x6E, 0x6B, 0]);
}

#[test]
fn decoding_gives_back_what_was_encoded() {
    let text = "\u{0}A\u{D7FF}\u{E000}\u{FFFF}\u{10000}\u{10FFFF}起動";
    assert_eq!(decode_strict(&encode(text)), Some(text.to_string()));
    assert_eq!(decode_lossy(&encode(text)), text);
}

#[test]
fn encoding_gives_back_what_was_decoded() {
    let units: Vec<u16> = vec![0x41, 0xD83D, 0xDE80, 0xFFFD];
    let text = decode_strict(&units).unwrap();
    assert_eq!(encode(&text), units);
}

#[test]
fn wide_text_holds_a_zero_inside_only_if_the_text_does() {
    assert_eq!(to_wide("ab").iter().position(|u| *u == 0), Some(2));
    assert_eq!(to_wide("a\u{0}b").iter().position(|u| *u == 0), Some(1));
}

#[test]
fn a_piece_between_plain_units_is_text() {
    let units = encode("🚀.🛰");
    assert_eq!(decode_strict(&units[..2]), Some("🚀".to_string()));
    assert_eq!(decode_strict(&units[3..]), Some("🛰".to_string()));
    assert_eq!(decode_strict(&units[1..]), None);
}
