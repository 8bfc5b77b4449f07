use b64d::text_codec::{Codec, TextCodec};

#[test]
fn test_codec_utf8_with_bom() {
    let bytes = b"\xEF\xBB\xBFHello";
    assert_eq!(TextCodec::to_utf8_string(bytes), "Hello");
}

#[test]
fn test_codec_utf16_le_bom() {
    let bytes = b"\xFF\xFEH\x00e\x00l\x00l\x00o\x00";
    assert_eq!(TextCodec::to_utf8_string(bytes), "Hello");
}

#[test]
fn test_codec_utf16_be_bom() {
    let bytes = b"\xFE\xFF\x00H\x00e\x00l\x00l\x00o";
    assert_eq!(TextCodec::to_utf8_string(bytes), "Hello");
}

#[test]
fn test_codec_utf16_le_heuristic() {
    // Longer sequence to trigger the 70%+ null ratio heuristic
    let mut bytes = Vec::new();
    for _ in 0..10 {
        bytes.extend_from_slice(b"H\x00e\x00l\x00l\x00o\x00 \x00w\x00o\x00r\x00l\x00d\x00!\x00");
    }
    assert!(TextCodec::to_utf8_string(&bytes).contains("Hello world!"));
}

#[test]
fn detect_codec_by_byte_order_mark() {
    assert_eq!(TextCodec::detect_codec(b"\xEF\xBB\xBFabc"), Codec::Utf8);
    assert_eq!(TextCodec::detect_codec(b"\xFF\xFEa\x00"), Codec::Utf16Le);
    assert_eq!(TextCodec::detect_codec(b"\xFE\xFF\x00a"), Codec::Utf16Be);
}

#[test]
fn detect_codec_big_endian_heuristic() {
    let mut bytes = Vec::new();
    for _ in 0..10 {
        bytes.extend_from_slice(b"\x00A\x00B");
    }
    assert_eq!(TextCodec::detect_codec(&bytes), Codec::Utf16Be);
    assert_eq!(TextCodec::to_utf8_string(&bytes), "AB".repeat(10));
}

#[test]
fn detect_codec_short_or_plain_input_is_utf8() {
    assert_eq!(TextCodec::detect_codec(b""), Codec::Utf8);
    // Under four bytes nothing is scanned.
    assert_eq!(TextCodec::detect_codec(b"H\x00"), Codec::Utf8);
    assert_eq!(TextCodec::detect_codec(b"plain ascii text"), Codec::Utf8);
}

#[test]
fn detect_codec_short_utf16_without_bom() {
    let le = b"S\x00G\x00V\x00s\x00b\x00G\x008\x00=\x00";
    assert_eq!(TextCodec::detect_codec(le), Codec::Utf16Le);
    assert_eq!(TextCodec::to_utf8_string(le), "SGVsbG8=");
    assert_eq!(TextCodec::detect_codec(b"H\x00i\x00"), Codec::Utf16Le);
    assert_eq!(TextCodec::detect_codec(b"\x00H\x00i"), Codec::Utf16Be);
    // One zero first byte among two pairs is not under 10%.
    assert_eq!(TextCodec::detect_codec(b"\x00\x00i\x00"), Codec::Utf8);
}

#[test]
fn decode_utf16_surrogates() {
    // U+1F600 is D83D DE00; a lone high surrogate becomes U+FFFD and the unit
    // after it is read again.
    let le = b"\xFF\xFE\x3D\xD8\x00\xDE\x3D\xD8A\x00";
    assert_eq!(TextCodec::to_utf8_string(le), "\u{1F600}\u{FFFD}A");
    let be = b"\xDC\x00\x00B";
    assert_eq!(TextCodec::decode_with_codec(be, &Codec::Utf16Be), "\u{FFFD}B");
}

#[test]
fn decode_utf16_drops_odd_last_byte() {
    assert_eq!(TextCodec::decode_with_codec(b"A\x00B", &Codec::Utf16Le), "A");
}

#[test]
fn decode_utf8_is_lossy() {
    assert_eq!(TextCodec::decode_with_codec(b"a\xFFb", &Codec::Utf8), "a\u{FFFD}b");
    assert_eq!(TextCodec::decode_with_codec(b"\xEF\xBB\xBFx", &Codec::Utf8), "x");
}

#[test]
fn utf16_with_bom_round_trip_any_text() {
    let text = "Grüße 😀 日本 \u{FFFD}";
    let mut le = vec![0xFF, 0xFE];
    let mut be = vec![0xFE, 0xFF];
    for unit in text.encode_utf16() {
        le.extend_from_slice(&unit.to_le_bytes());
        be.extend_from_slice(&unit.to_be_bytes());
    }
    assert_eq!(TextCodec::to_utf8_string(&le), text);
    assert_eq!(TextCodec::to_utf8_string(&be), text);
}

#[test]
fn utf8_round_trip_with_and_without_bom() {
    let text = "héllo wörld ✓ 😀";
    assert_eq!(TextCodec::detect_codec(text.as_bytes()), Codec::Utf8);
    assert_eq!(TextCodec::to_utf8_string(text.as_bytes()), text);
    let mut with_bom = vec![0xEF, 0xBB, 0xBF];
    with_bom.extend_from_slice(text.as_bytes());
    assert_eq!(TextCodec::to_utf8_string(&with_bom), text);
}

#[test]
fn utf16_latin1_detected_without_bom() {
    let text = "Ça va très bien, merci";
    let le: Vec<u8> = text.encode_utf16().flat_map(|u| u.to_le_bytes()).collect();
    let be: Vec<u8> = text.encode_utf16().flat_map(|u| u.to_be_bytes()).collect();
    assert_eq!(TextCodec::detect_codec(&le), Codec::Utf16Le);
    assert_eq!(TextCodec::detect_codec(&be), Codec::Utf16Be);
    assert_eq!(TextCodec::to_utf8_string(&le), text);
    assert_eq!(TextCodec::to_utf8_string(&be), text);
}

#[test]
fn ansi_text_keeps_its_ascii_characters() {
    // Windows-1252 "résumé: SGk=" — the é bytes are not UTF-8.
    let bytes = b"r\xe9sum\xe9: SGk=";
    let text = TextCodec::to_utf8_string(bytes);
    let ascii: String = text.chars().filter(|c| c.is_ascii()).collect();
    assert_eq!(ascii, "rsum: SGk=");
    assert!(text.contains('\u{FFFD}'));
}

#[test]
fn detect_codec_keeps_rounded_threshold_from_ten_pairs() {
    // 15 pairs, one of them with a zero first byte: 1 is not under 15 / 10.
    let mut bytes = Vec::new();
    for _ in 0..14 {
        bytes.extend_from_slice(b"A\x00");
    }
    bytes.extend_from_slice(b"\x00\x00");
    assert_eq!(TextCodec::detect_codec(&bytes), Codec::Utf8);
    // 20 pairs, one with a zero first byte: 1 is under 20 / 10.
    let mut bytes = Vec::new();
    for _ in 0..19 {
        bytes.extend_from_slice(b"A\x00");
    }
    bytes.extend_from_slice(b"\x00\x00");
    assert_eq!(TextCodec::detect_codec(&bytes), Codec::Utf16Le);
}
