use b64d::decoder::Base64Decoder;
use b64d::extractor::{Base64Extractor, ExtractError};

#[test]
fn extract_plain_multiline_payload() {
    let raw = b"SGVs\r\nbG8g\n  d29y\tbGQ=\n";
    assert_eq!(Base64Extractor::extract(raw).unwrap(), "SGVsbG8gd29ybGQ=");
}

#[test]
fn extract_pem_block() {
    let raw = b"-----BEGIN CERTIFICATE-----\nSGVs\nbG8=\n-----END CERTIFICATE-----\n";
    assert_eq!(Base64Extractor::extract(raw).unwrap(), "SGVsbG8=");
}

#[test]
fn extract_pem_density_counts_text_after_header() {
    // The sample is checked from the header line on, END line and trailer
    // included.
    let raw = b"-----BEGIN CERTIFICATE-----\nSGVs\nbG8=\n-----END CERTIFICATE-----\ntrailer!!!";
    assert_eq!(
        Base64Extractor::extract(raw),
        Err(ExtractError::NotBase64 { valid: 39, total: 42 })
    );
}

#[test]
fn extract_pem_without_end_keeps_whole_text() {
    // Without an END line the whole text is filtered, header included.
    let raw = b"-----BEGIN X\nSGVs\n";
    assert_eq!(Base64Extractor::extract(raw).unwrap(), "-----BEGINXSGVs");
}

#[test]
fn extract_data_url() {
    let raw = b"data:image/png;base64,iVBORw0KGgo=";
    assert_eq!(Base64Extractor::extract(raw).unwrap(), "iVBORw0KGgo=");
    let raw = b"data:text/plain,SGk=";
    assert_eq!(Base64Extractor::extract(raw).unwrap(), "SGk=");
}

#[test]
fn extract_utf16_payload() {
    let raw = b"\xFF\xFES\x00G\x00V\x00s\x00\r\x00\n\x00b\x00G\x008\x00=\x00";
    assert_eq!(Base64Extractor::extract(raw).unwrap(), "SGVsbG8=");
}

#[test]
fn extract_refuses_white_space_only() {
    assert_eq!(Base64Extractor::extract(b" \n\t\r\n"), Err(ExtractError::NoReadableText));
    assert_eq!(Base64Extractor::extract(b""), Err(ExtractError::NoReadableText));
}

#[test]
fn extract_refuses_low_density() {
    // 19 of 20 characters valid is exactly 95%: accepted.
    let ok = b"AAAAAAAAAAAAAAAAAAA!";
    assert_eq!(Base64Extractor::extract(ok).unwrap(), "AAAAAAAAAAAAAAAAAAA");
    // 18 of 19 is under 95%: refused.
    let bad = b"AAAAAAAAAAAAAAAAAA!";
    assert_eq!(
        Base64Extractor::extract(bad),
        Err(ExtractError::NotBase64 { valid: 18, total: 19 })
    );
    assert_eq!(
        Base64Extractor::extract(b"Hello, world!"),
        Err(ExtractError::NotBase64 { valid: 10, total: 12 })
    );
}

#[test]
fn extract_short_utf16_without_bom() {
    let raw = b"S\x00G\x00V\x00s\x00b\x00G\x008\x00=\x00";
    assert_eq!(Base64Extractor::extract(raw).unwrap(), "SGVsbG8=");
}

#[test]
fn extract_ignores_inserted_white_space() {
    let plain = b"SGVsbG8gd29ybGQ=";
    let wrapped = b" SG\tVs\r\nbG8g\n\nd29y bGQ=\r\n";
    assert_eq!(Base64Extractor::extract(wrapped), Base64Extractor::extract(plain));
    let bad = b"Hello, world!";
    let bad_wrapped = b"Hel\nlo,\r\n wor\tld!";
    assert_eq!(Base64Extractor::extract(bad_wrapped), Base64Extractor::extract(bad));
}

#[test]
fn extractor_alphabet_matches_decoder() {
    for code in 0u32..0x3000 {
        if let Some(c) = char::from_u32(code) {
            let kept = Base64Extractor::extract(c.to_string().repeat(4).as_bytes())
                .map(|s| s.len() == 4)
                .unwrap_or(false);
            let decodes = Base64Decoder::decode(&c.to_string()).is_ok();
            if !c.is_whitespace() && code != 0 {
                assert_eq!(kept, decodes, "character U+{:04X}", code);
            }
        }
    }
}

#[test]
fn is_valid_b64_char_matches_decoder() {
    for code in 0u32..0x800 {
        if let Some(c) = char::from_u32(code) {
            assert_eq!(
                Base64Extractor::is_valid_b64_char(c),
                Base64Decoder::decode(&c.to_string()).is_ok(),
                "character U+{:04X}",
                code
            );
        }
    }
}
