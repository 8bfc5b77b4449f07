use b64d::decoder::Base64Decoder;

#[test]
fn test_decode_b64_basic() {
    assert_eq!(Base64Decoder::decode("SGVsbG8=").unwrap(), b"Hello");
    assert_eq!(Base64Decoder::decode("SGVsbG8gd29ybGQ=").unwrap(), b"Hello world");
}

#[test]
fn test_decode_b64_unpadded() {
    assert_eq!(Base64Decoder::decode("SGVsbG8").unwrap(), b"Hello");
    assert_eq!(Base64Decoder::decode("SGVsbG8gd29ybGQ").unwrap(), b"Hello world");
}

#[test]
fn test_decode_b64_whitespace() {
    assert_eq!(Base64Decoder::decode("SGVsbG8=").unwrap(), b"Hello");
}

#[test]
fn test_decode_b64_url_safe() {
    assert_eq!(Base64Decoder::decode("+/8=").unwrap(), vec![251, 255]);
    assert_eq!(Base64Decoder::decode("-_8=").unwrap(), vec![251, 255]);
}

#[test]
fn decode_empty_input_gives_no_bytes() {
    assert_eq!(Base64Decoder::decode("").unwrap(), Vec::<u8>::new());
    assert_eq!(Base64Decoder::decode("=").unwrap(), Vec::<u8>::new());
}

#[test]
fn decode_ignores_everything_after_first_pad() {
    assert_eq!(Base64Decoder::decode("SGVsbG8=!!garbage").unwrap(), b"Hello");
    assert_eq!(Base64Decoder::decode("SGVs=bG8").unwrap(), b"Hel");
}

#[test]
fn decode_reports_first_invalid_character() {
    assert_eq!(
        Base64Decoder::decode("SGV sbG8").unwrap_err(),
        "Invalid character ' ' in base64"
    );
    assert_eq!(
        Base64Decoder::decode("SG*V$").unwrap_err(),
        "Invalid character '*' in base64"
    );
}

#[test]
fn decode_reports_leading_byte_of_non_ascii_character() {
    // 'é' is 0xC3 0xA9 in UTF-8; the message shows the first byte as a char.
    assert_eq!(
        Base64Decoder::decode("SGé").unwrap_err(),
        "Invalid character 'Ã' in base64"
    );
}

#[test]
fn decode_drops_leftover_bits() {
    // One digit holds only 6 bits: no whole byte.
    assert_eq!(Base64Decoder::decode("S").unwrap(), Vec::<u8>::new());
    assert_eq!(Base64Decoder::decode("AAAA").unwrap(), vec![0, 0, 0]);
    assert_eq!(Base64Decoder::decode("////").unwrap(), vec![255, 255, 255]);
    assert_eq!(Base64Decoder::decode("AQID").unwrap(), vec![1, 2, 3]);
}

#[test]
fn decode_block_concatenation() {
    let a = Base64Decoder::decode("SGVs").unwrap();
    let b = Base64Decoder::decode("bG8").unwrap();
    let ab = Base64Decoder::decode("SGVsbG8").unwrap();
    assert_eq!([a, b].concat(), ab);
}

fn encode_standard(bytes: &[u8]) -> String {
    const ALPHABET: &[u8; 64] = b"ABCDEFGHIJKLMNOPQRSTUVWXYZabcdefghijklmnopqrstuvwxyz0123456789+/";
    let mut out = String::new();
    for chunk in bytes.chunks(3) {
        let b0 = chunk[0] as u32;
        let b1 = *chunk.get(1).unwrap_or(&0) as u32;
        let b2 = *chunk.get(2).unwrap_or(&0) as u32;
        let n = (b0 << 16) | (b1 << 8) | b2;
        out.push(ALPHABET[(n >> 18) as usize & 63] as char);
        out.push(ALPHABET[(n >> 12) as usize & 63] as char);
        out.push(if chunk.len() > 1 { ALPHABET[(n >> 6) as usize & 63] as char } else { '=' });
        out.push(if chunk.len() > 2 { ALPHABET[n as usize & 63] as char } else { '=' });
    }
    out
}

#[test]
fn decode_inverts_standard_encoding() {
    for len in 0..64usize {
        let bytes: Vec<u8> = (0..len).map(|i| (i * 37 + 11) as u8).collect();
        let encoded = encode_standard(&bytes);
        assert_eq!(Base64Decoder::decode(&encoded).unwrap(), bytes);
    }
    let all: Vec<u8> = (0..=255u8).collect();
    assert_eq!(Base64Decoder::decode(&encode_standard(&all)).unwrap(), all);
}

#[test]
fn decode_url_safe_matches_standard() {
    let standard = "+/+/ab+/";
    let url_safe = "-_-_ab-_";
    assert_eq!(
        Base64Decoder::decode(standard).unwrap(),
        Base64Decoder::decode(url_safe).unwrap()
    );
    assert_eq!(
        Base64Decoder::decode("-_!").unwrap_err(),
        Base64Decoder::decode("+/!").unwrap_err()
    );
}

#[test]
fn decode_block_error_comes_from_later_block() {
    assert_eq!(
        Base64Decoder::decode("SGVs#").unwrap_err(),
        Base64Decoder::decode("#").unwrap_err()
    );
}
