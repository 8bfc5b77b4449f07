use b64d::app::{App, DecodeFileError, RunAction};
use b64d::extractor::ExtractError;
use b64d::path_resolver::PathResolver;
use b64d::platform::fallback::is_running_in_console;
use std::path::Path;

#[test]
fn test_app_decode_duplicate() {
    let temp_dir = Path::new("test_app_dup_dir");
    let input_file = temp_dir.join("payload.txt");
    let contents: &[u8] = b"SGVsbG8gd29ybGQ=";
    let app = App::new(true);

    let mut written: Vec<String> = Vec::new();
    let stem = input_file.file_stem().and_then(|s| s.to_str());
    let ext = input_file.extension().and_then(|s| s.to_str());

    let decoded = app.decode_contents(contents).unwrap();
    let name1 = PathResolver::generate_unique_path(stem, ext, |n: &str| {
        written.iter().any(|w| w == n)
    })
    .unwrap();
    let res1 = temp_dir.join(&name1);
    assert_eq!(res1, temp_dir.join("payload-decoded.txt"));
    assert_eq!(String::from_utf8(decoded).unwrap(), "Hello world");
    written.push(name1);

    let decoded = app.decode_contents(contents).unwrap();
    let name2 = PathResolver::generate_unique_path(stem, ext, |n: &str| {
        written.iter().any(|w| w == n)
    })
    .unwrap();
    let res2 = temp_dir.join(&name2);
    assert_eq!(res2, temp_dir.join("payload-decoded(1).txt"));
    assert_eq!(String::from_utf8(decoded).unwrap(), "Hello world");
}

#[test]
fn decode_contents_errors() {
    let app = App::new(false);
    assert_eq!(app.decode_contents(b""), Err(DecodeFileError::EmptyFile));
    assert_eq!(
        app.decode_contents(b"   \n"),
        Err(DecodeFileError::Extract(ExtractError::NoReadableText))
    );
    assert_eq!(
        app.decode_contents(b"-----BEGIN X\nAAAA\n-----END X\n"),
        Ok(vec![0, 0, 0])
    );
}

#[test]
fn decode_contents_no_base64_characters() {
    let app = App::new(true);
    // The PEM body is empty, so nothing is left to decode.
    assert_eq!(
        app.decode_contents(b"-----BEGIN X\n-----END X\nAAAA"),
        Err(DecodeFileError::NoBase64Characters)
    );
}

#[test]
fn run_chooses_action() {
    let args_none = vec!["b64d".to_string()];
    let args_files = vec!["b64d".to_string(), "a.txt".to_string()];
    assert_eq!(App::new(true).run(&args_none), RunAction::InteractivePrompt);
    assert_eq!(App::new(false).run(&args_none), RunAction::UsageDialog);
    assert_eq!(App::new(false).run(&args_files), RunAction::DecodeFiles);
    assert!(App::new(true).in_console());
    assert!(is_running_in_console());
}

#[test]
fn wrapped_encoding_decodes_back() {
    let app = App::new(true);
    let payload: Vec<u8> = (0..200u32).map(|i| (i * 7 + 3) as u8).collect();
    // "SGVsbG8gd29ybGQ=" style encoding of `payload`, made by a small encoder.
    const ALPHABET: &[u8; 64] = b"ABCDEFGHIJKLMNOPQRSTUVWXYZabcdefghijklmnopqrstuvwxyz0123456789+/";
    let mut encoded = String::new();
    for chunk in payload.chunks(3) {
        let n = ((chunk[0] as u32) << 16)
            | ((*chunk.get(1).unwrap_or(&0) as u32) << 8)
            | (*chunk.get(2).unwrap_or(&0) as u32);
        encoded.push(ALPHABET[(n >> 18) as usize & 63] as char);
        encoded.push(ALPHABET[(n >> 12) as usize & 63] as char);
        encoded.push(if chunk.len() > 1 { ALPHABET[(n >> 6) as usize & 63] as char } else { '=' });
        encoded.push(if chunk.len() > 2 { ALPHABET[n as usize & 63] as char } else { '=' });
    }
    for width in [1usize, 7, 64, 76] {
        for newline in ["\n", "\r\n"] {
            let mut wrapped = String::from("  \t");
            for (i, c) in encoded.chars().enumerate() {
                if i > 0 && i % width == 0 {
                    wrapped.push_str(newline);
                }
                wrapped.push(c);
            }
            wrapped.push_str(newline);
            assert_eq!(app.decode_contents(wrapped.as_bytes()), Ok(payload.clone()));
        }
    }
}

#[test]
fn extracted_payload_never_fails_to_decode() {
    let app = App::new(true);
    for raw in [&b"A=B=C-_"[..], b"==AAAA", b"ab-_cd", b"data:x,A=#", b"Zm9v\nYmFy"] {
        assert!(!matches!(app.decode_contents(raw), Err(DecodeFileError::Decode(_))));
    }
}

#[test]
fn path_from_input_strips_space_and_quotes() {
    assert_eq!(App::path_from_input("  \"C:\\dir\\file.txt\"\r\n"), "C:\\dir\\file.txt");
    assert_eq!(App::path_from_input("'/tmp/a b.txt'\n"), "/tmp/a b.txt");
    assert_eq!(App::path_from_input("\"'x'\""), "x");
    assert_eq!(App::path_from_input(" \" spaced \" "), " spaced ");
    assert_eq!(App::path_from_input("\u{3000}\n"), "");
    assert_eq!(App::path_from_input("\"\"\"\""), "");
}
