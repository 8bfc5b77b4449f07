use vstd::prelude::*;
use vstd::string::StringSliceAdditionalSpecFns;
use vstd::utf8::{encode_utf8, is_ascii_chars, is_ascii_chars_encode_utf8};
use crate::decoder::{
    Base64Decoder, all_digits, b64_encode, data_len, decode_spec, invalid_char_message, is_pad,
    law_decode_inverts_encode, lemma_data_len_props, lemma_first_invalid_none, sextet_of,
};
use crate::extractor::{
    Base64Extractor, ExtractError, count_non_space, extract_spec, is_ascii_white_space,
    is_b64_char, is_std_b64_char, is_white_space, is_wrapped_b64, keep_b64, lemma_wrapped_b64,
    sample_len, sample_text,
};
use crate::text_codec::{Codec, chars_of, detect_spec, lemma_ascii_text, string_from_chars, text_of};

verus! {

/// The standard Base64 encoding of `x`, as text.
pub open spec fn b64_text(x: Seq<u8>) -> Seq<char> {
    b64_encode(x).map_values(|b: u8| b as char)
}

proof fn lemma_count_non_space_pos(t: Seq<char>, i: int)
    requires
        0 <= i < t.len(),
        !is_white_space(t[i]),
    ensures
        count_non_space(t) > 0,
    decreases t.len(),
{
    if i < t.len() - 1 {
        assert(t.drop_last()[i] == t[i]);
        lemma_count_non_space_pos(t.drop_last(), i);
    }
}

proof fn lemma_b64_text_bytes(x: Seq<u8>)
    ensures
        is_ascii_chars(b64_text(x)),
        encode_utf8(b64_text(x)) == b64_encode(x),
        b64_text(x).len() == b64_encode(x).len(),
{
    let e = b64_encode(x);
    let t = b64_text(x);
    assert forall|j: int| 0 <= j < e.len() implies #[trigger] e[j] < 128 by {}
    assert(is_ascii_chars(t));
    is_ascii_chars_encode_utf8(t);
    assert forall|j: int| 0 <= j < e.len() implies encode_utf8(t)[j] == e[j] by {
        assert(t[j] as u8 == encode_utf8(t)[j]);
    }
    assert(encode_utf8(t) =~= e);
}

/// A file that holds the standard Base64 encoding of some bytes, with ASCII
/// white space put anywhere in it (lines wrapped at any width, LF or CRLF),
/// is decoded back to exactly those bytes: the extracted payload is the
/// encoding without the white space, and it decodes to `x`. The bytes must
/// not be empty, and the first 8192 characters must not all be white space
/// (else the density check finds nothing to read).
pub proof fn law_wrapped_encoding_decodes(x: Seq<u8>, w: Seq<char>)
    requires
        x.len() > 0,
        is_wrapped_b64(w),
        keep_b64(w) == b64_text(x),
        exists|i: int| 0 <= i < w.len() && i < 8192 && !is_ascii_white_space(#[trigger] w[i]),
    ensures
        extract_spec(encode_utf8(w)) == Ok::<Seq<char>, ExtractError>(b64_text(x)),
        b64_text(x).len() > 0,
        decode_spec(encode_utf8(b64_text(x))) == Ok::<Seq<u8>, u8>(x),
{
    assert(is_ascii_chars(w)) by {
        assert forall|i: int| 0 <= i < w.len() implies '\0' <= #[trigger] w[i] <= '\u{7f}' by {
            assert(is_std_b64_char(w[i]) || is_ascii_white_space(w[i]));
        }
    }
    assert forall|i: int| 0 <= i < w.len() implies #[trigger] w[i] != '\0' by {
        assert(is_std_b64_char(w[i]) || is_ascii_white_space(w[i]));
    }
    lemma_ascii_text(w);
    let raw = encode_utf8(w);
    let l = sample_len(raw);
    let st = w.take(l);
    assert(text_of(raw.take(l), Codec::Utf8) == st);
    assert(sample_text(raw) == st);
    assert(is_wrapped_b64(st)) by {
        assert forall|i: int| 0 <= i < st.len() implies is_std_b64_char(
            #[trigger] st[i],
        ) || is_ascii_white_space(st[i]) by {
            assert(st[i] == w[i]);
        }
    }
    lemma_wrapped_b64(st);
    let i = choose|i: int| 0 <= i < w.len() && i < 8192 && !is_ascii_white_space(#[trigger] w[i]);
    assert(st[i] == w[i]);
    assert(is_std_b64_char(w[i]));
    lemma_count_non_space_pos(st, i);
    assert(raw.take(raw.len() as int) =~= raw);
    assert(text_of(raw, Codec::Utf8) == w) by {
        assert(w.take(w.len() as int) =~= w);
        assert(text_of(raw.take(w.len() as int), Codec::Utf8) == w.take(w.len() as int));
    }
    lemma_wrapped_b64(w);
    lemma_b64_text_bytes(x);
    law_decode_inverts_encode(x);
}

proof fn lemma_keep_b64_chars(t: Seq<char>)
    ensures
        forall|i: int| 0 <= i < keep_b64(t).len() ==> is_b64_char(#[trigger] keep_b64(t)[i]),
    decreases t.len(),
{
    if t.len() > 0 {
        lemma_keep_b64_chars(t.drop_last());
        let prev = keep_b64(t.drop_last());
        assert forall|i: int| 0 <= i < keep_b64(t).len() implies is_b64_char(
            #[trigger] keep_b64(t)[i],
        ) by {
            if i < prev.len() {
                assert(keep_b64(t)[i] == prev[i]);
            }
        }
    }
}

/// Whatever the extraction keeps decodes without error: every character it
/// keeps is a Base64 digit or `=`, and decoding stops at the first `=`.
pub proof fn law_extracted_payload_decodes(t: Seq<char>)
    ensures
        decode_spec(encode_utf8(keep_b64(t))) is Ok,
{
    let k = keep_b64(t);
    lemma_keep_b64_chars(t);
    assert(is_ascii_chars(k)) by {
        assert forall|i: int| 0 <= i < k.len() implies '\0' <= #[trigger] k[i] <= '\u{7f}' by {
            assert(is_b64_char(k[i]));
        }
    }
    is_ascii_chars_encode_utf8(k);
    let b = encode_utf8(k);
    assert forall|i: int| 0 <= i < b.len() implies is_pad(#[trigger] b[i]) || sextet_of(b[i]) is Some by {
        assert(k[i] as u8 == b[i]);
        assert(is_b64_char(k[i]));
    }
    lemma_data_len_props(b);
    let d = b.take(data_len(b));
    assert(all_digits(d)) by {
        assert forall|i: int| 0 <= i < d.len() implies (#[trigger] sextet_of(d[i])) is Some by {
            assert(d[i] == b[i]);
            assert(!is_pad(b[i]));
        }
    }
    lemma_first_invalid_none(d);
}

/// `t` without the characters satisfying `p` at either end, removed one at a
/// time until neither end has one.
pub open spec fn strip_ends(t: Seq<char>, p: spec_fn(char) -> bool) -> Seq<char>
    decreases t.len(),
{
    if t.len() > 0 && p(t[0]) {
        strip_ends(t.drop_first(), p)
    } else if t.len() > 0 && p(t.last()) {
        strip_ends(t.drop_last(), p)
    } else {
        t
    }
}

/// A typed path with surrounding white space, then double quotes, then
/// single quotes removed.
pub open spec fn cleaned_path(line: Seq<char>) -> Seq<char> {
    strip_ends(
        strip_ends(strip_ends(line, |c: char| is_white_space(c)), |c: char| c == '"'),
        |c: char| c == '\'',
    )
}

/// `strip_ends` keeps a contiguous part of `t` and removes only characters
/// satisfying `p`, at the two ends.
proof fn lemma_strip_ends_slice(t: Seq<char>, p: spec_fn(char) -> bool) -> (r: (int, int))
    ensures
        0 <= r.0 <= r.1 <= t.len(),
        strip_ends(t, p) == t.subrange(r.0, r.1),
        forall|k: int| 0 <= k < r.0 ==> p(#[trigger] t[k]),
        forall|k: int| r.1 <= k < t.len() ==> p(#[trigger] t[k]),
    decreases t.len(),
{
    if t.len() > 0 && p(t[0]) {
        let r = lemma_strip_ends_slice(t.drop_first(), p);
        assert(t.drop_first().subrange(r.0, r.1) =~= t.subrange(r.0 + 1, r.1 + 1));
        assert forall|k: int| 0 <= k < r.0 + 1 implies p(#[trigger] t[k]) by {
            if k > 0 {
                assert(t[k] == t.drop_first()[k - 1]);
            }
        }
        assert forall|k: int| r.1 + 1 <= k < t.len() implies p(#[trigger] t[k]) by {
            assert(t[k] == t.drop_first()[k - 1]);
        }
        (r.0 + 1, r.1 + 1)
    } else if t.len() > 0 && p(t.last()) {
        let r = lemma_strip_ends_slice(t.drop_last(), p);
        assert(t.drop_last().subrange(r.0, r.1) =~= t.subrange(r.0, r.1));
        assert forall|k: int| 0 <= k < r.0 implies p(#[trigger] t[k]) by {
            assert(t[k] == t.drop_last()[k]);
        }
        assert forall|k: int| r.1 <= k < t.len() implies p(#[trigger] t[k]) by {
            if k < t.len() - 1 {
                assert(t[k] == t.drop_last()[k]);
            }
        }
        r
    } else {
        assert(t.subrange(0, t.len() as int) =~= t);
        (0, t.len() as int)
    }
}

/// White space or a quote: what cleaning a typed path may remove.
pub open spec fn is_path_padding(c: char) -> bool {
    is_white_space(c) || c == '"' || c == '\''
}

/// Cleaning a typed path only removes white space and quotes at its two
/// ends: what remains is one contiguous part of the line, so a quote or a
/// space inside the path is kept. The result is `line[r.0..r.1]`.
pub proof fn law_cleaned_path_is_slice(line: Seq<char>) -> (r: (int, int))
    ensures
        0 <= r.0 <= r.1 <= line.len(),
        cleaned_path(line) == line.subrange(r.0, r.1),
        forall|k: int| 0 <= k < r.0 ==> is_path_padding(#[trigger] line[k]),
        forall|k: int| r.1 <= k < line.len() ==> is_path_padding(#[trigger] line[k]),
{
    let pw = |c: char| is_white_space(c);
    let pd = |c: char| c == '"';
    let ps = |c: char| c == '\'';
    let s1 = strip_ends(line, pw);
    let s2 = strip_ends(s1, pd);
    let r1 = lemma_strip_ends_slice(line, pw);
    let r2 = lemma_strip_ends_slice(s1, pd);
    let r3 = lemma_strip_ends_slice(s2, ps);
    let lo = r1.0 + r2.0 + r3.0;
    let hi = r1.0 + r2.0 + r3.1;
    assert(cleaned_path(line) == strip_ends(s2, ps));
    assert(line.subrange(lo, hi) =~= s2.subrange(r3.0, r3.1));
    assert forall|k: int| 0 <= k < lo implies is_path_padding(#[trigger] line[k]) by {
        if k < r1.0 {
            assert(pw(line[k]));
        } else if k < r1.0 + r2.0 {
            assert(s1[k - r1.0] == line[k]);
            assert(pd(s1[k - r1.0]));
        } else {
            assert(s1[k - r1.0] == line[k]);
            assert(s2[k - r1.0 - r2.0] == s1[k - r1.0]);
            assert(ps(s2[k - r1.0 - r2.0]));
        }
    }
    assert forall|k: int| hi <= k < line.len() implies is_path_padding(#[trigger] line[k]) by {
        if k >= r1.1 {
            assert(pw(line[k]));
        } else if k >= r1.0 + r2.1 {
            assert(s1[k - r1.0] == line[k]);
            assert(pd(s1[k - r1.0]));
        } else {
            assert(s1[k - r1.0] == line[k]);
            assert(s2[k - r1.0 - r2.0] == s1[k - r1.0]);
            assert(ps(s2[k - r1.0 - r2.0]));
        }
    }
    (lo, hi)
}

/// Which characters `strip_ends_exec` removes.
enum Strip {
    WhiteSpace,
    DoubleQuote,
    SingleQuote,
}

spec fn strip_pred(which: Strip) -> spec_fn(char) -> bool {
    match which {
        Strip::WhiteSpace => |c: char| is_white_space(c),
        Strip::DoubleQuote => |c: char| c == '"',
        Strip::SingleQuote => |c: char| c == '\'',
    }
}

fn strip_matches(which: &Strip, c: char) -> (r: bool)
    ensures
        r == strip_pred(*which)(c),
{
    match which {
        Strip::WhiteSpace => crate::extractor::is_white_space_char(c),
        Strip::DoubleQuote => c == '"',
        Strip::SingleQuote => c == '\'',
    }
}

fn strip_ends_exec(t: &Vec<char>, which: Strip) -> (r: Vec<char>)
    ensures
        r@ == strip_ends(t@, strip_pred(which)),
{
    let ghost p = strip_pred(which);
    let mut lo: usize = 0;
    let mut hi: usize = t.len();
    assert(t@.subrange(0, t@.len() as int) =~= t@);
    while lo < hi && strip_matches(&which, t[lo])
        invariant
            lo <= hi <= t@.len(),
            p == strip_pred(which),
            strip_ends(t@.subrange(lo as int, hi as int), p) == strip_ends(t@, p),
        decreases hi - lo,
    {
        assert(t@.subrange(lo as int, hi as int).drop_first() =~= t@.subrange(lo + 1, hi as int));
        lo = lo + 1;
    }
    while hi > lo && strip_matches(&which, t[hi - 1])
        invariant
            lo <= hi <= t@.len(),
            p == strip_pred(which),
            lo == hi || !p(t@[lo as int]),
            strip_ends(t@.subrange(lo as int, hi as int), p) == strip_ends(t@, p),
        decreases hi - lo,
    {
        assert(t@.subrange(lo as int, hi as int).drop_last() =~= t@.subrange(lo as int, hi - 1));
        hi = hi - 1;
    }
    let mut r: Vec<char> = Vec::new();
    let mut i = lo;
    while i < hi
        invariant
            lo <= i <= hi <= t@.len(),
            r@ =~= t@.subrange(lo as int, i as int),
        decreases hi - i,
    {
        r.push(t[i]);
        i = i + 1;
    }
    r
}

/// What a run of the program does with its command line.
#[derive(Debug, Clone, Copy, PartialEq, Eq, Structural)]
pub enum RunAction {
    /// No file given, in a console: ask for a path.
    InteractivePrompt,
    /// No file given, started from the desktop: show how to use the program.
    UsageDialog,
    /// Decode each file named after the program's own name.
    DecodeFiles,
}

/// Why the contents of a file could not be decoded.
#[derive(Debug, PartialEq, Eq)]
pub enum DecodeFileError {
    /// The file holds no bytes.
    EmptyFile,
    /// The contents do not look like a Base64 payload.
    Extract(ExtractError),
    /// The payload holds no Base64 characters.
    NoBase64Characters,
    /// The payload is not valid Base64; the message says why.
    Decode(String),
}

/// The application state: whether it runs in a console.
pub struct App {
    in_console: bool,
}

impl App {
    /// Whether the application reports to a console.
    pub closed spec fn spec_in_console(&self) -> bool {
        self.in_console
    }

    /// An application that reports to a console when `in_console`, else
    /// through dialogs.
    pub fn new(in_console: bool) -> (app: App)
        ensures
            app.spec_in_console() == in_console,
    {
        App { in_console }
    }

    /// Whether the application reports to a console.
    pub fn in_console(&self) -> (r: bool)
        ensures
            r == self.spec_in_console(),
    {
        self.in_console
    }

    /// Decides what to do with the command line `args` (the program's own
    /// name first): decode the files named after it, or, with none, prompt
    /// for one in a console or show usage instructions.
    pub fn run(&self, args: &[String]) -> (action: RunAction)
        ensures
            action == (if args@.len() < 2 {
                if self.spec_in_console() {
                    RunAction::InteractivePrompt
                } else {
                    RunAction::UsageDialog
                }
            } else {
                RunAction::DecodeFiles
            }),
    {
        if args.len() < 2 {
            if self.in_console {
                RunAction::InteractivePrompt
            } else {
                RunAction::UsageDialog
            }
        } else {
            RunAction::DecodeFiles
        }
    }

    /// The path that a line typed at the prompt names: the line without
    /// surrounding white space, then without surrounding double quotes, then
    /// without surrounding single quotes.
    pub fn path_from_input(line: &str) -> (path: String)
        ensures
            path@ == cleaned_path(line@),
    {
        let chars = chars_of(line);
        let trimmed = strip_ends_exec(&chars, Strip::WhiteSpace);
        let unquoted = strip_ends_exec(&trimmed, Strip::DoubleQuote);
        let cleaned = strip_ends_exec(&unquoted, Strip::SingleQuote);
        string_from_chars(&cleaned)
    }

    /// The bytes that a file with contents `raw_bytes` decodes to: its
    /// Base64 payload (see `Base64Extractor::extract`) decoded.
    pub fn decode_contents(&self, raw_bytes: &[u8]) -> (res: Result<Vec<u8>, DecodeFileError>)
        ensures
            raw_bytes@.len() == 0 ==> res == Err::<Vec<u8>, DecodeFileError>(
                DecodeFileError::EmptyFile,
            ),
            raw_bytes@.len() > 0 ==> match extract_spec(raw_bytes@) {
                Err(e) => res == Err::<Vec<u8>, DecodeFileError>(DecodeFileError::Extract(e)),
                Ok(t) => if t.len() == 0 {
                    res == Err::<Vec<u8>, DecodeFileError>(DecodeFileError::NoBase64Characters)
                } else {
                    match decode_spec(encode_utf8(t)) {
                        Ok(v) => res matches Ok(out) && out@ == v,
                        Err(b) => res matches Err(DecodeFileError::Decode(m)) && m@
                            == invalid_char_message(b),
                    }
                },
            },
    {
        if raw_bytes.len() == 0 {
            return Err(DecodeFileError::EmptyFile);
        }
        let b64_str = match Base64Extractor::extract(raw_bytes) {
            Ok(s) => s,
            Err(e) => return Err(DecodeFileError::Extract(e)),
        };
        if b64_str.as_str().is_empty() {
            return Err(DecodeFileError::NoBase64Characters);
        }
        match Base64Decoder::decode(b64_str.as_str()) {
            Ok(v) => Ok(v),
            Err(m) => Err(DecodeFileError::Decode(m)),
        }
    }
}

} // verus!
