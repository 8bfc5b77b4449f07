use vstd::prelude::*;
use vstd::slice::slice_subrange;
use vstd::utf8::{encode_utf8, is_ascii_chars};
use crate::decoder::{
    decode_spec, lemma_data_len, lemma_data_len_at_least, lemma_first_invalid_at,
    lemma_first_invalid_none, data_len,
};
use crate::text_codec::{
    Codec, TextCodec, chars_of, detect_spec, zeros_in_pairs, lemma_ascii_text, lemma_char_utf8,
    string_from_chars, text_of,
};

verus! {

/// A character of the standard or URL-safe Base64 alphabet, or the padding `=`.
pub open spec fn is_b64_char(c: char) -> bool {
    ('A' <= c <= 'Z') || ('a' <= c <= 'z') || ('0' <= c <= '9') || c == '+' || c == '/'
        || c == '-' || c == '_' || c == '='
}

/// A character with the Unicode `White_Space` property.
pub open spec fn is_white_space(c: char) -> bool {
    ('\u{9}' <= c <= '\u{d}') || c == ' ' || c == '\u{85}' || c == '\u{a0}' || c == '\u{1680}'
        || ('\u{2000}' <= c <= '\u{200a}') || c == '\u{2028}' || c == '\u{2029}'
        || c == '\u{202f}' || c == '\u{205f}' || c == '\u{3000}'
}

/// `needle` stands in `hay` at position `p`.
pub open spec fn occurs_at(hay: Seq<char>, needle: Seq<char>, p: int) -> bool {
    0 <= p && p + needle.len() <= hay.len() && hay.subrange(p, p + needle.len()) == needle
}

/// The first position at or after `from` where `needle` stands in `hay`.
pub open spec fn find_from(hay: Seq<char>, needle: Seq<char>, from: int) -> Option<int>
    decreases hay.len() + 1 - from,
{
    if from < 0 || from + needle.len() > hay.len() {
        None
    } else if occurs_at(hay, needle, from) {
        Some(from)
    } else {
        find_from(hay, needle, from + 1)
    }
}

pub open spec fn pem_begin() -> Seq<char> {
    seq!['-', '-', '-', '-', '-', 'B', 'E', 'G', 'I', 'N']
}

pub open spec fn pem_end() -> Seq<char> {
    seq!['-', '-', '-', '-', '-', 'E', 'N', 'D']
}

pub open spec fn data_scheme() -> Seq<char> {
    seq!['d', 'a', 't', 'a', ':']
}

pub open spec fn base64_marker() -> Seq<char> {
    seq![';', 'b', 'a', 's', 'e', '6', '4', ',']
}

/// What follows the prefix of a Data URL (`data:` ... `;base64,` or `,`);
/// text that does not start with `data:` is kept whole.
pub open spec fn strip_data_url(t: Seq<char>) -> Seq<char> {
    if occurs_at(t, data_scheme(), 0) {
        match find_from(t, base64_marker(), 0) {
            Some(p) => t.skip(p + 8),
            None => match find_from(t, seq![','], 0) {
                Some(p) => t.skip(p + 1),
                None => t,
            },
        }
    } else {
        t
    }
}

/// The part of the sample that the density check looks at: after the line
/// of a PEM header when there is one, else after a Data URL prefix.
pub open spec fn sample_target(t: Seq<char>) -> Seq<char> {
    match find_from(t, pem_begin(), 0) {
        Some(b) => match find_from(t, seq!['\n'], b) {
            Some(nl) => t.skip(nl + 1),
            None => t,
        },
        None => strip_data_url(t),
    }
}

/// The lines between a PEM header line and the following `-----END`; the
/// whole text where there is no such block.
pub open spec fn pem_body(t: Seq<char>) -> Seq<char> {
    match find_from(t, pem_begin(), 0) {
        Some(b) => match find_from(t, seq!['\n'], b) {
            Some(nl) => match find_from(t, pem_end(), nl + 1) {
                Some(e) => t.subrange(nl + 1, e),
                None => t,
            },
            None => t,
        },
        None => t,
    }
}

/// The part of the whole text whose Base64 characters make the payload.
pub open spec fn payload_target(t: Seq<char>) -> Seq<char> {
    strip_data_url(pem_body(t))
}

/// Number of characters of `t` that are not white space.
pub open spec fn count_non_space(t: Seq<char>) -> nat
    decreases t.len(),
{
    if t.len() == 0 {
        0
    } else {
        count_non_space(t.drop_last()) + if is_white_space(t.last()) {
            0nat
        } else {
            1nat
        }
    }
}

/// Number of Base64 characters in `t`.
pub open spec fn count_b64(t: Seq<char>) -> nat
    decreases t.len(),
{
    if t.len() == 0 {
        0
    } else {
        count_b64(t.drop_last()) + if is_b64_char(t.last()) {
            1nat
        } else {
            0nat
        }
    }
}

/// The Base64 characters of `t`, in order.
pub open spec fn keep_b64(t: Seq<char>) -> Seq<char>
    decreases t.len(),
{
    if t.len() == 0 {
        Seq::empty()
    } else if is_b64_char(t.last()) {
        keep_b64(t.drop_last()).push(t.last())
    } else {
        keep_b64(t.drop_last())
    }
}

/// ASCII white space: space, tab, line feed, vertical tab, form feed,
/// carriage return.
pub open spec fn is_ascii_white_space(c: char) -> bool {
    c == ' ' || ('\u{9}' <= c <= '\u{d}')
}

/// A character of the standard Base64 alphabet, or the padding `=`.
pub open spec fn is_std_b64_char(c: char) -> bool {
    ('A' <= c <= 'Z') || ('a' <= c <= 'z') || ('0' <= c <= '9') || c == '+' || c == '/'
        || c == '='
}

/// Standard Base64 text broken up by ASCII white space anywhere.
pub open spec fn is_wrapped_b64(w: Seq<char>) -> bool {
    forall|i: int|
        0 <= i < w.len() ==> is_std_b64_char(#[trigger] w[i]) || is_ascii_white_space(w[i])
}

proof fn lemma_find_none(hay: Seq<char>, needle: Seq<char>, from: int)
    requires
        0 <= from,
        forall|p: int| from <= p ==> !occurs_at(hay, needle, p),
    ensures
        find_from(hay, needle, from) is None,
    decreases hay.len() + 1 - from,
{
    if from + needle.len() <= hay.len() {
        lemma_find_none(hay, needle, from + 1);
    }
}

/// In wrapped Base64 text there is neither a PEM header nor a Data URL, and
/// every character that is not white space is a Base64 character.
pub proof fn lemma_wrapped_b64(w: Seq<char>)
    requires
        is_wrapped_b64(w),
    ensures
        sample_target(w) == w,
        payload_target(w) == w,
        count_non_space(w) == count_b64(w),
    decreases w.len(),
{
    assert forall|p: int| 0 <= p implies !occurs_at(w, pem_begin(), p) by {
        if occurs_at(w, pem_begin(), p) {
            assert(w.subrange(p, p + 10)[0] == '-');
            assert(is_std_b64_char(w[p]) || is_ascii_white_space(w[p]));
        }
    }
    lemma_find_none(w, pem_begin(), 0);
    if occurs_at(w, data_scheme(), 0) {
        assert(w.subrange(0, 5)[4] == ':');
        assert(is_std_b64_char(w[4]) || is_ascii_white_space(w[4]));
    }
    if w.len() > 0 {
        assert(is_wrapped_b64(w.drop_last())) by {
            assert forall|i: int| 0 <= i < w.drop_last().len() implies is_std_b64_char(
                #[trigger] w.drop_last()[i],
            ) || is_ascii_white_space(w.drop_last()[i]) by {
                assert(w.drop_last()[i] == w[i]);
            }
        }
        lemma_wrapped_b64(w.drop_last());
        assert(is_std_b64_char(w[w.len() - 1]) || is_ascii_white_space(w[w.len() - 1]));
    }
}

/// Number of raw bytes that the density check decodes.
pub open spec fn sample_len(raw: Seq<u8>) -> int {
    if raw.len() < 8192 {
        raw.len() as int
    } else {
        8192
    }
}

/// The text of the sample that the density check decodes.
pub open spec fn sample_text(raw: Seq<u8>) -> Seq<char> {
    text_of(raw.take(sample_len(raw)), detect_spec(raw))
}

/// Why a payload was refused.
#[derive(Debug, Clone, Copy, PartialEq, Eq, Structural)]
pub enum ExtractError {
    /// The sample holds nothing but white space.
    NoReadableText,
    /// Fewer than 95% of the `total` non-space characters of the sample are
    /// Base64 characters; `valid` of them are.
    NotBase64 { valid: usize, total: usize },
}

/// What extraction gives for the raw bytes `raw`: the density check runs on
/// the sample (refused when `valid / total < 95%`, compared exactly as
/// `20 * valid < 19 * total`), then the Base64 characters of the payload part
/// of the whole text are kept.
pub open spec fn extract_spec(raw: Seq<u8>) -> Result<Seq<char>, ExtractError> {
    let st = sample_target(sample_text(raw));
    let total = count_non_space(st);
    let valid = count_b64(st);
    if total == 0 {
        Err(ExtractError::NoReadableText)
    } else if 20 * valid < 19 * total {
        Err(ExtractError::NotBase64 { valid: valid as usize, total: total as usize })
    } else {
        Ok(keep_b64(payload_target(text_of(raw, detect_spec(raw)))))
    }
}

/// What `find_from` returns is a match, at or after `from`, and the first one.
proof fn lemma_find_from(hay: Seq<char>, needle: Seq<char>, from: int)
    requires
        0 <= from,
    ensures
        find_from(hay, needle, from) matches Some(p) ==> {
            &&& from <= p
            &&& occurs_at(hay, needle, p)
            &&& forall|q: int| from <= q < p ==> !occurs_at(hay, needle, q)
        },
        find_from(hay, needle, from) is None ==> forall|q: int|
            from <= q ==> !occurs_at(hay, needle, q),
    decreases hay.len() + 1 - from,
{
    if from < 0 || from + needle.len() > hay.len() {
    } else if occurs_at(hay, needle, from) {
    } else {
        lemma_find_from(hay, needle, from + 1);
    }
}

pub(crate) fn is_white_space_char(c: char) -> (r: bool)
    ensures
        r == is_white_space(c),
{
    ('\u{9}' <= c && c <= '\u{d}') || c == ' ' || c == '\u{85}' || c == '\u{a0}' || c
        == '\u{1680}' || ('\u{2000}' <= c && c <= '\u{200a}') || c == '\u{2028}' || c
        == '\u{2029}' || c == '\u{202f}' || c == '\u{205f}' || c == '\u{3000}'
}

fn occurs_at_exec(hay: &Vec<char>, needle: &Vec<char>, p: usize) -> (r: bool)
    ensures
        r == occurs_at(hay@, needle@, p as int),
{
    if p > hay.len() || needle.len() > hay.len() - p {
        return false;
    }
    let mut k: usize = 0;
    while k < needle.len()
        invariant
            p + needle@.len() <= hay@.len(),
            hay@.len() == hay.len(),
            k <= needle@.len(),
            forall|j: int| 0 <= j < k ==> hay@[p + j] == needle@[j],
        decreases needle@.len() - k,
    {
        if hay[p + k] != needle[k] {
            assert(hay@.subrange(p as int, p + needle@.len())[k as int] != needle@[k as int]);
            return false;
        }
        k = k + 1;
    }
    assert(hay@.subrange(p as int, p + needle@.len()) =~= needle@);
    true
}

fn find_exec(hay: &Vec<char>, needle: &Vec<char>, from: usize) -> (r: Option<usize>)
    ensures
        r matches Some(p) ==> find_from(hay@, needle@, from as int) == Some(p as int),
        r is None ==> find_from(hay@, needle@, from as int) is None,
{
    let mut p = from;
    while p <= hay.len() && needle.len() <= hay.len() - p
        invariant
            find_from(hay@, needle@, from as int) == find_from(hay@, needle@, p as int),
        decreases hay@.len() + 1 - p,
    {
        if occurs_at_exec(hay, needle, p) {
            return Some(p);
        }
        if p == hay.len() {
            assert(hay@.subrange(p as int, p as int) =~= needle@);
        }
        p = p + 1;
    }
    None
}

/// The characters of `v` from `lo` up to `hi`.
fn slice_chars(v: &Vec<char>, lo: usize, hi: usize) -> (r: Vec<char>)
    requires
        lo <= hi <= v@.len(),
    ensures
        r@ == v@.subrange(lo as int, hi as int),
{
    let mut r: Vec<char> = Vec::new();
    let mut i = lo;
    while i < hi
        invariant
            lo <= i <= hi <= v@.len(),
            r@ =~= v@.subrange(lo as int, i as int),
        decreases hi - i,
    {
        r.push(v[i]);
        i = i + 1;
    }
    r
}

fn pem_begin_exec() -> (v: Vec<char>)
    ensures
        v@ == pem_begin(),
{
    let v = vec!['-', '-', '-', '-', '-', 'B', 'E', 'G', 'I', 'N'];
    assert(v@ =~= pem_begin());
    v
}

fn pem_end_exec() -> (v: Vec<char>)
    ensures
        v@ == pem_end(),
{
    let v = vec!['-', '-', '-', '-', '-', 'E', 'N', 'D'];
    assert(v@ =~= pem_end());
    v
}

fn data_scheme_exec() -> (v: Vec<char>)
    ensures
        v@ == data_scheme(),
{
    let v = vec!['d', 'a', 't', 'a', ':'];
    assert(v@ =~= data_scheme());
    v
}

fn base64_marker_exec() -> (v: Vec<char>)
    ensures
        v@ == base64_marker(),
{
    let v = vec![';', 'b', 'a', 's', 'e', '6', '4', ','];
    assert(v@ =~= base64_marker());
    v
}

fn one_char(c: char) -> (v: Vec<char>)
    ensures
        v@ == seq![c],
{
    let v = vec![c];
    assert(v@ =~= seq![c]);
    v
}

fn strip_data_url_exec(t: Vec<char>) -> (r: Vec<char>)
    ensures
        r@ == strip_data_url(t@),
{
    proof {
        lemma_find_from(t@, base64_marker(), 0);
        lemma_find_from(t@, seq![','], 0);
        assert(base64_marker().len() == 8);
        assert(seq![','].len() == 1);
    }
    if occurs_at_exec(&t, &data_scheme_exec(), 0) {
        let marker = base64_marker_exec();
        let n = t.len();
        if let Some(p) = find_exec(&t, &marker, 0) {
            return slice_chars(&t, p + 8, n);
        } else if let Some(p) = find_exec(&t, &one_char(','), 0) {
            return slice_chars(&t, p + 1, n);
        }
    }
    t
}

fn sample_target_exec(t: Vec<char>) -> (r: Vec<char>)
    ensures
        r@ == sample_target(t@),
{
    proof {
        lemma_find_from(t@, pem_begin(), 0);
    }
    let n = t.len();
    if let Some(b) = find_exec(&t, &pem_begin_exec(), 0) {
        proof {
            lemma_find_from(t@, seq!['\n'], b as int);
            assert(seq!['\n'].len() == 1);
        }
        if let Some(nl) = find_exec(&t, &one_char('\n'), b) {
            return slice_chars(&t, nl + 1, n);
        }
        return t;
    }
    strip_data_url_exec(t)
}

fn pem_body_exec(t: Vec<char>) -> (r: Vec<char>)
    ensures
        r@ == pem_body(t@),
{
    proof {
        lemma_find_from(t@, pem_begin(), 0);
    }
    let n = t.len();
    if let Some(b) = find_exec(&t, &pem_begin_exec(), 0) {
        proof {
            lemma_find_from(t@, seq!['\n'], b as int);
            assert(seq!['\n'].len() == 1);
        }
        if let Some(nl) = find_exec(&t, &one_char('\n'), b) {
            proof {
                lemma_find_from(t@, pem_end(), nl + 1);
            }
            if let Some(e) = find_exec(&t, &pem_end_exec(), nl + 1) {
                return slice_chars(&t, nl + 1, e);
            }
        }
    }
    t
}

/// Counts the characters of `t` that are not white space, and the Base64
/// characters among them.
fn count_sample(t: &Vec<char>) -> (r: (usize, usize))
    ensures
        r.0 == count_non_space(t@),
        r.1 == count_b64(t@),
{
    let mut total: usize = 0;
    let mut valid: usize = 0;
    let mut i: usize = 0;
    while i < t.len()
        invariant
            i <= t@.len(),
            total == count_non_space(t@.take(i as int)),
            valid == count_b64(t@.take(i as int)),
            total <= i,
            valid <= total,
        decreases t@.len() - i,
    {
        let c = t[i];
        proof {
            assert(t@.take(i + 1).drop_last() =~= t@.take(i as int));
        }
        if !is_white_space_char(c) {
            total = total + 1;
            if Base64Extractor::is_valid_b64_char(c) {
                valid = valid + 1;
            }
        } else {
            proof {
                lemma_b64_not_space(c);
            }
        }
        i = i + 1;
    }
    assert(t@.take(i as int) =~= t@);
    (total, valid)
}

proof fn lemma_b64_not_space(c: char)
    ensures
        is_b64_char(c) ==> !is_white_space(c),
{
}

fn keep_b64_exec(t: &Vec<char>) -> (r: Vec<char>)
    ensures
        r@ == keep_b64(t@),
{
    let mut out: Vec<char> = Vec::new();
    let mut i: usize = 0;
    while i < t.len()
        invariant
            i <= t@.len(),
            out@ == keep_b64(t@.take(i as int)),
        decreases t@.len() - i,
    {
        let c = t[i];
        proof {
            assert(t@.take(i + 1).drop_last() =~= t@.take(i as int));
        }
        if Base64Extractor::is_valid_b64_char(c) {
            out.push(c);
        }
        i = i + 1;
    }
    assert(t@.take(i as int) =~= t@);
    out
}

/// Helper to extract clean Base64 content from various payload formats
/// (such as raw Base64, PEM containers, and Data URLs).
pub struct Base64Extractor;

impl Base64Extractor {
    /// Extracts Base64 content from raw input bytes.
    /// Handles PEM blocks, Data URL schemes, and filters out non-Base64
    /// characters. Validates that the payload is actually Base64 by checking
    /// that at least 95% of the non-space characters of a sample (the first
    /// 8192 bytes) are Base64 characters.
    pub fn extract(raw_bytes: &[u8]) -> (res: Result<String, ExtractError>)
        ensures
            match extract_spec(raw_bytes@) {
                Ok(s) => res matches Ok(out) && out@ == s,
                Err(e) => res == Err::<String, ExtractError>(e),
            },
    {
        let codec = TextCodec::detect_codec(raw_bytes);
        let sample_bytes_len: usize = if raw_bytes.len() < 8192 {
            raw_bytes.len()
        } else {
            8192
        };
        let raw_sample = slice_subrange(raw_bytes, 0, sample_bytes_len);
        assert(raw_sample@ =~= raw_bytes@.take(sample_len(raw_bytes@)));
        let sample_str = TextCodec::decode_with_codec(raw_sample, &codec);
        let sample_target = sample_target_exec(chars_of(sample_str.as_str()));
        let (sample_total, sample_valid) = count_sample(&sample_target);
        if sample_total == 0 {
            return Err(ExtractError::NoReadableText);
        }
        if (sample_valid as u128) * 20 < (sample_total as u128) * 19 {
            return Err(ExtractError::NotBase64 { valid: sample_valid, total: sample_total });
        }
        let content_str = TextCodec::decode_with_codec(raw_bytes, &codec);
        let target = strip_data_url_exec(pem_body_exec(chars_of(content_str.as_str())));
        let filtered = keep_b64_exec(&target);
        Ok(string_from_chars(&filtered))
    }

    /// Whether a character belongs to the standard or URL-safe Base64
    /// alphabets (with padding): exactly the characters that decode on their
    /// own (see `law_extractor_alphabet_matches_decoder`).
    pub fn is_valid_b64_char(c: char) -> (r: bool)
        ensures
            r == is_b64_char(c),
    {
        ('A' <= c && c <= 'Z') || ('a' <= c && c <= 'z') || ('0' <= c && c <= '9') || c == '+'
            || c == '/' || c == '-' || c == '_' || c == '='
    }
}

/// The extractor keeps exactly the characters that the decoder reads: one
/// character decodes without error if and only if it is a Base64 character
/// (of either alphabet) or `=`.
pub proof fn law_extractor_alphabet_matches_decoder(c: char)
    ensures
        is_b64_char(c) <==> decode_spec(encode_utf8(seq![c])) is Ok,
{
    lemma_char_utf8(c);
    let b = encode_utf8(seq![c]);
    if c as u32 <= 0x7F {
        assert(b[0] == c as u8);
        if c == '=' {
            lemma_data_len(b, 0);
            lemma_first_invalid_none(b.take(0));
        } else if is_b64_char(c) {
            lemma_data_len(b, 1);
            assert(b.take(1) =~= b);
            lemma_first_invalid_none(b);
        } else {
            lemma_data_len(b, 1);
            assert(b.take(1) =~= b);
            lemma_first_invalid_at(b, 0);
        }
    } else {
        lemma_data_len_at_least(b, 0);
        let d = b.take(data_len(b));
        assert(d[0] == b[0]);
        assert(d.take(0) =~= Seq::<u8>::empty());
        lemma_first_invalid_at(d, 0);
    }
}

/// `t2` is `t` with ASCII white space inserted anywhere (lines wrapped, CR
/// or LF added, spaces or tabs put in).
pub open spec fn ws_inserted(t: Seq<char>, t2: Seq<char>) -> bool
    decreases t2.len(),
{
    if t2.len() == 0 {
        t.len() == 0
    } else if is_ascii_white_space(t2.last()) && ws_inserted(t, t2.drop_last()) {
        true
    } else {
        t.len() > 0 && t.last() == t2.last() && ws_inserted(t.drop_last(), t2.drop_last())
    }
}

/// No character of `n` is ASCII white space.
pub open spec fn no_ascii_space(n: Seq<char>) -> bool {
    forall|k: int| 0 <= k < n.len() ==> !is_ascii_white_space(#[trigger] n[k])
}

proof fn lemma_inserted_ascii(t: Seq<char>, t2: Seq<char>)
    requires
        ws_inserted(t, t2),
        is_ascii_chars(t),
        forall|i: int| 0 <= i < t.len() ==> #[trigger] t[i] != '\0',
    ensures
        is_ascii_chars(t2),
        forall|i: int| 0 <= i < t2.len() ==> #[trigger] t2[i] != '\0',
        t.len() <= t2.len(),
    decreases t2.len(),
{
    if t2.len() > 0 {
        if is_ascii_white_space(t2.last()) && ws_inserted(t, t2.drop_last()) {
            lemma_inserted_ascii(t, t2.drop_last());
        } else {
            assert(is_ascii_chars(t.drop_last()));
            assert(t[t.len() - 1] != '\0');
            lemma_inserted_ascii(t.drop_last(), t2.drop_last());
        }
        assert forall|i: int| 0 <= i < t2.len() implies '\0' <= #[trigger] t2[i] <= '\u{7f}'
            && t2[i] != '\0' by {
            if i < t2.len() - 1 {
                assert(t2[i] == t2.drop_last()[i]);
            }
        }
    }
}

proof fn lemma_inserted_none(t: Seq<char>, t2: Seq<char>)
    requires
        ws_inserted(t, t2),
        no_ascii_space(t2),
    ensures
        t == t2,
    decreases t2.len(),
{
    if t2.len() > 0 {
        assert(!is_ascii_white_space(t2[t2.len() - 1]));
        assert(no_ascii_space(t2.drop_last())) by {
            assert forall|k: int| 0 <= k < t2.drop_last().len() implies !is_ascii_white_space(
                #[trigger] t2.drop_last()[k],
            ) by {
                assert(t2.drop_last()[k] == t2[k]);
            }
        }
        assert(t.len() > 0 && t.last() == t2.last() && ws_inserted(t.drop_last(), t2.drop_last()));
        lemma_inserted_none(t.drop_last(), t2.drop_last());
        assert forall|k: int| 0 <= k < t.len() implies t[k] == t2[k] by {
            if k < t.len() - 1 {
                assert(t[k] == t.drop_last()[k]);
                assert(t2[k] == t2.drop_last()[k]);
            }
        }
        assert(t =~= t2);
    }
}

proof fn lemma_inserted_suffix(t: Seq<char>, t2: Seq<char>, n: Seq<char>)
    requires
        ws_inserted(t, t2),
        n.len() > 0,
        no_ascii_space(n),
        occurs_at(t2, n, t2.len() - n.len()),
    ensures
        occurs_at(t, n, t.len() - n.len()),
    decreases t2.len(),
{
    let p = t2.len() - n.len();
    assert(t2.last() == t2.subrange(p, p + n.len())[n.len() - 1]);
    assert(!is_ascii_white_space(n[n.len() - 1]));
    if n.len() > 1 {
        assert(t2.drop_last().subrange(p, p + n.len() - 1) =~= n.drop_last());
        assert(no_ascii_space(n.drop_last())) by {
            assert forall|k: int| 0 <= k < n.drop_last().len() implies !is_ascii_white_space(
                #[trigger] n.drop_last()[k],
            ) by {
                assert(n.drop_last()[k] == n[k]);
            }
        }
        lemma_inserted_suffix(t.drop_last(), t2.drop_last(), n.drop_last());
        let q = t.len() - n.len();
        assert(t.subrange(q, q + n.len()) =~= n) by {
            assert forall|k: int| 0 <= k < n.len() implies t.subrange(q, q + n.len())[k]
                == n[k] by {
                if k < n.len() - 1 {
                    assert(t.drop_last().subrange(q, q + n.len() - 1)[k] == n.drop_last()[k]);
                }
            }
        }
    } else {
        assert(t.subrange(t.len() - 1, t.len() as int) =~= n);
    }
}

proof fn lemma_inserted_occurs(t: Seq<char>, t2: Seq<char>, n: Seq<char>, p: int) -> (q: int)
    requires
        ws_inserted(t, t2),
        n.len() > 0,
        no_ascii_space(n),
        occurs_at(t2, n, p),
    ensures
        occurs_at(t, n, q),
    decreases t2.len(),
{
    if p + n.len() == t2.len() {
        lemma_inserted_suffix(t, t2, n);
        t.len() - n.len()
    } else {
        assert(t2.drop_last().subrange(p, p + n.len()) =~= t2.subrange(p, p + n.len()));
        if is_ascii_white_space(t2.last()) && ws_inserted(t, t2.drop_last()) {
            lemma_inserted_occurs(t, t2.drop_last(), n, p)
        } else {
            let q = lemma_inserted_occurs(t.drop_last(), t2.drop_last(), n, p);
            assert(t.subrange(q, q + n.len()) =~= t.drop_last().subrange(q, q + n.len()));
            q
        }
    }
}

proof fn lemma_inserted_prefix(t: Seq<char>, t2: Seq<char>, n: Seq<char>)
    requires
        ws_inserted(t, t2),
        no_ascii_space(n),
        occurs_at(t2, n, 0),
    ensures
        occurs_at(t, n, 0),
    decreases t2.len(),
{
    if n.len() == t2.len() {
        assert(t2.subrange(0, n.len() as int) =~= t2);
        lemma_inserted_none(t, t2);
    } else {
        assert(t2.drop_last().subrange(0, n.len() as int) =~= t2.subrange(0, n.len() as int));
        if is_ascii_white_space(t2.last()) && ws_inserted(t, t2.drop_last()) {
            lemma_inserted_prefix(t, t2.drop_last(), n);
        } else {
            lemma_inserted_prefix(t.drop_last(), t2.drop_last(), n);
            assert(t.subrange(0, n.len() as int) =~= t.drop_last().subrange(0, n.len() as int));
        }
    }
}

proof fn lemma_inserted_counts(t: Seq<char>, t2: Seq<char>)
    requires
        ws_inserted(t, t2),
    ensures
        count_non_space(t2) == count_non_space(t),
        count_b64(t2) == count_b64(t),
        keep_b64(t2) == keep_b64(t),
    decreases t2.len(),
{
    if t2.len() > 0 {
        if is_ascii_white_space(t2.last()) && ws_inserted(t, t2.drop_last()) {
            lemma_inserted_counts(t, t2.drop_last());
        } else {
            lemma_inserted_counts(t.drop_last(), t2.drop_last());
        }
    }
}

/// What extraction gives for ASCII text without NUL, PEM header or Data URL
/// prefix that fits in the sample: the density check on the whole text,
/// then its Base64 characters.
proof fn lemma_plain_extract(t: Seq<char>)
    requires
        is_ascii_chars(t),
        forall|i: int| 0 <= i < t.len() ==> #[trigger] t[i] != '\0',
        forall|p: int| 0 <= p ==> !occurs_at(t, pem_begin(), p),
        !occurs_at(t, data_scheme(), 0),
        t.len() <= 8192,
    ensures
        extract_spec(encode_utf8(t)) == (if count_non_space(t) == 0 {
            Err(ExtractError::NoReadableText)
        } else if 20 * count_b64(t) < 19 * count_non_space(t) {
            Err(
                ExtractError::NotBase64 {
                    valid: count_b64(t) as usize,
                    total: count_non_space(t) as usize,
                },
            )
        } else {
            Ok::<Seq<char>, ExtractError>(keep_b64(t))
        }),
{
    lemma_ascii_text(t);
    let raw = encode_utf8(t);
    assert(t.take(t.len() as int) =~= t);
    assert(raw.take(raw.len() as int) =~= raw);
    assert(text_of(raw.take(t.len() as int), Codec::Utf8) == t.take(t.len() as int));
    lemma_find_none(t, pem_begin(), 0);
}

/// Putting ASCII white space anywhere into ASCII text without NUL, PEM
/// header or Data URL prefix leaves what extraction gives unchanged, as long
/// as the result still fits in the 8192-byte sample.
pub proof fn law_white_space_insertion(t: Seq<char>, t2: Seq<char>)
    requires
        is_ascii_chars(t),
        forall|i: int| 0 <= i < t.len() ==> #[trigger] t[i] != '\0',
        forall|p: int| 0 <= p ==> !occurs_at(t, pem_begin(), p),
        !occurs_at(t, data_scheme(), 0),
        ws_inserted(t, t2),
        t2.len() <= 8192,
    ensures
        extract_spec(encode_utf8(t2)) == extract_spec(encode_utf8(t)),
{
    lemma_inserted_ascii(t, t2);
    assert(no_ascii_space(pem_begin())) by {
        assert forall|k: int| 0 <= k < pem_begin().len() implies !is_ascii_white_space(
            #[trigger] pem_begin()[k],
        ) by {}
    }
    assert(no_ascii_space(data_scheme())) by {
        assert forall|k: int| 0 <= k < data_scheme().len() implies !is_ascii_white_space(
            #[trigger] data_scheme()[k],
        ) by {}
    }
    assert forall|p: int| 0 <= p implies !occurs_at(t2, pem_begin(), p) by {
        if occurs_at(t2, pem_begin(), p) {
            let q = lemma_inserted_occurs(t, t2, pem_begin(), p);
            assert(q >= 0);
        }
    }
    if occurs_at(t2, data_scheme(), 0) {
        lemma_inserted_prefix(t, t2, data_scheme());
    }
    lemma_inserted_counts(t, t2);
    lemma_plain_extract(t);
    lemma_plain_extract(t2);
}

/// The Base64 characters kept from one character: the character itself when
/// it is a Base64 character or `=`, else nothing.
pub proof fn law_keep_single(c: char)
    ensures
        keep_b64(seq![c]) == (if is_b64_char(c) {
            seq![c]
        } else {
            Seq::<char>::empty()
        }),
{
    assert(seq![c].drop_last() =~= Seq::<char>::empty());
    assert(keep_b64(Seq::<char>::empty()) =~= Seq::<char>::empty());
    assert(Seq::<char>::empty().push(c) =~= seq![c]);
}

/// Keeping works piece by piece, with no limit on length: what is kept from
/// `t + u` is what is kept from `t` followed by what is kept from `u`.
pub proof fn law_keep_concat(t: Seq<char>, u: Seq<char>)
    ensures
        keep_b64(t + u) == keep_b64(t) + keep_b64(u),
    decreases u.len(),
{
    if u.len() == 0 {
        assert(t + u =~= t);
        assert(keep_b64(t) + keep_b64(u) =~= keep_b64(t));
    } else {
        assert((t + u).drop_last() =~= t + u.drop_last());
        assert((t + u).last() == u.last());
        law_keep_concat(t, u.drop_last());
        if is_b64_char(u.last()) {
            assert(keep_b64(t) + keep_b64(u.drop_last()).push(u.last()) =~= (keep_b64(t)
                + keep_b64(u.drop_last())).push(u.last()));
        }
    }
}

/// Every Base64 character of `t` is kept: as many characters are kept as
/// `t` holds Base64 characters, and each kept one is a Base64 character.
pub proof fn law_keep_counts_all(t: Seq<char>)
    ensures
        keep_b64(t).len() == count_b64(t),
        forall|i: int| 0 <= i < keep_b64(t).len() ==> is_b64_char(#[trigger] keep_b64(t)[i]),
    decreases t.len(),
{
    if t.len() > 0 {
        law_keep_counts_all(t.drop_last());
        let prev = keep_b64(t.drop_last());
        assert forall|i: int| 0 <= i < keep_b64(t).len() implies is_b64_char(
            #[trigger] keep_b64(t)[i],
        ) by {
            if i < prev.len() {
                assert(keep_b64(t)[i] == prev[i]);
            }
        }
    }
}

/// `find_from` gives a match that has no match before it.
proof fn lemma_find_at(hay: Seq<char>, needle: Seq<char>, from: int, p: int)
    requires
        0 <= from <= p,
        occurs_at(hay, needle, p),
        forall|q: int| from <= q < p ==> !occurs_at(hay, needle, q),
    ensures
        find_from(hay, needle, from) == Some(p),
    decreases p - from,
{
    if from < p {
        lemma_find_at(hay, needle, from + 1, p);
    }
}

/// A match in `y + x` at or after `y`'s end is a match in `x`.
proof fn lemma_occurs_shift(y: Seq<char>, x: Seq<char>, n: Seq<char>, q: int)
    requires
        y.len() <= q,
        occurs_at(y + x, n, q),
    ensures
        occurs_at(x, n, q - y.len()),
{
    let k = q - y.len();
    assert(x.subrange(k, k + n.len()) =~= (y + x).subrange(q, q + n.len()));
}

/// A match in `a + r` that ends within `a` is a match in `a`.
proof fn lemma_occurs_prefix(a: Seq<char>, r: Seq<char>, n: Seq<char>, q: int)
    requires
        q + n.len() <= a.len(),
        occurs_at(a + r, n, q),
    ensures
        occurs_at(a, n, q),
{
    assert(a.subrange(q, q + n.len()) =~= (a + r).subrange(q, q + n.len()));
}

/// `needle` first occurs, from `from` on, right after `a` in `a + needle + r`,
/// when `a` has no match from `from` on and the last character of `a` is not
/// in `needle` (so no match can straddle).
proof fn lemma_first_after_last(a: Seq<char>, n: Seq<char>, r: Seq<char>, from: int)
    requires
        0 <= from <= a.len(),
        n.len() > 0,
        forall|q: int| from <= q ==> !occurs_at(a, n, q),
        a.len() == from || forall|k: int| 0 <= k < n.len() ==> #[trigger] n[k] != a.last(),
    ensures
        find_from(a + n + r, n, from) == Some(a.len() as int),
{
    let t = a + n + r;
    assert(t.subrange(a.len() as int, (a.len() + n.len()) as int) =~= n);
    assert forall|q: int| from <= q < a.len() implies !occurs_at(t, n, q) by {
        if occurs_at(t, n, q) {
            if q + n.len() <= a.len() {
                assert(a.subrange(q, q + n.len()) =~= t.subrange(q, q + n.len()));
                assert(occurs_at(a, n, q));
            } else {
                let k = a.len() - 1 - q;
                assert(t.subrange(q, q + n.len()) == n);
                assert(t.subrange(q, q + n.len())[k] == t[a.len() - 1]);
                assert(t[a.len() - 1] == a[a.len() - 1]);
                assert(n[k] == a.last());
                assert(n[k] != a.last());
            }
        }
    }
    lemma_find_at(t, n, from, a.len() as int);
}

/// `needle` first occurs, from `from` on, right after `a` in `a + needle + r`,
/// when `a` has no match from `from` on and the first character of `needle`
/// appears nowhere else in it (so no match can straddle).
proof fn lemma_first_after_unbordered(a: Seq<char>, n: Seq<char>, r: Seq<char>, from: int)
    requires
        0 <= from <= a.len(),
        n.len() > 0,
        forall|q: int| from <= q ==> !occurs_at(a, n, q),
        forall|k: int| 1 <= k < n.len() ==> #[trigger] n[k] != n[0],
    ensures
        find_from(a + n + r, n, from) == Some(a.len() as int),
{
    let t = a + n + r;
    assert(t.subrange(a.len() as int, (a.len() + n.len()) as int) =~= n);
    assert forall|q: int| from <= q < a.len() implies !occurs_at(t, n, q) by {
        if occurs_at(t, n, q) {
            if q + n.len() <= a.len() {
                assert(a.subrange(q, q + n.len()) =~= t.subrange(q, q + n.len()));
                assert(occurs_at(a, n, q));
            } else {
                let k = a.len() - q;
                assert(t.subrange(q, q + n.len()) == n);
                assert(t.subrange(q, q + n.len())[k] == t[a.len() as int]);
                assert(t[a.len() as int] == n[0]);
                assert(n[k] != n[0]);
            }
        }
    }
    lemma_find_at(t, n, from, a.len() as int);
}

/// A Data URL's payload is exactly what follows the first `;base64,`,
/// whatever media type and parameters (such as `;charset=utf-8`) come before
/// it.
pub proof fn law_data_url_base64(m: Seq<char>, x: Seq<char>)
    requires
        forall|q: int| 0 <= q ==> !occurs_at(m, base64_marker(), q),
    ensures
        strip_data_url(data_scheme() + m + base64_marker() + x) == x,
{
    let a = data_scheme() + m;
    let n = base64_marker();
    let t = a + n + x;
    assert(t =~= data_scheme() + m + base64_marker() + x);
    assert(t.subrange(0, 5) =~= data_scheme());
    assert forall|q: int| 0 <= q implies !occurs_at(a, n, q) by {
        if occurs_at(a, n, q) {
            assert(a.subrange(q, q + 8)[0] == a[q]);
            if q < 5 {
                assert(a[q] == data_scheme()[q]);
            } else {
                lemma_occurs_shift(data_scheme(), m, n, q);
            }
        }
    }
    assert forall|k: int| 1 <= k < n.len() implies #[trigger] n[k] != n[0] by {}
    lemma_first_after_unbordered(a, n, x, 0);
    assert(t.skip((a.len() + 8) as int) =~= x);
}

/// A PEM block's body is what lies between the line of its `-----BEGIN`
/// header and the next `-----END`, whatever lines stand before the header:
/// for any lines `pre` without a header, a header line `-----BEGIN` + `h`, and
/// body lines `body` without `-----END`, the body found is `body`.
pub proof fn law_pem_body(pre: Seq<char>, h: Seq<char>, body: Seq<char>, rest: Seq<char>)
    requires
        pre.len() == 0 || pre.last() == '\n',
        forall|q: int| 0 <= q ==> !occurs_at(pre, pem_begin(), q),
        forall|k: int| 0 <= k < h.len() ==> #[trigger] h[k] != '\n',
        body.len() == 0 || body.last() == '\n',
        forall|q: int| 0 <= q ==> !occurs_at(body, pem_end(), q),
    ensures
        pem_body(pre + pem_begin() + h + seq!['\n'] + body + pem_end() + rest) == body,
{
    let t = pre + pem_begin() + h + seq!['\n'] + body + pem_end() + rest;
    let b = pre.len() as int;
    // The header.
    let r1 = h + seq!['\n'] + body + pem_end() + rest;
    assert(t =~= pre + pem_begin() + r1);
    assert forall|k: int| 0 <= k < pem_begin().len() implies #[trigger] pem_begin()[k] != '\n' by {}
    if pre.len() > 0 {
        assert(forall|k: int| 0 <= k < pem_begin().len() ==> #[trigger] pem_begin()[k] != pre.last());
    }
    lemma_first_after_last(pre, pem_begin(), r1, 0);
    // The end of the header line.
    let a2 = pre + pem_begin() + h;
    let r2 = body + pem_end() + rest;
    assert(t =~= a2 + seq!['\n'] + r2);
    assert forall|q: int| b <= q implies !occurs_at(a2, seq!['\n'], q) by {
        if occurs_at(a2, seq!['\n'], q) {
            assert(a2.subrange(q, q + 1)[0] == a2[q]);
            if q < b + 10 {
                assert(a2[q] == pem_begin()[q - b]);
            } else {
                assert(a2[q] == h[q - b - 10]);
            }
        }
    }
    lemma_first_after_last(a2, seq!['\n'], r2, b);
    let nl = a2.len() as int;
    // The END line.
    let a3 = a2 + seq!['\n'] + body;
    assert(t =~= a3 + pem_end() + rest);
    let y = a2 + seq!['\n'];
    assert(a3 =~= y + body);
    assert forall|q: int| nl + 1 <= q implies !occurs_at(a3, pem_end(), q) by {
        if occurs_at(a3, pem_end(), q) {
            lemma_occurs_shift(y, body, pem_end(), q);
        }
    }
    if body.len() > 0 {
        assert(a3.last() == '\n');
        assert forall|k: int| 0 <= k < pem_end().len() implies #[trigger] pem_end()[k] != a3.last() by {}
    }
    lemma_first_after_last(a3, pem_end(), rest, nl + 1);
    assert(t.subrange(nl + 1, a3.len() as int) =~= body);
}

proof fn lemma_zeros_same_prefix(a: Seq<u8>, b: Seq<u8>, pairs: int, parity: int)
    requires
        0 <= parity <= 1,
        2 * pairs <= a.len(),
        2 * pairs <= b.len(),
        forall|i: int| 0 <= i < 2 * pairs ==> a[i] == b[i],
    ensures
        zeros_in_pairs(a, pairs, parity) == zeros_in_pairs(b, pairs, parity),
    decreases pairs,
{
    if pairs > 0 {
        lemma_zeros_same_prefix(a, b, pairs - 1, parity);
        assert(a[2 * (pairs - 1) + parity] == b[2 * (pairs - 1) + parity]);
    }
}

/// Whether a file is refused depends on its first 8192 bytes alone, however
/// long it is: two files of at least 8192 bytes that begin with the same
/// 8192 bytes are both refused, for the same reason, or both accepted.
pub proof fn law_refusal_from_sample(raw: Seq<u8>, raw2: Seq<u8>)
    requires
        raw.len() >= 8192,
        raw2.len() >= 8192,
        raw.take(8192) == raw2.take(8192),
    ensures
        (extract_spec(raw) is Err) == (extract_spec(raw2) is Err),
        extract_spec(raw) is Err ==> extract_spec(raw) == extract_spec(raw2),
{
    assert forall|i: int| 0 <= i < 8192 implies raw[i] == raw2[i] by {
        assert(raw.take(8192)[i] == raw[i]);
        assert(raw2.take(8192)[i] == raw2[i]);
        assert(raw.take(8192)[i] == raw2.take(8192)[i]);
    }
    lemma_zeros_same_prefix(raw, raw2, 2048, 0);
    lemma_zeros_same_prefix(raw, raw2, 2048, 1);
    assert(detect_spec(raw) == detect_spec(raw2));
    assert(sample_text(raw) == sample_text(raw2));
}

/// Text that does not start with `data:` is no Data URL and is kept whole.
pub proof fn law_no_data_url_kept(t: Seq<char>)
    requires
        !occurs_at(t, data_scheme(), 0),
    ensures
        strip_data_url(t) == t,
{
}

/// A Data URL without `;base64,` keeps what follows its first comma: for a
/// media type `m` without a comma, the payload of `data:` + `m` + `,` + `x`
/// is `x`, when `;base64,` occurs nowhere in the text.
pub proof fn law_data_url_comma(m: Seq<char>, x: Seq<char>)
    requires
        forall|k: int| 0 <= k < m.len() ==> #[trigger] m[k] != ',',
        forall|q: int|
            0 <= q ==> !occurs_at(data_scheme() + m + seq![','] + x, base64_marker(), q),
    ensures
        strip_data_url(data_scheme() + m + seq![','] + x) == x,
{
    let a = data_scheme() + m;
    let t = a + seq![','] + x;
    assert(t =~= data_scheme() + m + seq![','] + x);
    assert(t.subrange(0, 5) =~= data_scheme());
    lemma_find_none(t, base64_marker(), 0);
    assert forall|q: int| 0 <= q implies !occurs_at(a, seq![','], q) by {
        if occurs_at(a, seq![','], q) {
            assert(a.subrange(q, q + 1)[0] == a[q]);
            if q < 5 {
                assert(a[q] == data_scheme()[q]);
            } else {
                assert(a[q] == m[q - 5]);
            }
        }
    }
    lemma_first_after_unbordered(a, seq![','], x, 0);
    assert(t.skip((a.len() + 1) as int) =~= x);
}

/// Text without `-----BEGIN` has no PEM block: its body is the whole text.
pub proof fn law_no_pem_kept(t: Seq<char>)
    requires
        forall|q: int| 0 <= q ==> !occurs_at(t, pem_begin(), q),
    ensures
        pem_body(t) == t,
{
    lemma_find_none(t, pem_begin(), 0);
}

/// The density check looks at what follows a PEM header line, whatever
/// lines stand before that header: for lines `pre` without a header and a
/// header line `-----BEGIN` + `h`, the checked part of
/// `pre` + header + `\n` + `rest` is `rest`.
pub proof fn law_sample_after_pem_header(pre: Seq<char>, h: Seq<char>, rest: Seq<char>)
    requires
        pre.len() == 0 || pre.last() == '\n',
        forall|q: int| 0 <= q ==> !occurs_at(pre, pem_begin(), q),
        forall|k: int| 0 <= k < h.len() ==> #[trigger] h[k] != '\n',
    ensures
        sample_target(pre + pem_begin() + h + seq!['\n'] + rest) == rest,
{
    let t = pre + pem_begin() + h + seq!['\n'] + rest;
    let b = pre.len() as int;
    let r1 = h + seq!['\n'] + rest;
    assert(t =~= pre + pem_begin() + r1);
    assert forall|k: int| 0 <= k < pem_begin().len() implies #[trigger] pem_begin()[k] != '\n' by {}
    if pre.len() > 0 {
        assert(forall|k: int| 0 <= k < pem_begin().len() ==> #[trigger] pem_begin()[k] != pre.last());
    }
    lemma_first_after_last(pre, pem_begin(), r1, 0);
    let a2 = pre + pem_begin() + h;
    assert(t =~= a2 + seq!['\n'] + rest);
    assert forall|q: int| b <= q implies !occurs_at(a2, seq!['\n'], q) by {
        if occurs_at(a2, seq!['\n'], q) {
            assert(a2.subrange(q, q + 1)[0] == a2[q]);
            if q < b + 10 {
                assert(a2[q] == pem_begin()[q - b]);
            } else {
                assert(a2[q] == h[q - b - 10]);
            }
        }
    }
    lemma_first_after_last(a2, seq!['\n'], rest, b);
    assert(t.skip((a2.len() + 1) as int) =~= rest);
}

/// Counting works piece by piece: the characters counted in `t + u` are
/// those counted in `t` and in `u`.
pub proof fn law_counts_concat(t: Seq<char>, u: Seq<char>)
    ensures
        count_non_space(t + u) == count_non_space(t) + count_non_space(u),
        count_b64(t + u) == count_b64(t) + count_b64(u),
    decreases u.len(),
{
    if u.len() == 0 {
        assert(t + u =~= t);
    } else {
        assert((t + u).drop_last() =~= t + u.drop_last());
        assert((t + u).last() == u.last());
        law_counts_concat(t, u.drop_last());
    }
}

/// One character counts as non-space unless it is white space, and as a
/// Base64 character exactly when it is one.
pub proof fn law_counts_single(c: char)
    ensures
        count_non_space(seq![c]) == (if is_white_space(c) { 0nat } else { 1nat }),
        count_b64(seq![c]) == (if is_b64_char(c) { 1nat } else { 0nat }),
{
    assert(seq![c].drop_last() =~= Seq::<char>::empty());
    assert(seq![c].last() == c);
    assert(count_non_space(Seq::<char>::empty()) == 0);
    assert(count_b64(Seq::<char>::empty()) == 0);
}

} // verus!
