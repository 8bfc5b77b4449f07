use vstd::prelude::*;
use vstd::slice::slice_subrange;
use vstd::utf8::{
    decode_utf8, encode_scalar, encode_utf8, encode_utf8_decode_utf8, encode_utf8_valid_utf8,
    is_ascii_chars, is_ascii_chars_encode_utf8, is_scalar, valid_utf8,
};

verus! {

/// Supported text file encodings.
#[derive(Debug, Clone, Copy, PartialEq, Eq, Structural)]
pub enum Codec {
    Utf8,
    Utf16Le,
    Utf16Be,
}

/// What `String::from_utf8_lossy` makes of a byte sequence.
pub uninterp spec fn utf8_lossy(bytes: Seq<u8>) -> Seq<char>;

/// The ASCII characters of `t`, in order.
pub open spec fn ascii_chars_of(t: Seq<char>) -> Seq<char> {
    t.filter(|c: char| (c as u32) < 0x80)
}

/// The ASCII bytes of `b`, in order, read as characters.
pub open spec fn ascii_bytes_of(b: Seq<u8>) -> Seq<char> {
    b.filter(|x: u8| x < 0x80).map_values(|x: u8| x as char)
}

/// Calls `String::from_utf8_lossy`, which decodes UTF-8 and puts U+FFFD in
/// place of each invalid sequence. Its result is named `utf8_lossy`; the
/// contract also states, as its documentation does, that valid UTF-8 is
/// decoded unchanged, and that only invalid sequences are replaced, which
/// never hold an ASCII byte: the ASCII characters of the result are the
/// ASCII bytes of the input, in order. How many U+FFFD stand for an invalid
/// run, and where, is left unsaid.
#[verifier::external_body]
fn from_utf8_lossy(bytes: &[u8]) -> (s: String)
    ensures
        s@ == utf8_lossy(bytes@),
        valid_utf8(bytes@) ==> s@ == decode_utf8(bytes@),
        ascii_chars_of(s@) == ascii_bytes_of(bytes@),
{
    String::from_utf8_lossy(bytes).into_owned()
}

/// UTF-8 text read from `b`: its characters when `b` is valid UTF-8, else
/// what `String::from_utf8_lossy` makes of it.
pub open spec fn lossy_text(b: Seq<u8>) -> Seq<char> {
    if valid_utf8(b) {
        decode_utf8(b)
    } else {
        utf8_lossy(b)
    }
}

/// Collects characters into a `String` through std's `FromIterator<char>`
/// (`Iterator::collect`); the contract claims that the string holds exactly
/// those characters, in order.
#[verifier::external_body]
pub(crate) fn string_from_chars(chars: &Vec<char>) -> (s: String)
    ensures
        s@ == chars@,
{
    chars.iter().collect()
}

/// The characters of `s`, in order.
pub(crate) fn chars_of(s: &str) -> (v: Vec<char>)
    ensures
        v@ == s@,
{
    let mut v: Vec<char> = Vec::new();
    for c in it: s.chars()
        invariant
            it.seq() == s@,
            v@ == it.seq().take(it.index() as int),
    {
        v.push(c);
        proof {
            assert(v@ =~= it.seq().take(it.index() + 1));
        }
    }
    assert(v@ =~= s@);
    v
}

/// Calls `char::from_u32`, which gives the character with that code point
/// when it is a Unicode scalar value, and `None` otherwise.
#[verifier::external_body]
fn char_from_u32(x: u32) -> (c: Option<char>)
    ensures
        c == (if x < 0xD800 || (0xE000 <= x && x <= 0x10FFFF) {
            Some(x as char)
        } else {
            None
        }),
{
    char::from_u32(x)
}

pub open spec fn has_utf8_bom(b: Seq<u8>) -> bool {
    b.len() >= 3 && b[0] == 0xEF && b[1] == 0xBB && b[2] == 0xBF
}

pub open spec fn has_utf16le_bom(b: Seq<u8>) -> bool {
    b.len() >= 2 && b[0] == 0xFF && b[1] == 0xFE
}

pub open spec fn has_utf16be_bom(b: Seq<u8>) -> bool {
    b.len() >= 2 && b[0] == 0xFE && b[1] == 0xFF
}

/// Number of bytes looked at when there is no byte order mark.
pub open spec fn scan_len(b: Seq<u8>) -> int {
    if b.len() < 4096 {
        b.len() as int
    } else {
        4096
    }
}

/// Number of whole byte pairs in the scanned prefix.
pub open spec fn scan_pairs(b: Seq<u8>) -> int {
    scan_len(b) / 2
}

/// Among the first `pairs` byte pairs of `b`, how many hold a zero byte at
/// offset `parity` (0: first byte of the pair, 1: second byte).
pub open spec fn zeros_in_pairs(b: Seq<u8>, pairs: int, parity: int) -> int
    decreases pairs,
{
    if pairs <= 0 {
        0
    } else {
        zeros_in_pairs(b, pairs - 1, parity) + if b[2 * (pairs - 1) + parity] == 0 {
            1int
        } else {
            0int
        }
    }
}

/// `zeros` is under a tenth of `pairs`: rounded down to a whole count from
/// ten pairs on (`zeros < pairs / 10`), and taken exactly below ten pairs,
/// where the rounded bound would be zero (`10 * zeros < pairs`, so no zero).
pub open spec fn under_a_tenth(zeros: int, pairs: int) -> bool {
    if pairs >= 10 {
        zeros < pairs / 10
    } else {
        10 * zeros < pairs
    }
}

/// The codec that detection picks for the bytes `b`: a byte order mark
/// decides; without one, a prefix of at most 4096 bytes in which over 70% of
/// the pairs have a zero second (first) byte and under a tenth of them (see
/// `under_a_tenth`) a zero first (second) byte is taken as UTF-16LE (BE);
/// anything else as UTF-8.
pub open spec fn detect_spec(b: Seq<u8>) -> Codec {
    let pairs = scan_pairs(b);
    let even = zeros_in_pairs(b, pairs, 0);
    let odd = zeros_in_pairs(b, pairs, 1);
    if has_utf8_bom(b) {
        Codec::Utf8
    } else if has_utf16le_bom(b) {
        Codec::Utf16Le
    } else if has_utf16be_bom(b) {
        Codec::Utf16Be
    } else if scan_len(b) >= 4 && 10 * odd > 7 * pairs && under_a_tenth(even, pairs) {
        Codec::Utf16Le
    } else if scan_len(b) >= 4 && 10 * even > 7 * pairs && under_a_tenth(odd, pairs) {
        Codec::Utf16Be
    } else {
        Codec::Utf8
    }
}

pub open spec fn is_high_surrogate(u: u16) -> bool {
    0xD800 <= u < 0xDC00
}

pub open spec fn is_low_surrogate(u: u16) -> bool {
    0xDC00 <= u < 0xE000
}

/// The character that a surrogate pair stands for.
pub open spec fn pair_scalar(hi: u16, lo: u16) -> int {
    0x10000 + (hi - 0xD800) * 0x400 + (lo - 0xDC00)
}

/// UTF-16 decoding in which every unpaired surrogate becomes U+FFFD.
pub open spec fn utf16_decode(u: Seq<u16>) -> Seq<char>
    decreases u.len(),
{
    if u.len() == 0 {
        Seq::empty()
    } else if is_high_surrogate(u[0]) && u.len() >= 2 && is_low_surrogate(u[1]) {
        seq![pair_scalar(u[0], u[1]) as char] + utf16_decode(u.skip(2))
    } else if is_high_surrogate(u[0]) || is_low_surrogate(u[0]) {
        seq!['\u{FFFD}'] + utf16_decode(u.skip(1))
    } else {
        seq![u[0] as char] + utf16_decode(u.skip(1))
    }
}

/// The 16-bit units of `b` read little-endian; an odd last byte is dropped.
pub open spec fn le_units(b: Seq<u8>) -> Seq<u16> {
    Seq::new((b.len() / 2) as nat, |j: int| (b[2 * j] + 256 * b[2 * j + 1]) as u16)
}

/// The 16-bit units of `b` read big-endian; an odd last byte is dropped.
pub open spec fn be_units(b: Seq<u8>) -> Seq<u16> {
    Seq::new((b.len() / 2) as nat, |j: int| (256 * b[2 * j] + b[2 * j + 1]) as u16)
}

/// The text that decoding `b` with `codec` gives; a byte order mark of that
/// codec is skipped.
pub open spec fn text_of(b: Seq<u8>, codec: Codec) -> Seq<char> {
    match codec {
        Codec::Utf8 => if has_utf8_bom(b) {
            lossy_text(b.skip(3))
        } else {
            lossy_text(b)
        },
        Codec::Utf16Le => if has_utf16le_bom(b) {
            utf16_decode(le_units(b.skip(2)))
        } else {
            utf16_decode(le_units(b))
        },
        Codec::Utf16Be => if has_utf16be_bom(b) {
            utf16_decode(be_units(b.skip(2)))
        } else {
            utf16_decode(be_units(b))
        },
    }
}

proof fn lemma_no_zeros(b: Seq<u8>, pairs: int, parity: int)
    requires
        0 <= parity <= 1,
        2 * pairs <= b.len(),
        forall|i: int| 0 <= i < b.len() ==> #[trigger] b[i] != 0,
    ensures
        zeros_in_pairs(b, pairs, parity) == 0,
    decreases pairs,
{
    if pairs > 0 {
        lemma_no_zeros(b, pairs - 1, parity);
    }
}

/// Text made of ASCII characters other than NUL is read back as UTF-8, whole
/// or cut after any number of bytes.
pub proof fn lemma_ascii_text(t: Seq<char>)
    requires
        is_ascii_chars(t),
        forall|i: int| 0 <= i < t.len() ==> #[trigger] t[i] != '\0',
    ensures
        detect_spec(encode_utf8(t)) == Codec::Utf8,
        encode_utf8(t).len() == t.len(),
        forall|k: int|
            0 <= k <= t.len() ==> #[trigger] text_of(encode_utf8(t).take(k), Codec::Utf8)
                == t.take(k),
{
    let b = encode_utf8(t);
    is_ascii_chars_encode_utf8(t);
    assert forall|i: int| 0 <= i < b.len() implies #[trigger] b[i] != 0 && b[i] < 128 by {
        assert(t[i] as u8 == b[i]);
    }
    lemma_no_zeros(b, scan_pairs(b), 0);
    lemma_no_zeros(b, scan_pairs(b), 1);
    assert forall|k: int| 0 <= k <= t.len() implies #[trigger] text_of(b.take(k), Codec::Utf8)
        == t.take(k) by {
        let tk = t.take(k);
        assert(is_ascii_chars(tk));
        is_ascii_chars_encode_utf8(tk);
        assert(encode_utf8(tk) =~= b.take(k)) by {
            assert forall|i: int| 0 <= i < k implies encode_utf8(tk)[i] == b.take(k)[i] by {
                assert(tk[i] as u8 == encode_utf8(tk)[i]);
                assert(t[i] as u8 == b[i]);
            }
        }
        encode_utf8_valid_utf8(tk);
        encode_utf8_decode_utf8(tk);
        if k >= 3 {
            assert(b.take(k)[0] < 128);
        }
    }
}

fn decode_utf16_units(units: &Vec<u16>) -> (out: Vec<char>)
    ensures
        out@ == utf16_decode(units@),
{
    let ghost u = units@;
    let mut out: Vec<char> = Vec::new();
    let mut i: usize = 0;
    assert(u.skip(0) =~= u);
    while i < units.len()
        invariant
            u == units@,
            i <= u.len(),
            utf16_decode(u) == out@ + utf16_decode(u.skip(i as int)),
        decreases u.len() - i,
    {
        let ghost rest = u.skip(i as int);
        let ghost before = out@;
        let w = units[i];
        if 0xD800 <= w && w < 0xDC00 && i + 1 < units.len() && 0xDC00 <= units[i + 1]
            && units[i + 1] < 0xE000 {
            let lo = units[i + 1];
            let x: u32 = 0x10000 + (w as u32 - 0xD800) * 0x400 + (lo as u32 - 0xDC00);
            match char_from_u32(x) {
                Some(c) => out.push(c),
                None => {
                    assert(false);
                },
            }
            proof {
                assert(rest.skip(2) =~= u.skip(i + 2));
                assert(x as int == pair_scalar(rest[0], rest[1]));
                assert(out@ =~= before + seq![pair_scalar(rest[0], rest[1]) as char]);
            }
            i = i + 2;
        } else {
            if 0xD800 <= w && w < 0xE000 {
                out.push('\u{FFFD}');
                proof {
                    assert(out@ =~= before + seq!['\u{FFFD}']);
                }
            } else {
                match char_from_u32(w as u32) {
                    Some(c) => out.push(c),
                    None => {
                        assert(false);
                    },
                }
                proof {
                    assert(out@ =~= before + seq![rest[0] as char]);
                }
            }
            proof {
                assert(rest.skip(1) =~= u.skip(i + 1));
            }
            i = i + 1;
        }
    }
    assert(u.skip(i as int) =~= Seq::<u16>::empty());
    assert(out@ =~= out@ + Seq::<char>::empty());
    out
}

/// Helper to detect and decode text bytes from multiple encodings (UTF-8,
/// UTF-16) into standard Strings.
pub struct TextCodec;

impl TextCodec {
    /// Detects the text encoding of raw bytes without doing full-file scans.
    pub fn detect_codec(bytes: &[u8]) -> (c: Codec)
        ensures
            c == detect_spec(bytes@),
    {
        let ghost b = bytes@;
        if bytes.len() >= 3 && bytes[0] == 0xEF && bytes[1] == 0xBB && bytes[2] == 0xBF {
            Codec::Utf8
        } else if bytes.len() >= 2 && bytes[0] == 0xFF && bytes[1] == 0xFE {
            Codec::Utf16Le
        } else if bytes.len() >= 2 && bytes[0] == 0xFE && bytes[1] == 0xFF {
            Codec::Utf16Be
        } else {
            let scan_len: usize = if bytes.len() < 4096 {
                bytes.len()
            } else {
                4096
            };
            if scan_len >= 4 {
                let mut nulls_odd: usize = 0;
                let mut nulls_even: usize = 0;
                let limit: usize = scan_len - (scan_len % 2);
                let mut i: usize = 0;
                while i < limit
                    invariant
                        b == bytes@,
                        limit <= b.len(),
                        limit % 2 == 0,
                        i % 2 == 0,
                        i <= limit,
                        nulls_even == zeros_in_pairs(b, (i / 2) as int, 0),
                        nulls_odd == zeros_in_pairs(b, (i / 2) as int, 1),
                        nulls_even <= i / 2,
                        nulls_odd <= i / 2,
                    decreases limit - i,
                {
                    if bytes[i] == 0 {
                        nulls_even = nulls_even + 1;
                    }
                    if bytes[i + 1] == 0 {
                        nulls_odd = nulls_odd + 1;
                    }
                    assert((i + 2) / 2 - 1 == i / 2);
                    i = i + 2;
                }
                let pairs: usize = limit / 2;
                assert(pairs == scan_pairs(b));
                if 10 * nulls_odd > 7 * pairs && Self::under_a_tenth(nulls_even, pairs) {
                    return Codec::Utf16Le;
                } else if 10 * nulls_even > 7 * pairs && Self::under_a_tenth(nulls_odd, pairs) {
                    return Codec::Utf16Be;
                }
            }
            Codec::Utf8
        }
    }

    fn under_a_tenth(zeros: usize, pairs: usize) -> (r: bool)
        requires
            zeros <= pairs <= 2048,
        ensures
            r == under_a_tenth(zeros as int, pairs as int),
    {
        if pairs >= 10 {
            zeros < pairs / 10
        } else {
            10 * zeros < pairs
        }
    }

    /// Decodes raw bytes using the specified text codec.
    pub fn decode_with_codec(bytes: &[u8], codec: &Codec) -> (s: String)
        ensures
            s@ == text_of(bytes@, *codec),
            *codec == Codec::Utf8 ==> ascii_chars_of(s@) == ascii_bytes_of(
                if has_utf8_bom(bytes@) {
                    bytes@.skip(3)
                } else {
                    bytes@
                },
            ),
    {
        match codec {
            Codec::Utf8 => {
                if bytes.len() >= 3 && bytes[0] == 0xEF && bytes[1] == 0xBB && bytes[2] == 0xBF {
                    let rest = slice_subrange(bytes, 3, bytes.len());
                    assert(rest@ =~= bytes@.skip(3));
                    from_utf8_lossy(rest)
                } else {
                    from_utf8_lossy(bytes)
                }
            },
            Codec::Utf16Le => {
                let start: usize = if bytes.len() >= 2 && bytes[0] == 0xFF && bytes[1] == 0xFE {
                    2
                } else {
                    0
                };
                let rest = slice_subrange(bytes, start, bytes.len());
                assert(rest@ =~= bytes@.skip(start as int));
                assert(bytes@.skip(0) =~= bytes@);
                Self::decode_utf16_le(rest)
            },
            Codec::Utf16Be => {
                let start: usize = if bytes.len() >= 2 && bytes[0] == 0xFE && bytes[1] == 0xFF {
                    2
                } else {
                    0
                };
                let rest = slice_subrange(bytes, start, bytes.len());
                assert(rest@ =~= bytes@.skip(start as int));
                assert(bytes@.skip(0) =~= bytes@);
                Self::decode_utf16_be(rest)
            },
        }
    }

    /// Detects the text encoding of raw bytes and decodes them into a
    /// standard UTF-8 String.
    pub fn to_utf8_string(bytes: &[u8]) -> (s: String)
        ensures
            s@ == text_of(bytes@, detect_spec(bytes@)),
            detect_spec(bytes@) == Codec::Utf8 ==> ascii_chars_of(s@) == ascii_bytes_of(
                if has_utf8_bom(bytes@) {
                    bytes@.skip(3)
                } else {
                    bytes@
                },
            ),
    {
        let codec = Self::detect_codec(bytes);
        Self::decode_with_codec(bytes, &codec)
    }

    fn decode_utf16_le(bytes: &[u8]) -> (s: String)
        ensures
            s@ == utf16_decode(le_units(bytes@)),
    {
        let n = bytes.len() / 2;
        let mut units: Vec<u16> = Vec::new();
        let mut j: usize = 0;
        while j < n
            invariant
                n == bytes@.len() / 2,
                2 * n <= bytes.len(),
                j <= n,
                units@ =~= le_units(bytes@).take(j as int),
            decreases n - j,
        {
            let lo = bytes[2 * j] as u16;
            let hi = bytes[2 * j + 1] as u16;
            units.push(lo + 256 * hi);
            j = j + 1;
        }
        assert(le_units(bytes@).take(n as int) =~= le_units(bytes@));
        let chars = decode_utf16_units(&units);
        string_from_chars(&chars)
    }

    fn decode_utf16_be(bytes: &[u8]) -> (s: String)
        ensures
            s@ == utf16_decode(be_units(bytes@)),
    {
        let n = bytes.len() / 2;
        let mut units: Vec<u16> = Vec::new();
        let mut j: usize = 0;
        while j < n
            invariant
                n == bytes@.len() / 2,
                2 * n <= bytes.len(),
                j <= n,
                units@ =~= be_units(bytes@).take(j as int),
            decreases n - j,
        {
            let hi = bytes[2 * j] as u16;
            let lo = bytes[2 * j + 1] as u16;
            units.push(256 * hi + lo);
            j = j + 1;
        }
        assert(be_units(bytes@).take(n as int) =~= be_units(bytes@));
        let chars = decode_utf16_units(&units);
        string_from_chars(&chars)
    }
}



/// The UTF-16 code units of one character.
pub open spec fn utf16_units_of(c: char) -> Seq<u16> {
    let v = c as u32;
    if v < 0x10000 {
        seq![v as u16]
    } else {
        seq![(0xD800 + (v - 0x10000) / 0x400) as u16, (0xDC00 + (v - 0x10000) % 0x400) as u16]
    }
}

/// The UTF-16 encoding of a character sequence.
pub open spec fn utf16_encode(t: Seq<char>) -> Seq<u16>
    decreases t.len(),
{
    if t.len() == 0 {
        Seq::empty()
    } else {
        utf16_units_of(t[0]) + utf16_encode(t.drop_first())
    }
}

/// The bytes of 16-bit units written little-endian.
pub open spec fn le_bytes(u: Seq<u16>) -> Seq<u8> {
    Seq::new(
        2 * u.len(),
        |i: int|
            if i % 2 == 0 {
                (u[i / 2] % 256) as u8
            } else {
                (u[i / 2] / 256) as u8
            },
    )
}

/// The bytes of 16-bit units written big-endian.
pub open spec fn be_bytes(u: Seq<u16>) -> Seq<u8> {
    Seq::new(
        2 * u.len(),
        |i: int|
            if i % 2 == 0 {
                (u[i / 2] / 256) as u8
            } else {
                (u[i / 2] % 256) as u8
            },
    )
}

proof fn lemma_utf16_round_trip(t: Seq<char>)
    ensures
        utf16_decode(utf16_encode(t)) == t,
    decreases t.len(),
{
    if t.len() > 0 {
        let c = t[0];
        let v = c as u32;
        let rest = t.drop_first();
        let u = utf16_encode(t);
        lemma_utf16_round_trip(rest);
        vstd::utf8::char_is_scalar(c);
        if v < 0x10000 {
            assert(u.skip(1) =~= utf16_encode(rest));
            assert((v as u16) as int == v as int);
            vstd::utf8::char_u32_cast(c, v);
            assert((v as u16) as char == v as char);
        } else {
            let w = v - 0x10000;
            assert(w == (w / 0x400) * 0x400 + w % 0x400);
            assert(u.skip(2) =~= utf16_encode(rest));
            assert(pair_scalar(u[0], u[1]) == v);
            vstd::utf8::char_u32_cast(c, v);
            assert((v as int) as char == v as char);
        }
        assert(t =~= seq![c] + rest);
    }
}

proof fn lemma_le_units_of_bytes(u: Seq<u16>)
    ensures
        le_units(le_bytes(u)) == u,
        be_units(be_bytes(u)) == u,
{
    assert forall|j: int| 0 <= j < u.len() implies #[trigger] le_units(le_bytes(u))[j] == u[j]
        && be_units(be_bytes(u))[j] == u[j] by {
        assert((2 * j) / 2 == j);
        assert((2 * j + 1) / 2 == j);
        assert((2 * j) % 2 == 0);
        assert((2 * j + 1) % 2 == 1);
        assert(u[j] == (u[j] / 256) * 256 + u[j] % 256);
    }
    assert(le_units(le_bytes(u)) =~= u);
    assert(be_units(be_bytes(u)) =~= u);
}

/// Any text written as UTF-16LE behind its byte order mark is read back
/// unchanged.
pub proof fn law_utf16le_with_bom_round_trip(t: Seq<char>)
    ensures
        ({
            let b = seq![0xFFu8, 0xFEu8] + le_bytes(utf16_encode(t));
            &&& detect_spec(b) == Codec::Utf16Le
            &&& text_of(b, detect_spec(b)) == t
        }),
{
    let b = seq![0xFFu8, 0xFEu8] + le_bytes(utf16_encode(t));
    assert(b.skip(2) =~= le_bytes(utf16_encode(t)));
    lemma_le_units_of_bytes(utf16_encode(t));
    lemma_utf16_round_trip(t);
}

/// Any text written as UTF-16BE behind its byte order mark is read back
/// unchanged.
pub proof fn law_utf16be_with_bom_round_trip(t: Seq<char>)
    ensures
        ({
            let b = seq![0xFEu8, 0xFFu8] + be_bytes(utf16_encode(t));
            &&& detect_spec(b) == Codec::Utf16Be
            &&& text_of(b, detect_spec(b)) == t
        }),
{
    let b = seq![0xFEu8, 0xFFu8] + be_bytes(utf16_encode(t));
    assert(b.skip(2) =~= be_bytes(utf16_encode(t)));
    lemma_le_units_of_bytes(utf16_encode(t));
    lemma_utf16_round_trip(t);
}

/// Any text written as UTF-8 behind its byte order mark is read back
/// unchanged.
pub proof fn law_utf8_with_bom_round_trip(t: Seq<char>)
    ensures
        ({
            let b = seq![0xEFu8, 0xBBu8, 0xBFu8] + encode_utf8(t);
            &&& detect_spec(b) == Codec::Utf8
            &&& text_of(b, detect_spec(b)) == t
        }),
{
    let b = seq![0xEFu8, 0xBBu8, 0xBFu8] + encode_utf8(t);
    assert(b.skip(3) =~= encode_utf8(t));
    encode_utf8_valid_utf8(t);
    encode_utf8_decode_utf8(t);
}

proof fn lemma_scalar_bytes(v: u32)
    requires
        is_scalar(v),
        v != 0,
    ensures
        encode_scalar(v).len() >= 1,
        forall|i: int|
            0 <= i < encode_scalar(v).len() ==> 0 < #[trigger] encode_scalar(v)[i] < 0xF8,
        encode_scalar(v)[0] == 0xEF ==> encode_scalar(v).len() == 3,
        v > 0x7F ==> encode_scalar(v)[0] >= 0xC0,
        v <= 0x7F ==> encode_scalar(v) == seq![v as u8],
        encode_scalar(v)[0] == 0xEF && encode_scalar(v)[1] == 0xBB && encode_scalar(v)[2]
            == 0xBF ==> v == 0xFEFF,
{
    if v <= 0x7F {
        assert(0 < ((v & 0x7F) as u8) && ((v & 0x7F) as u8) < 0x80 && (v & 0x7F) as u8
            == v as u8) by (bit_vector)
            requires
                0 < v <= 0x7F,
        ;
        assert(encode_scalar(v) =~= seq![v as u8]);
    } else if v <= 0x7FF {
        assert(0xC0 <= (0xC0 | ((v >> 6) & 0x1F) as u8) && (0xC0 | ((v >> 6) & 0x1F) as u8) <= 0xDF) by (bit_vector);
        assert(0x80 <= (0x80 | (v & 0x3F) as u8) && (0x80 | (v & 0x3F) as u8) <= 0xBF) by (bit_vector);
    } else if v <= 0xFFFF {
        assert(0xE0 <= (0xE0 | ((v >> 12) & 0x0F) as u8) && (0xE0 | ((v >> 12) & 0x0F) as u8) <= 0xEF) by (bit_vector);
        assert(0x80 <= (0x80 | ((v >> 6) & 0x3F) as u8) && (0x80 | ((v >> 6) & 0x3F) as u8) <= 0xBF) by (bit_vector);
        assert(0x80 <= (0x80 | (v & 0x3F) as u8) && (0x80 | (v & 0x3F) as u8) <= 0xBF) by (bit_vector);
        assert(0xE0 | ((v >> 12) & 0x0F) as u8 == 0xEF && 0x80 | ((v >> 6) & 0x3F) as u8 == 0xBB
            && 0x80 | (v & 0x3F) as u8 == 0xBF ==> v == 0xFEFF) by (bit_vector)
            requires
                v <= 0xFFFF,
        ;
    } else {
        assert(0xF0 <= (0xF0 | ((v >> 18) & 0x7) as u8) && (0xF0 | ((v >> 18) & 0x7) as u8) <= 0xF7) by (bit_vector);
        assert(0x80 <= (0x80 | ((v >> 12) & 0x3F) as u8) && (0x80 | ((v >> 12) & 0x3F) as u8) <= 0xBF) by (bit_vector);
        assert(0x80 <= (0x80 | ((v >> 6) & 0x3F) as u8) && (0x80 | ((v >> 6) & 0x3F) as u8) <= 0xBF) by (bit_vector);
        assert(0x80 <= (0x80 | (v & 0x3F) as u8) && (0x80 | (v & 0x3F) as u8) <= 0xBF) by (bit_vector);
    }
}

proof fn lemma_utf8_bytes(t: Seq<char>)
    requires
        forall|i: int| 0 <= i < t.len() ==> #[trigger] t[i] != '\0',
    ensures
        forall|i: int|
            0 <= i < encode_utf8(t).len() ==> 0 < #[trigger] encode_utf8(t)[i] < 0xF8,
        has_utf8_bom(encode_utf8(t)) ==> t[0] == '\u{FEFF}',
    decreases t.len(),
{
    if t.len() > 0 {
        let c = t[0];
        let v = c as u32;
        let rest = t.drop_first();
        let es = encode_scalar(v);
        let b = encode_utf8(t);
        vstd::utf8::char_is_scalar(c);
        assert(t[0] != '\0');
        vstd::utf8::char_u32_cast(c, v);
        assert(v != 0) by {
            if v == 0 {
                assert(0u32 as char == '\0');
            }
        }
        lemma_scalar_bytes(v);
        assert forall|i: int| 0 <= i < rest.len() implies #[trigger] rest[i] != '\0' by {
            assert(rest[i] == t[i + 1]);
        }
        lemma_utf8_bytes(rest);
        assert(b == es + encode_utf8(rest));
        assert forall|i: int| 0 <= i < b.len() implies 0 < #[trigger] b[i] < 0xF8 by {
            if i < es.len() {
                assert(b[i] == es[i]);
            } else {
                assert(b[i] == encode_utf8(rest)[i - es.len()]);
            }
        }
        if has_utf8_bom(b) {
            assert(b[0] == es[0]);
            assert(es.len() == 3);
            assert(b[1] == es[1]);
            assert(b[2] == es[2]);
            vstd::utf8::char_u32_cast(c, v);
        }
    }
}

/// Text without NUL characters, written as UTF-8 without a byte order mark,
/// is read back unchanged, unless it starts with U+FEFF (which reads as a
/// byte order mark and is dropped).
pub proof fn law_utf8_round_trip(t: Seq<char>)
    requires
        forall|i: int| 0 <= i < t.len() ==> #[trigger] t[i] != '\0',
        t.len() == 0 || t[0] != '\u{FEFF}',
    ensures
        detect_spec(encode_utf8(t)) == Codec::Utf8,
        text_of(encode_utf8(t), detect_spec(encode_utf8(t))) == t,
{
    let b = encode_utf8(t);
    lemma_utf8_bytes(t);
    assert forall|i: int| 0 <= i < b.len() implies #[trigger] b[i] != 0 by {}
    lemma_no_zeros(b, scan_pairs(b), 0);
    lemma_no_zeros(b, scan_pairs(b), 1);
    if b.len() >= 2 {
        assert(b[0] < 0xF8);
    }
    encode_utf8_valid_utf8(t);
    encode_utf8_decode_utf8(t);
}

proof fn lemma_zeros_count(b: Seq<u8>, pairs: int, parity: int, all_zero: bool)
    requires
        0 <= parity <= 1,
        0 <= pairs,
        2 * pairs <= b.len(),
        forall|j: int| 0 <= j < pairs ==> (#[trigger] b[2 * j + parity] == 0) == all_zero,
    ensures
        zeros_in_pairs(b, pairs, parity) == if all_zero {
            pairs
        } else {
            0
        },
    decreases pairs,
{
    if pairs > 0 {
        lemma_zeros_count(b, pairs - 1, parity, all_zero);
        assert((b[2 * (pairs - 1) + parity] == 0) == all_zero);
    }
}

/// Characters from U+0001 to U+00FF: one UTF-16 unit whose high byte is zero.
pub open spec fn is_latin1_text(t: Seq<char>) -> bool {
    forall|i: int| 0 <= i < t.len() ==> '\u{1}' <= #[trigger] t[i] <= '\u{ff}'
}

proof fn lemma_latin1_units(t: Seq<char>)
    requires
        is_latin1_text(t),
    ensures
        utf16_encode(t).len() == t.len(),
        forall|i: int| 0 <= i < t.len() ==> #[trigger] utf16_encode(t)[i] as int == t[i] as int,
    decreases t.len(),
{
    if t.len() > 0 {
        let rest = t.drop_first();
        assert(is_latin1_text(rest)) by {
            assert forall|i: int| 0 <= i < rest.len() implies '\u{1}' <= #[trigger] rest[i]
                <= '\u{ff}' by {
                assert(rest[i] == t[i + 1]);
            }
        }
        lemma_latin1_units(rest);
        assert('\u{1}' <= t[0] <= '\u{ff}');
        assert forall|i: int| 0 <= i < t.len() implies #[trigger] utf16_encode(t)[i] as int
            == t[i] as int by {
            if i > 0 {
                assert(utf16_encode(t)[i] == utf16_encode(rest)[i - 1]);
                assert(rest[i - 1] == t[i]);
            }
        }
    }
}

/// Text of at least two characters from U+0001 to U+00FF, written as
/// UTF-16LE without a byte order mark, is recognised as UTF-16LE and read
/// back unchanged.
pub proof fn law_utf16le_detected_without_bom(t: Seq<char>)
    requires
        is_latin1_text(t),
        t.len() >= 2,
    ensures
        detect_spec(le_bytes(utf16_encode(t))) == Codec::Utf16Le,
        text_of(le_bytes(utf16_encode(t)), Codec::Utf16Le) == t,
{
    let u = utf16_encode(t);
    let b = le_bytes(u);
    lemma_latin1_units(t);
    assert forall|j: int| 0 <= j < t.len() implies #[trigger] b[2 * j] != 0 && b[2 * j + 1]
        == 0 by {
        assert((2 * j) / 2 == j && (2 * j) % 2 == 0);
        assert((2 * j + 1) / 2 == j && (2 * j + 1) % 2 == 1);
        assert('\u{1}' <= t[j] <= '\u{ff}');
    }
    let pairs = scan_pairs(b);
    assert(2 <= pairs <= t.len());
    lemma_zeros_count(b, pairs, 0, false);
    lemma_zeros_count(b, pairs, 1, true);
    assert(b[1] == 0);
    lemma_le_units_of_bytes(u);
    lemma_utf16_round_trip(t);
}

/// Text of at least two characters from U+0001 to U+00FF, written as
/// UTF-16BE without a byte order mark, is recognised as UTF-16BE and read
/// back unchanged.
pub proof fn law_utf16be_detected_without_bom(t: Seq<char>)
    requires
        is_latin1_text(t),
        t.len() >= 2,
    ensures
        detect_spec(be_bytes(utf16_encode(t))) == Codec::Utf16Be,
        text_of(be_bytes(utf16_encode(t)), Codec::Utf16Be) == t,
{
    let u = utf16_encode(t);
    let b = be_bytes(u);
    lemma_latin1_units(t);
    assert forall|j: int| 0 <= j < t.len() implies #[trigger] b[2 * j] == 0 && b[2 * j + 1]
        != 0 by {
        assert((2 * j) / 2 == j && (2 * j) % 2 == 0);
        assert((2 * j + 1) / 2 == j && (2 * j + 1) % 2 == 1);
        assert('\u{1}' <= t[j] <= '\u{ff}');
    }
    let pairs = scan_pairs(b);
    assert(2 <= pairs <= t.len());
    lemma_zeros_count(b, pairs, 0, true);
    lemma_zeros_count(b, pairs, 1, false);
    assert(b[0] == 0);
    lemma_le_units_of_bytes(u);
    lemma_utf16_round_trip(t);
}

/// The UTF-8 bytes of one character: the character itself when it is ASCII,
/// else starting with a byte of at least 0xC0.
pub proof fn lemma_char_utf8(c: char)
    ensures
        c as u32 <= 0x7F ==> encode_utf8(seq![c]) == seq![c as u8],
        c as u32 > 0x7F ==> encode_utf8(seq![c]).len() >= 1 && encode_utf8(seq![c])[0] >= 0xC0,
{
    let v = c as u32;
    vstd::utf8::char_is_scalar(c);
    assert(seq![c].drop_first() =~= Seq::<char>::empty());
    assert(encode_utf8(seq![c]) =~= encode_scalar(v) + encode_utf8(Seq::<char>::empty()));
    if v == 0 {
        assert((0u32 & 0x7F) as u8 == 0u32 as u8) by (bit_vector);
        assert(encode_scalar(v) =~= seq![v as u8]);
    } else {
        lemma_scalar_bytes(v);
    }
    assert(encode_utf8(seq![c]) =~= encode_scalar(v));
    if v <= 0x7F {
        assert((c as u32) as u8 == c as u8);
    }
}

} // verus!
