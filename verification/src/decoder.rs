use vstd::prelude::*;
use vstd::string::{StringExecFns, StringSliceAdditionalSpecFns};
use crate::text_codec::string_from_chars;

verus! {

/// The value of a Base64 digit, in the standard (`+`, `/`) or the URL-safe
/// (`-`, `_`) alphabet; `None` for any other byte.
pub open spec fn sextet_of(b: u8) -> Option<u8> {
    if 65 <= b <= 90 {
        Some((b - 65) as u8)
    } else if 97 <= b <= 122 {
        Some((b - 97 + 26) as u8)
    } else if 48 <= b <= 57 {
        Some((b - 48 + 52) as u8)
    } else if b == 43 || b == 45 {
        Some(62u8)
    } else if b == 47 || b == 95 {
        Some(63u8)
    } else {
        None
    }
}

fn sextet_value(b: u8) -> (r: Option<u8>)
    ensures
        r == sextet_of(b),
{
    if 65 <= b && b <= 90 {
        Some(b - 65)
    } else if 97 <= b && b <= 122 {
        Some(b - 97 + 26)
    } else if 48 <= b && b <= 57 {
        Some(b - 48 + 52)
    } else if b == 43 || b == 45 {
        Some(62)
    } else if b == 47 || b == 95 {
        Some(63)
    } else {
        None
    }
}

/// The byte `=`, which ends the data part of the input.
pub open spec fn is_pad(b: u8) -> bool {
    b == 61
}

/// Length of the data part of `s`: everything before the first `=`.
pub open spec fn data_len(s: Seq<u8>) -> int
    decreases s.len(),
{
    if s.len() == 0 {
        0
    } else if data_len(s.drop_last()) < s.len() - 1 {
        data_len(s.drop_last())
    } else if is_pad(s.last()) {
        s.len() - 1
    } else {
        s.len() as int
    }
}

/// Every byte of `s` is a Base64 digit.
pub open spec fn all_digits(s: Seq<u8>) -> bool {
    forall|i: int| 0 <= i < s.len() ==> (#[trigger] sextet_of(s[i])) is Some
}

/// Index of the first byte of `s` that is not a Base64 digit (`-1` if none).
pub open spec fn first_invalid(s: Seq<u8>) -> int
    decreases s.len(),
{
    if s.len() == 0 {
        -1
    } else if !all_digits(s.drop_last()) {
        first_invalid(s.drop_last())
    } else if sextet_of(s.last()) is None {
        s.len() - 1
    } else {
        -1
    }
}

/// The 6-bit values of a run of Base64 digits.
pub open spec fn sextets(s: Seq<u8>) -> Seq<u8> {
    s.map_values(|b: u8| sextet_of(b)->0)
}

/// Byte `k` of the bit string spelled by the 6-bit values `v`: group `k / 3`
/// of four digits gives three bytes.
pub open spec fn byte_at(v: Seq<u8>, k: int) -> u8 {
    let g = k / 3;
    if k % 3 == 0 {
        (v[4 * g] << 2u8) | (v[4 * g + 1] >> 4u8)
    } else if k % 3 == 1 {
        (v[4 * g + 1] << 4u8) | (v[4 * g + 2] >> 2u8)
    } else {
        (v[4 * g + 2] << 6u8) | v[4 * g + 3]
    }
}

/// The whole bytes spelled by the 6-bit values `v`; leftover bits are dropped.
pub open spec fn bytes_of_sextets(v: Seq<u8>) -> Seq<u8> {
    Seq::new(((6 * v.len()) / 8) as nat, |k: int| byte_at(v, k))
}

/// What decoding the bytes `input` gives: the bytes spelled by the digits
/// before the first `=`, or the first byte there that is not a digit.
pub open spec fn decode_spec(input: Seq<u8>) -> Result<Seq<u8>, u8> {
    let d = input.take(data_len(input));
    if first_invalid(d) >= 0 {
        Err(d[first_invalid(d)])
    } else {
        Ok(bytes_of_sextets(sextets(d)))
    }
}

/// The error text for an input byte that is not a Base64 digit.
pub open spec fn invalid_char_message(b: u8) -> Seq<char> {
    "Invalid character '"@ + seq![b as char] + "' in base64"@
}

/// The bits that the decoder holds back after `v.len()` digits.
spec fn carry_ok(v: Seq<u8>, buffer: u32, bits: u32) -> bool {
    let n = v.len();
    if n % 4 == 0 {
        bits == 0 && buffer == 0
    } else if n % 4 == 1 {
        bits == 6 && buffer == v[n - 1] as u32
    } else if n % 4 == 2 {
        bits == 4 && buffer == (v[n - 1] & 15u8) as u32
    } else {
        bits == 2 && buffer == (v[n - 1] & 3u8) as u32
    }
}

/// Every value of `v` fits in six bits.
spec fn small(v: Seq<u8>) -> bool {
    forall|i: int| 0 <= i < v.len() ==> #[trigger] v[i] < 64
}

proof fn lemma_sextet_small(b: u8)
    ensures
        sextet_of(b) matches Some(x) ==> x < 64,
{
}

pub proof fn lemma_data_len(s: Seq<u8>, n: int)
    requires
        0 <= n <= s.len(),
        forall|j: int| 0 <= j < n ==> !is_pad(#[trigger] s[j]),
        n == s.len() || is_pad(s[n]),
    ensures
        data_len(s) == n,
    decreases s.len(),
{
    if s.len() > 0 {
        if n < s.len() {
            lemma_data_len(s.drop_last(), n);
        } else {
            lemma_data_len(s.drop_last(), n - 1);
        }
    }
}

pub proof fn lemma_data_len_at_least(s: Seq<u8>, i: int)
    requires
        0 <= i < s.len(),
        forall|j: int| 0 <= j <= i ==> !is_pad(#[trigger] s[j]),
    ensures
        i < data_len(s) <= s.len(),
    decreases s.len(),
{
    if i < s.len() - 1 {
        lemma_data_len_at_least(s.drop_last(), i);
    } else {
        lemma_data_len(s.drop_last(), i);
    }
}

pub proof fn lemma_first_invalid_at(s: Seq<u8>, i: int)
    requires
        0 <= i < s.len(),
        all_digits(s.take(i)),
        sextet_of(s[i]) is None,
    ensures
        first_invalid(s) == i,
    decreases s.len(),
{
    if i < s.len() - 1 {
        assert(s.drop_last().take(i) =~= s.take(i));
        assert(!all_digits(s.drop_last())) by {
            assert(sextet_of(s.drop_last()[i]) is None);
        }
        lemma_first_invalid_at(s.drop_last(), i);
    } else {
        assert(s.drop_last() =~= s.take(i));
    }
}

pub proof fn lemma_first_invalid_none(s: Seq<u8>)
    requires
        all_digits(s),
    ensures
        first_invalid(s) == -1,
    decreases s.len(),
{
    if s.len() > 0 {
        assert(all_digits(s.drop_last())) by {
            assert forall|i: int| 0 <= i < s.drop_last().len() implies (#[trigger] sextet_of(
                s.drop_last()[i],
            )) is Some by {
                assert(s.drop_last()[i] == s[i]);
            }
        }
        assert(sextet_of(s[s.len() - 1]) is Some);
        lemma_first_invalid_none(s.drop_last());
    }
}

/// Appending a digit keeps every byte already spelled.
#[verifier::spinoff_prover]
proof fn lemma_bytes_push(v: Seq<u8>, x: u8)
    ensures
        bytes_of_sextets(v.push(x)).len() >= bytes_of_sextets(v).len(),
        bytes_of_sextets(v.push(x)).take(bytes_of_sextets(v).len() as int) =~= bytes_of_sextets(v),
        v.len() % 4 == 0 ==> bytes_of_sextets(v.push(x)).len() == bytes_of_sextets(v).len(),
        v.len() % 4 != 0 ==> bytes_of_sextets(v.push(x)).len() == bytes_of_sextets(v).len() + 1,
{
    let n = v.len() as int;
    let w = v.push(x);
    assert forall|k: int| 0 <= k < (6 * n) / 8 implies #[trigger] byte_at(w, k) == byte_at(v, k) by {
        let g = k / 3;
        assert(k == 3 * g + k % 3);
        assert(8 * (k + 1) <= 6 * n);
        assert(w[4 * g] == v[4 * g]);
        assert(w[4 * g + 1] == v[4 * g + 1]);
        if k % 3 >= 1 {
            assert(w[4 * g + 2] == v[4 * g + 2]);
        }
        if k % 3 == 2 {
            assert(w[4 * g + 3] == v[4 * g + 3]);
        }
    }
}

proof fn lemma_combine_first(a: u8, x: u8)
    requires
        a < 64,
        x < 64,
    ensures
        ((((a as u32) << 6u32) | (x as u32)) >> 4u32) as u8 == (a << 2u8) | (x >> 4u8),
        (((a as u32) << 6u32) | (x as u32)) & 15u32 == (x & 15u8) as u32,
{
    assert(((((a as u32) << 6u32) | (x as u32)) >> 4u32) as u8 == (a << 2u8) | (x >> 4u8))
        by (bit_vector)
        requires
            a < 64,
            x < 64,
    ;
    assert((((a as u32) << 6u32) | (x as u32)) & 15u32 == (x & 15u8) as u32) by (bit_vector)
        requires
            a < 64,
            x < 64,
    ;
}

proof fn lemma_combine_second(a: u8, x: u8)
    requires
        a < 64,
        x < 64,
    ensures
        (((((a & 15u8) as u32) << 6u32) | (x as u32)) >> 2u32) as u8 == (a << 4u8) | (x >> 2u8),
        ((((a & 15u8) as u32) << 6u32) | (x as u32)) & 3u32 == (x & 3u8) as u32,
{
    assert((((((a & 15u8) as u32) << 6u32) | (x as u32)) >> 2u32) as u8 == (a << 4u8) | (x
        >> 2u8)) by (bit_vector)
        requires
            a < 64,
            x < 64,
    ;
    assert(((((a & 15u8) as u32) << 6u32) | (x as u32)) & 3u32 == (x & 3u8) as u32)
        by (bit_vector)
        requires
            a < 64,
            x < 64,
    ;
}

proof fn lemma_combine_third(a: u8, x: u8)
    requires
        a < 64,
        x < 64,
    ensures
        (((((a & 3u8) as u32) << 6u32) | (x as u32)) >> 0u32) as u8 == (a << 6u8) | x,
        ((((a & 3u8) as u32) << 6u32) | (x as u32)) & 0u32 == 0,
        (((0u32 << 6u32) | (x as u32)) == x as u32),
{
    assert((((((a & 3u8) as u32) << 6u32) | (x as u32)) >> 0u32) as u8 == (a << 6u8) | x)
        by (bit_vector)
        requires
            a < 64,
            x < 64,
    ;
    assert(((((a & 3u8) as u32) << 6u32) | (x as u32)) & 0u32 == 0) by (bit_vector);
    assert(((0u32 << 6u32) | (x as u32)) == x as u32) by (bit_vector);
}

/// The standard-alphabet digit (a byte) for a 6-bit value.
pub open spec fn std_digit(v: u8) -> u8 {
    if v < 26 {
        (v + 65) as u8
    } else if v < 52 {
        (v - 26 + 97) as u8
    } else if v < 62 {
        (v - 52 + 48) as u8
    } else if v == 62 {
        43
    } else {
        47
    }
}

/// Byte `i` of `x`, or 0 past its end.
pub open spec fn byte_or_zero(x: Seq<u8>, i: int) -> u8 {
    if 0 <= i < x.len() {
        x[i]
    } else {
        0
    }
}

/// The 6-bit value at position `j` of the Base64 encoding of `x`.
pub open spec fn enc_sextet(x: Seq<u8>, j: int) -> u8 {
    let g = j / 4;
    let b0 = byte_or_zero(x, 3 * g);
    let b1 = byte_or_zero(x, 3 * g + 1);
    let b2 = byte_or_zero(x, 3 * g + 2);
    if j % 4 == 0 {
        b0 >> 2u8
    } else if j % 4 == 1 {
        ((b0 & 3u8) << 4u8) | (b1 >> 4u8)
    } else if j % 4 == 2 {
        ((b1 & 15u8) << 2u8) | (b2 >> 6u8)
    } else {
        b2 & 63u8
    }
}

/// Number of digits (before padding) in the Base64 encoding of `n` bytes.
pub open spec fn enc_digits_len(n: nat) -> int {
    ((4 * n + 2) / 3) as int
}

/// The standard, padded Base64 encoding of `x` (RFC 4648), as bytes.
pub open spec fn b64_encode(x: Seq<u8>) -> Seq<u8> {
    Seq::new(
        (4 * ((x.len() + 2) / 3)) as nat,
        |j: int|
            if j < enc_digits_len(x.len()) {
                std_digit(enc_sextet(x, j))
            } else {
                61u8
            },
    )
}

proof fn lemma_std_digit(v: u8)
    requires
        v < 64,
    ensures
        sextet_of(std_digit(v)) == Some(v),
        !is_pad(std_digit(v)),
{
}

proof fn lemma_group_round_trip(b0: u8, b1: u8, b2: u8)
    ensures
        ((b0 >> 2u8) << 2u8) | ((((b0 & 3u8) << 4u8) | (b1 >> 4u8)) >> 4u8) == b0,
        ((((b0 & 3u8) << 4u8) | (b1 >> 4u8)) << 4u8) | ((((b1 & 15u8) << 2u8) | (b2 >> 6u8))
            >> 2u8) == b1,
        ((((b1 & 15u8) << 2u8) | (b2 >> 6u8)) << 6u8) | (b2 & 63u8) == b2,
        b0 >> 2u8 < 64,
        ((b0 & 3u8) << 4u8) | (b1 >> 4u8) < 64,
        ((b1 & 15u8) << 2u8) | (b2 >> 6u8) < 64,
        b2 & 63u8 < 64,
{
    assert(((b0 >> 2u8) << 2u8) | ((((b0 & 3u8) << 4u8) | (b1 >> 4u8)) >> 4u8) == b0)
        by (bit_vector);
    assert(((((b0 & 3u8) << 4u8) | (b1 >> 4u8)) << 4u8) | ((((b1 & 15u8) << 2u8) | (b2
        >> 6u8)) >> 2u8) == b1) by (bit_vector);
    assert(((((b1 & 15u8) << 2u8) | (b2 >> 6u8)) << 6u8) | (b2 & 63u8) == b2) by (bit_vector);
    assert(b0 >> 2u8 < 64) by (bit_vector);
    assert(((b0 & 3u8) << 4u8) | (b1 >> 4u8) < 64) by (bit_vector);
    assert(((b1 & 15u8) << 2u8) | (b2 >> 6u8) < 64) by (bit_vector);
    assert(b2 & 63u8 < 64) by (bit_vector);
}

proof fn lemma_enc_sextet_small(x: Seq<u8>, j: int)
    ensures
        enc_sextet(x, j) < 64,
{
    let g = j / 4;
    lemma_group_round_trip(byte_or_zero(x, 3 * g), byte_or_zero(x, 3 * g + 1), byte_or_zero(x, 3 * g + 2));
}

/// Decoding the standard Base64 encoding of any bytes gives those bytes back.
pub proof fn law_decode_inverts_encode(x: Seq<u8>)
    ensures
        decode_spec(b64_encode(x)) == Ok::<Seq<u8>, u8>(x),
{
    let e = b64_encode(x);
    let n = x.len();
    let d = enc_digits_len(n);
    let q = n / 3;
    assert(n == 3 * q + n % 3);
    assert(e.len() == 4 * ((n + 2) / 3));
    assert(d <= e.len());
    assert forall|j: int| 0 <= j < d implies !is_pad(#[trigger] e[j]) by {
        lemma_enc_sextet_small(x, j);
        lemma_std_digit(enc_sextet(x, j));
    }
    lemma_data_len(e, d);
    let data = e.take(d);
    assert(all_digits(data)) by {
        assert forall|j: int| 0 <= j < data.len() implies (#[trigger] sextet_of(data[j])) is Some by {
            lemma_enc_sextet_small(x, j);
            lemma_std_digit(enc_sextet(x, j));
        }
    }
    lemma_first_invalid_none(data);
    let v = sextets(data);
    assert forall|j: int| 0 <= j < d implies #[trigger] v[j] == enc_sextet(x, j) by {
        lemma_enc_sextet_small(x, j);
        lemma_std_digit(enc_sextet(x, j));
    }
    assert((6 * d) / 8 == n);
    assert forall|k: int| 0 <= k < n implies #[trigger] byte_at(v, k) == x[k] by {
        let g = k / 3;
        assert(k == 3 * g + k % 3);
        assert(4 * g + 3 < d || (k % 3 == 0 && 4 * g + 1 < d) || (k % 3 == 1 && 4 * g + 2 < d));
        assert((4 * g) / 4 == g);
        assert((4 * g + 1) / 4 == g);
        assert((4 * g + 2) / 4 == g);
        assert((4 * g + 3) / 4 == g);
        lemma_group_round_trip(byte_or_zero(x, 3 * g), byte_or_zero(x, 3 * g + 1), byte_or_zero(x, 3 * g + 2));
        if k % 3 == 0 {
            assert(v[4 * g] == enc_sextet(x, 4 * g));
            assert(v[4 * g + 1] == enc_sextet(x, 4 * g + 1));
        } else if k % 3 == 1 {
            assert(v[4 * g + 1] == enc_sextet(x, 4 * g + 1));
            assert(v[4 * g + 2] == enc_sextet(x, 4 * g + 2));
        } else {
            assert(v[4 * g + 2] == enc_sextet(x, 4 * g + 2));
            assert(v[4 * g + 3] == enc_sextet(x, 4 * g + 3));
        }
    }
    assert(bytes_of_sextets(v) =~= x);
}

pub proof fn lemma_data_len_props(s: Seq<u8>)
    ensures
        0 <= data_len(s) <= s.len(),
        forall|j: int| 0 <= j < data_len(s) ==> !is_pad(#[trigger] s[j]),
        data_len(s) == s.len() || is_pad(s[data_len(s)]),
    decreases s.len(),
{
    if s.len() > 0 {
        lemma_data_len_props(s.drop_last());
        assert forall|j: int| 0 <= j < data_len(s) implies !is_pad(#[trigger] s[j]) by {
            if j < s.len() - 1 {
                assert(s[j] == s.drop_last()[j]);
            }
        }
    }
}

proof fn lemma_first_invalid_props(s: Seq<u8>)
    ensures
        first_invalid(s) == -1 ==> all_digits(s),
        first_invalid(s) != -1 ==> {
            &&& 0 <= first_invalid(s) < s.len()
            &&& all_digits(s.take(first_invalid(s)))
            &&& sextet_of(s[first_invalid(s)]) is None
        },
    decreases s.len(),
{
    if s.len() > 0 {
        lemma_first_invalid_props(s.drop_last());
        let j = first_invalid(s);
        if !all_digits(s.drop_last()) {
            assert(s.take(j) =~= s.drop_last().take(j));
        } else if sextet_of(s.last()) is None {
            assert(s.take(j) =~= s.drop_last());
        } else {
            assert forall|i: int| 0 <= i < s.len() implies (#[trigger] sextet_of(s[i])) is Some by {
                if i < s.len() - 1 {
                    assert(s[i] == s.drop_last()[i]);
                }
            }
        }
    }
}

/// Rewrites the URL-safe digits `-` and `_` as their standard forms `+`, `/`.
pub open spec fn to_standard_alphabet(s: Seq<u8>) -> Seq<u8> {
    s.map_values(|b: u8| if b == 45 { 43u8 } else if b == 95 { 47u8 } else { b })
}

/// The URL-safe alphabet decodes exactly as the standard one: rewriting `-`
/// as `+` and `_` as `/` changes neither the bytes decoded nor the error.
pub proof fn law_url_safe_alphabet(s: Seq<u8>)
    ensures
        decode_spec(to_standard_alphabet(s)) == decode_spec(s),
{
    let t = to_standard_alphabet(s);
    assert forall|i: int| 0 <= i < s.len() implies sextet_of(#[trigger] t[i]) == sextet_of(s[i])
        && (is_pad(t[i]) <==> is_pad(s[i])) && (sextet_of(s[i]) is None ==> t[i] == s[i]) by {}
    lemma_data_len_props(s);
    let n = data_len(s);
    lemma_data_len(t, n);
    let ds = s.take(n);
    let dt = t.take(n);
    lemma_first_invalid_props(ds);
    let j = first_invalid(ds);
    if j == -1 {
        assert(all_digits(dt)) by {
            assert forall|i: int| 0 <= i < dt.len() implies (#[trigger] sextet_of(dt[i])) is Some by {
                assert(sextet_of(ds[i]) is Some);
            }
        }
        lemma_first_invalid_none(dt);
        assert(sextets(dt) =~= sextets(ds));
    } else {
        assert(all_digits(dt.take(j))) by {
            assert forall|i: int| 0 <= i < dt.take(j).len() implies (#[trigger] sextet_of(
                dt.take(j)[i],
            )) is Some by {
                assert(sextet_of(ds.take(j)[i]) is Some);
            }
        }
        lemma_first_invalid_at(dt, j);
    }
}

/// Decoding stops at the first `=`: whatever follows it is ignored, so
/// padding is optional.
pub proof fn law_padding_ends_data(a: Seq<u8>, b: Seq<u8>)
    requires
        forall|i: int| 0 <= i < a.len() ==> !is_pad(#[trigger] a[i]),
    ensures
        decode_spec(a + seq![61u8] + b) == decode_spec(a),
{
    let s = a + seq![61u8] + b;
    assert forall|j: int| 0 <= j < a.len() implies !is_pad(#[trigger] s[j]) by {
        assert(s[j] == a[j]);
    }
    lemma_data_len(s, a.len() as int);
    lemma_data_len(a, a.len() as int);
    assert(s.take(a.len() as int) =~= a);
    assert(a.take(a.len() as int) =~= a);
}

proof fn lemma_bytes_concat(va: Seq<u8>, vb: Seq<u8>)
    requires
        va.len() % 4 == 0,
    ensures
        bytes_of_sextets(va + vb) == bytes_of_sextets(va) + bytes_of_sextets(vb),
{
    let v = va + vb;
    let q = va.len() / 4;
    assert(va.len() == 4 * q);
    assert((6 * v.len()) / 8 == 3 * q + (6 * vb.len()) / 8);
    assert((6 * va.len()) / 8 == 3 * q);
    assert forall|k: int| 0 <= k < 3 * q implies #[trigger] byte_at(v, k) == byte_at(va, k) by {
        let g = k / 3;
        assert(g < q);
        assert(v[4 * g] == va[4 * g]);
        assert(v[4 * g + 1] == va[4 * g + 1]);
        assert(v[4 * g + 2] == va[4 * g + 2]);
        assert(v[4 * g + 3] == va[4 * g + 3]);
    }
    assert forall|k: int| 0 <= k < (6 * vb.len()) / 8 implies #[trigger] byte_at(v, 3 * q + k)
        == byte_at(vb, k) by {
        let g = k / 3;
        assert((3 * q + k) / 3 == q + g);
        assert((3 * q + k) % 3 == k % 3);
        assert(8 * (k + 1) <= 6 * vb.len());
        assert(v[4 * (q + g)] == vb[4 * g]);
        assert(v[4 * (q + g) + 1] == vb[4 * g + 1]);
        if k % 3 >= 1 {
            assert(v[4 * (q + g) + 2] == vb[4 * g + 2]);
        }
        if k % 3 == 2 {
            assert(v[4 * (q + g) + 3] == vb[4 * g + 3]);
        }
    }
    let lhs = bytes_of_sextets(v);
    let rhs = bytes_of_sextets(va) + bytes_of_sextets(vb);
    assert forall|k: int| 0 <= k < lhs.len() implies lhs[k] == rhs[k] by {
        if k >= 3 * q {
            assert(byte_at(v, 3 * q + (k - 3 * q)) == byte_at(vb, k - 3 * q));
        }
    }
    assert(lhs =~= rhs);
}

/// Decoding works block by block: a run of Base64 digits whose length is a
/// multiple of four decodes on its own, and whatever follows it decodes as
/// if it stood alone (its error too).
pub proof fn law_decode_blocks(a: Seq<u8>, b: Seq<u8>)
    requires
        a.len() % 4 == 0,
        all_digits(a),
    ensures
        decode_spec(a) == Ok::<Seq<u8>, u8>(bytes_of_sextets(sextets(a))),
        decode_spec(a + b) == match decode_spec(b) {
            Ok(y) => Ok::<Seq<u8>, u8>(bytes_of_sextets(sextets(a)) + y),
            Err(c) => Err(c),
        },
{
    let s = a + b;
    let n = a.len() as int;
    assert forall|i: int| 0 <= i < n implies !is_pad(#[trigger] a[i]) by {
        assert(sextet_of(a[i]) is Some);
    }
    lemma_data_len(a, n);
    assert(a.take(n) =~= a);
    lemma_first_invalid_none(a);
    lemma_data_len_props(b);
    let db = data_len(b);
    assert forall|i: int| 0 <= i < n + db implies !is_pad(#[trigger] s[i]) by {
        if i < n {
            assert(s[i] == a[i]);
        } else {
            assert(s[i] == b[i - n]);
        }
    }
    if n + db < s.len() {
        assert(s[n + db] == b[db]);
    }
    lemma_data_len(s, n + db);
    let d = s.take(n + db);
    let dbb = b.take(db);
    assert(d =~= a + dbb);
    lemma_first_invalid_props(dbb);
    let j = first_invalid(dbb);
    if j == -1 {
        assert(all_digits(d)) by {
            assert forall|i: int| 0 <= i < d.len() implies (#[trigger] sextet_of(d[i])) is Some by {
                if i < n {
                    assert(d[i] == a[i]);
                } else {
                    assert(d[i] == dbb[i - n]);
                }
            }
        }
        lemma_first_invalid_none(d);
        assert(sextets(d) =~= sextets(a) + sextets(dbb));
        lemma_bytes_concat(sextets(a), sextets(dbb));
    } else {
        assert(d.take(n + j) =~= a + dbb.take(j));
        assert(all_digits(d.take(n + j))) by {
            assert forall|i: int| 0 <= i < n + j implies (#[trigger] sextet_of(
                d.take(n + j)[i],
            )) is Some by {
                if i < n {
                    assert(d.take(n + j)[i] == a[i]);
                } else {
                    assert(d.take(n + j)[i] == dbb.take(j)[i - n]);
                }
            }
        }
        assert(d[n + j] == dbb[j]);
        lemma_first_invalid_at(d, n + j);
    }
}

/// The error text for a byte that is not a Base64 digit: the byte is shown
/// as the character of that code point.
fn invalid_character(b: u8) -> (msg: String)
    ensures
        msg@ == invalid_char_message(b),
{
    let mut msg = String::from_str("Invalid character '");
    let one = vec![b as char];
    assert(one@ =~= seq![b as char]);
    let shown = string_from_chars(&one);
    msg.append(shown.as_str());
    msg.append("' in base64");
    msg
}

/// Base64 decoder for the standard and the URL-safe alphabets.
pub struct Base64Decoder;

impl Base64Decoder {
    /// Decodes a pre-cleansed Base64 string into the bytes it encodes.
    /// Supports both standard and URL-safe Base64 alphabets; decoding stops
    /// at the first `=`, and padding is optional.
    pub fn decode(input: &str) -> (res: Result<Vec<u8>, String>)
        ensures
            match decode_spec(input.spec_bytes()) {
                Ok(v) => res matches Ok(out) && out@ == v,
                Err(b) => res matches Err(msg) && msg@ == invalid_char_message(b),
            },
    {
        let bytes = input.as_bytes();
        let mut decoded: Vec<u8> = Vec::new();
        let mut buffer: u32 = 0;
        let mut bits: u32 = 0;
        let mut i: usize = 0;
        let ghost s = bytes@;
        while i < bytes.len() && bytes[i] != 61
            invariant
                s == bytes@,
                s == input.spec_bytes(),
                0 <= i <= s.len(),
                forall|j: int| 0 <= j < i ==> !is_pad(#[trigger] s[j]),
                all_digits(s.take(i as int)),
                small(sextets(s.take(i as int))),
                decoded@ == bytes_of_sextets(sextets(s.take(i as int))),
                carry_ok(sextets(s.take(i as int)), buffer, bits),
            decreases s.len() - i,
        {
            let b = bytes[i];
            let val = match sextet_value(b) {
                Some(v) => v,
                None => {
                    proof {
                        lemma_data_len_at_least(s, i as int);
                        let d = s.take(data_len(s));
                        assert(d.take(i as int) =~= s.take(i as int));
                        lemma_first_invalid_at(d, i as int);
                    }
                    return Err(invalid_character(b));
                },
            };
            let ghost v = sextets(s.take(i as int));
            let ghost w = sextets(s.take(i + 1));
            proof {
                lemma_sextet_small(b);
                assert(w =~= v.push(val));
                assert(s.take(i + 1) =~= s.take(i as int).push(b));
                assert(all_digits(s.take(i + 1))) by {
                    assert forall|j: int| 0 <= j < i + 1 implies (#[trigger] sextet_of(
                        s.take(i + 1)[j],
                    )) is Some by {
                        if j < i {
                            assert(s.take(i + 1)[j] == s.take(i as int)[j]);
                        }
                    }
                }
                lemma_bytes_push(v, val);
            }
            let ghost n = v.len();
            buffer = (buffer << 6u32) | (val as u32);
            bits = bits + 6;
            if bits >= 8 {
                bits = bits - 8;
                let out = (buffer >> bits) as u8;
                proof {
                    let a = v[n - 1];
                    if n % 4 == 1 {
                        lemma_combine_first(a, val);
                        assert(bits == 4);
                        assert((1u32 << 4u32) - 1 == 15) by (bit_vector);
                    } else if n % 4 == 2 {
                        lemma_combine_second(a, val);
                        assert(bits == 2);
                        assert((1u32 << 2u32) - 1 == 3) by (bit_vector);
                    } else {
                        lemma_combine_third(a, val);
                        assert(bits == 0);
                        assert((1u32 << 0u32) - 1 == 0) by (bit_vector);
                    }
                    let k = bytes_of_sextets(v).len() as int;
                    assert(bytes_of_sextets(w)[k] == out);
                }
                decoded.push(out);
                buffer = buffer & ((1u32 << bits) - 1);
                proof {
                    assert(decoded@ =~= bytes_of_sextets(w));
                }
            } else {
                proof {
                    lemma_combine_third(0, val);
                }
            }
            i = i + 1;
        }
        proof {
            lemma_data_len(s, i as int);
            assert(s.take(data_len(s)) =~= s.take(i as int));
            lemma_first_invalid_none(s.take(i as int));
        }
        Ok(decoded)
    }
}

} // verus!
