use vstd::prelude::*;
use crate::text_codec::{chars_of, string_from_chars};

verus! {

/// The decimal digit character for `d < 10`.
pub open spec fn digit_char(d: nat) -> char {
    (d + 48) as char
}

/// The decimal notation of `n`, without leading zeros.
pub open spec fn decimal(n: nat) -> Seq<char>
    decreases n,
{
    if n < 10 {
        seq![digit_char(n)]
    } else {
        decimal(n / 10).push(digit_char(n % 10))
    }
}

pub open spec fn decoded_tag() -> Seq<char> {
    seq!['-', 'd', 'e', 'c', 'o', 'd', 'e', 'd']
}

/// The name tried at `index` for a file with stem `stem` and extension `ext`:
/// `<stem>-decoded[(index)][.ext]`, the index shown from 1 on.
pub open spec fn decoded_name(stem: Seq<char>, ext: Seq<char>, index: nat) -> Seq<char> {
    let numbered = if index == 0 {
        decoded_tag()
    } else {
        decoded_tag() + seq!['('] + decimal(index) + seq![')']
    };
    stem + numbered + if ext.len() == 0 {
        Seq::<char>::empty()
    } else {
        seq!['.'] + ext
    }
}

/// The stem used when the input path has none.
pub open spec fn default_stem() -> Seq<char> {
    seq!['d', 'e', 'c', 'o', 'd', 'e', 'd']
}

/// The stem to use: the given one, else `decoded`.
pub open spec fn stem_or_default(file_stem: Option<&str>) -> Seq<char> {
    match file_stem {
        Some(s) => s@,
        None => default_stem(),
    }
}

/// The extension to use: the given one, else none.
pub open spec fn ext_or_default(extension: Option<&str>) -> Seq<char> {
    match extension {
        Some(s) => s@,
        None => Seq::empty(),
    }
}

/// The number that the decimal digits `s` spell.
pub open spec fn decimal_value(s: Seq<char>) -> int
    decreases s.len(),
{
    if s.len() == 0 {
        0
    } else {
        decimal_value(s.drop_last()) * 10 + (s.last() as int - 48)
    }
}

proof fn lemma_decimal_value(n: nat)
    ensures
        decimal_value(decimal(n)) == n,
    decreases n,
{
    if n < 10 {
        let d = decimal(n);
        assert(d.drop_last() =~= Seq::<char>::empty());
        assert(decimal_value(d.drop_last()) == 0);
        assert(d.last() == digit_char(n));
        assert(digit_char(n) as int == n + 48);
    } else {
        lemma_decimal_value(n / 10);
        let d = decimal(n);
        assert(d.drop_last() =~= decimal(n / 10));
        assert(d.last() == digit_char(n % 10));
        assert(digit_char(n % 10) as int == n % 10 + 48);
        assert(decimal_value(d) == decimal_value(decimal(n / 10)) * 10 + n % 10);
        assert((n / 10) * 10 + n % 10 == n);
    }
}

/// Different indices give different names, so a later run never picks the
/// name that an earlier run wrote.
pub proof fn law_names_distinct(stem: Seq<char>, ext: Seq<char>, i: nat, j: nat)
    requires
        i != j,
    ensures
        decoded_name(stem, ext, i) != decoded_name(stem, ext, j),
{
    let a = decoded_name(stem, ext, i);
    let b = decoded_name(stem, ext, j);
    if a == b {
        let tail = if ext.len() == 0 {
            Seq::<char>::empty()
        } else {
            seq!['.'] + ext
        };
        let p: int = stem.len() as int + 9;
        if i == 0 || j == 0 {
            let k = if i == 0 { j } else { i };
            assert(decoded_name(stem, ext, 0).len() == stem.len() + 8 + tail.len());
            assert(decoded_name(stem, ext, k).len() == stem.len() + 10 + decimal(k).len()
                + tail.len());
            assert(a.len() != b.len());
        } else {
            assert(a =~= stem + (decoded_tag() + seq!['('] + decimal(i) + seq![')']) + tail);
            assert(b =~= stem + (decoded_tag() + seq!['('] + decimal(j) + seq![')']) + tail);
            assert(a.len() == stem.len() + 10 + decimal(i).len() + tail.len());
            assert(b.len() == stem.len() + 10 + decimal(j).len() + tail.len());
            assert(decimal(i).len() == decimal(j).len());
            assert(a.subrange(p, p + decimal(i).len() as int) =~= decimal(i));
            assert(b.subrange(p, p + decimal(j).len() as int) =~= decimal(j));
            lemma_decimal_value(i);
            lemma_decimal_value(j);
        }
    }
}

/// `probe` may answer `answer` for a name with these characters.
pub open spec fn reported<F: Fn(&str) -> bool>(probe: F, name: Seq<char>, answer: bool) -> bool {
    exists|s: &str| s@ == name && #[trigger] probe.ensures((s,), answer)
}

fn decimal_exec(n: u32) -> (r: Vec<char>)
    ensures
        r@ == decimal(n as nat),
    decreases n,
{
    if n < 10 {
        let c = ((n as u8) + 48) as char;
        let r = vec![c];
        assert(r@ =~= decimal(n as nat));
        r
    } else {
        let mut r = decimal_exec(n / 10);
        let c = (((n % 10) as u8) + 48) as char;
        r.push(c);
        r
    }
}

fn append_chars(dst: &mut Vec<char>, src: &Vec<char>)
    ensures
        final(dst)@ == old(dst)@ + src@,
{
    let mut i: usize = 0;
    let ghost start = dst@;
    while i < src.len()
        invariant
            i <= src@.len(),
            dst@ =~= start + src@.take(i as int),
        decreases src@.len() - i,
    {
        dst.push(src[i]);
        i = i + 1;
    }
    assert(src@.take(i as int) =~= src@);
}

/// Path resolver that generates unique output file names.
pub struct PathResolver;

impl PathResolver {
    /// The file name tried at `index`: `<stem>-decoded[(index)][.ext]`.
    pub fn decoded_file_name(stem: &str, extension: &str, index: u32) -> (name: String)
        ensures
            name@ == decoded_name(stem@, extension@, index as nat),
    {
        let mut v = chars_of(stem);
        let tag = vec!['-', 'd', 'e', 'c', 'o', 'd', 'e', 'd'];
        assert(tag@ =~= decoded_tag());
        append_chars(&mut v, &tag);
        if index != 0 {
            v.push('(');
            let digits = decimal_exec(index);
            append_chars(&mut v, &digits);
            v.push(')');
        }
        let ext = chars_of(extension);
        if ext.len() != 0 {
            v.push('.');
            append_chars(&mut v, &ext);
        }
        proof {
            let numbered = if index == 0 {
                decoded_tag()
            } else {
                decoded_tag() + seq!['('] + decimal(index as nat) + seq![')']
            };
            let tail = if extension@.len() == 0 {
                Seq::<char>::empty()
            } else {
                seq!['.'] + extension@
            };
            assert(v@ =~= stem@ + numbered + tail);
        }
        string_from_chars(&v)
    }

    /// Generates a unique target file name of the form
    /// `<stem>-decoded[(index)].<ext>`: the first, by index, that `is_taken`
    /// reports free. A missing stem counts as `decoded`, a missing extension
    /// as none. `None` when every index up to `u32::MAX` is reported taken.
    pub fn generate_unique_path<F: Fn(&str) -> bool>(
        file_stem: Option<&str>,
        extension: Option<&str>,
        is_taken: F,
    ) -> (res: Option<String>)
        requires
            forall|s: &str| #[trigger] is_taken.requires((s,)),
        ensures
            res matches Some(name) ==> exists|i: nat|
                {
                    &&& i <= u32::MAX
                    &&& #[trigger] decoded_name(
                        stem_or_default(file_stem),
                        ext_or_default(extension),
                        i,
                    ) == name@
                    &&& reported(is_taken, name@, false)
                    &&& forall|j: nat|
                        j < i ==> reported(
                            is_taken,
                            #[trigger] decoded_name(
                                stem_or_default(file_stem),
                                ext_or_default(extension),
                                j,
                            ),
                            true,
                        )
                },
            res is None ==> forall|j: nat|
                j <= u32::MAX ==> reported(
                    is_taken,
                    #[trigger] decoded_name(
                        stem_or_default(file_stem),
                        ext_or_default(extension),
                        j,
                    ),
                    true,
                ),
    {
        let stem: &str = match file_stem {
            Some(s) => s,
            None => "decoded",
        };
        let ext: &str = match extension {
            Some(e) => e,
            None => "",
        };
        proof {
            reveal_strlit("decoded");
            reveal_strlit("");
            assert(stem@ =~= stem_or_default(file_stem));
            assert(ext@ =~= ext_or_default(extension));
        }
        let mut index: u32 = 0;
        loop
            invariant
                stem@ == stem_or_default(file_stem),
                ext@ == ext_or_default(extension),
                forall|s: &str| #[trigger] is_taken.requires((s,)),
                forall|j: nat|
                    j < index ==> reported(is_taken, #[trigger] decoded_name(stem@, ext@, j), true),
            decreases u32::MAX - index,
        {
            let candidate = Self::decoded_file_name(stem, ext, index);
            let taken = is_taken(candidate.as_str());
            proof {
                assert(reported(is_taken, candidate@, taken));
            }
            if !taken {
                proof {
                    assert(decoded_name(stem@, ext@, index as nat) == candidate@);
                }
                return Some(candidate);
            }
            if index == u32::MAX {
                return None;
            }
            index = index + 1;
        }
    }
}

} // verus!
