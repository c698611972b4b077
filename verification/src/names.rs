//! Names for layers, and file names derived from them that every common file
//! system accepts and that stay distinct where file systems ignore case.

use vstd::prelude::*;
use vstd::seq_lib::*;
use vstd::set_lib::*;
use crate::text::{
    chars_of, lowercase, to_lowercase, decimal, decimal_digits, digit_char, is_control, is_control_char, string_of, trim,
    trim_chars, trim_dots, trim_end_by,
};

verus! {

/// `"Layer "` followed by `n`: the name a new layer gets when nobody names it.
pub open spec fn layer_name(n: nat) -> Seq<char> {
    seq!['L', 'a', 'y', 'e', 'r', ' '] + decimal(n)
}

/// Name given to the `n`th layer when one is created without a name.
pub fn default_layer_name(n: usize) -> (s: String)
    ensures
        s@ == layer_name(n as nat),
{
    let mut v: Vec<char> = vec!['L', 'a', 'y', 'e', 'r', ' '];
    let digits = decimal_digits(n);
    let mut i: usize = 0;
    let ghost start = v@;
    while i < digits.len()
        invariant
            0 <= i <= digits@.len(),
            v@ == start + digits@.subrange(0, i as int),
        decreases digits@.len() - i,
    {
        v.push(digits[i]);
        i = i + 1;
        proof {
            assert(v@ =~= start + digits@.subrange(0, i as int));
        }
    }
    proof {
        assert(digits@.subrange(0, digits@.len() as int) =~= digits@);
        assert(start =~= seq!['L', 'a', 'y', 'e', 'r', ' ']);
    }
    string_of(v.as_slice())
}

/// Characters that Windows refuses in a file name, and that are worth
/// avoiding elsewhere too.
pub open spec fn is_reserved(c: char) -> bool {
    c == '/' || c == '\\' || c == ':' || c == '*' || c == '?' || c == '"' || c == '<' || c == '>'
        || c == '|'
}

/// A character as it may stand in a file name: reserved and control
/// characters become `'_'`.
pub open spec fn file_char(c: char) -> char {
    if is_reserved(c) || is_control_char(c) {
        '_'
    } else {
        c
    }
}

/// A layer name made safe to use as a file name: reserved and control
/// characters replaced, whitespace trimmed, and the trailing dots that
/// Windows refuses removed; `"layer_"` and the layer's position (from one)
/// where nothing usable is left.
pub open spec fn file_name(name: Seq<char>, index: nat) -> Seq<char> {
    let cleaned = trim(
        trim_end_by(trim(name.map_values(|c: char| file_char(c))), |c: char| c == '.'),
    );
    if cleaned.len() == 0 {
        seq!['l', 'a', 'y', 'e', 'r', '_'] + decimal(index + 1)
    } else {
        cleaned
    }
}

fn is_reserved_char(c: char) -> (b: bool)
    ensures
        b == is_reserved(c),
{
    c == '/' || c == '\\' || c == ':' || c == '*' || c == '?' || c == '"' || c == '<' || c == '>'
        || c == '|'
}

/// Appends the characters of `w` to `v`.
pub(crate) fn append_chars(v: &mut Vec<char>, w: &Vec<char>)
    ensures
        final(v)@ == old(v)@ + w@,
{
    let ghost start = v@;
    let mut i: usize = 0;
    while i < w.len()
        invariant
            0 <= i <= w@.len(),
            v@ == start + w@.subrange(0, i as int),
        decreases w@.len() - i,
    {
        v.push(w[i]);
        i = i + 1;
        proof {
            assert(v@ =~= start + w@.subrange(0, i as int));
        }
    }
    proof {
        assert(w@.subrange(0, w@.len() as int) =~= w@);
    }
}

/// Turns a layer name into one safe to use as a file name, falling back to
/// the layer's position when nothing usable is left.
pub fn file_name_from(layer_name: &str, index: usize) -> (s: String)
    requires
        index < usize::MAX,
    ensures
        s@ == file_name(layer_name@, index as nat),
{
    let chars = chars_of(layer_name);
    let mut mapped: Vec<char> = Vec::new();
    let mut i: usize = 0;
    while i < chars.len()
        invariant
            0 <= i <= chars@.len(),
            mapped@ == chars@.subrange(0, i as int).map_values(|c: char| file_char(c)),
        decreases chars@.len() - i,
    {
        let c = chars[i];
        let d = if is_reserved_char(c) || is_control(c) { '_' } else { c };
        mapped.push(d);
        i = i + 1;
        proof {
            assert(mapped@ =~= chars@.subrange(0, i as int).map_values(|c: char| file_char(c)));
        }
    }
    proof {
        assert(chars@.subrange(0, chars@.len() as int) =~= chars@);
    }
    let cleaned = trim_chars(&trim_dots(&trim_chars(&mapped)));
    if cleaned.len() == 0 {
        let mut v: Vec<char> = vec!['l', 'a', 'y', 'e', 'r', '_'];
        let ghost start = v@;
        let digits = decimal_digits(index + 1);
        append_chars(&mut v, &digits);
        proof {
            assert(start =~= seq!['l', 'a', 'y', 'e', 'r', '_']);
        }
        string_of(v.as_slice())
    } else {
        string_of(cleaned.as_slice())
    }
}

/// The texts of the names in `taken`.
pub open spec fn name_keys(taken: Seq<String>) -> Seq<Seq<char>> {
    taken.map_values(|s: String| s@)
}

/// `base`, the separator `sep` and `k` in decimal.
pub open spec fn suffixed(base: Seq<char>, sep: char, k: nat) -> Seq<char> {
    base + seq![sep] + decimal(k)
}

/// The largest suffix tried: suffixes are counted as 32-bit integers.
pub const MAX_SUFFIX: usize = 0x7fff_ffff;

/// Whether `k` is the first number from two for which the lowercase form
/// of `base` with the suffix `_k` is not among `keys`.
pub open spec fn is_first_free_name(keys: Seq<Seq<char>>, base: Seq<char>, k: nat) -> bool {
    &&& k >= 2
    &&& !keys.contains(lowercase(suffixed(base, '_', k)))
    &&& forall|j: nat| 2 <= j < k ==> keys.contains(lowercase(#[trigger] suffixed(base, '_', j)))
}

/// Whether `k` is the first number from two whose suffixed `key` is not
/// among `keys`.
pub open spec fn is_first_free(keys: Seq<Seq<char>>, key: Seq<char>, sep: char, k: nat) -> bool {
    &&& k >= 2
    &&& !keys.contains(suffixed(key, sep, k))
    &&& forall|j: nat| 2 <= j < k ==> keys.contains(#[trigger] suffixed(key, sep, j))
}

proof fn lemma_decimal_short(n: nat)
    ensures
        decimal(n).len() >= 1,
        n < 10 <==> decimal(n).len() == 1,
    decreases n,
{
    if n >= 10 {
        lemma_decimal_short(n / 10);
    }
}

pub(crate) proof fn lemma_decimal_injective(a: nat, b: nat)
    requires
        decimal(a) == decimal(b),
    ensures
        a == b,
    decreases a,
{
    lemma_decimal_short(a);
    lemma_decimal_short(b);
    if a < 10 {
        assert(decimal(a)[0] == digit_char(a));
        assert(decimal(b)[0] == digit_char(b));
    } else {
        assert(decimal(a).drop_last() =~= decimal(a / 10));
        assert(decimal(b).drop_last() =~= decimal(b / 10));
        assert(decimal(a).last() == digit_char(a % 10));
        assert(decimal(b).last() == digit_char(b % 10));
        lemma_decimal_injective(a / 10, b / 10);
    }
}

proof fn lemma_suffixed_injective(key: Seq<char>, sep: char, j: nat, k: nat)
    requires
        suffixed(key, sep, j) == suffixed(key, sep, k),
    ensures
        j == k,
{
    let n = key.len() + 1;
    assert(suffixed(key, sep, j).subrange(n as int, suffixed(key, sep, j).len() as int) =~= decimal(j));
    assert(suffixed(key, sep, k).subrange(n as int, suffixed(key, sep, k).len() as int) =~= decimal(k));
    lemma_decimal_injective(j, k);
}

spec fn suffixes_up_to(key: Seq<char>, sep: char, k: nat) -> Set<Seq<char>>
    decreases k,
{
    if k < 2 {
        Set::empty()
    } else {
        suffixes_up_to(key, sep, (k - 1) as nat).insert(suffixed(key, sep, k))
    }
}

proof fn lemma_suffixes_up_to(key: Seq<char>, sep: char, k: nat)
    ensures
        suffixes_up_to(key, sep, k).finite(),
        k >= 1 ==> suffixes_up_to(key, sep, k).len() == k - 1,
        forall|s: Seq<char>|
            #[trigger] suffixes_up_to(key, sep, k).contains(s) ==> exists|j: nat|
                2 <= j <= k && s == suffixed(key, sep, j),
    decreases k,
{
    if k >= 2 {
        lemma_suffixes_up_to(key, sep, (k - 1) as nat);
        if suffixes_up_to(key, sep, (k - 1) as nat).contains(suffixed(key, sep, k)) {
            let j = choose|j: nat| 2 <= j <= k - 1 && suffixed(key, sep, k) == suffixed(key, sep, j);
            lemma_suffixed_injective(key, sep, j, k);
        }
    }
}

/// There are no more suffixed keys among `keys` than `keys` has entries.
pub proof fn lemma_suffixes_bounded(keys: Seq<Seq<char>>, key: Seq<char>, sep: char, k: nat)
    requires
        k >= 1,
        forall|j: nat| 2 <= j <= k ==> keys.contains(#[trigger] suffixed(key, sep, j)),
    ensures
        k - 1 <= keys.len(),
{
    lemma_suffixes_up_to(key, sep, k);
    let s = suffixes_up_to(key, sep, k);
    assert forall|x: Seq<char>| s.contains(x) implies keys.to_set().contains(x) by {
        let j = choose|j: nat| 2 <= j <= k && x == suffixed(key, sep, j);
        assert(keys.contains(suffixed(key, sep, j)));
    }
    lemma_len_subset(s, keys.to_set());
    keys.lemma_cardinality_of_set();
}

/// Whether `key` is the text of one of the names in `taken`.
fn contains_name(taken: &Vec<String>, key: &String) -> (b: bool)
    ensures
        b == name_keys(taken@).contains(key@),
{
    let mut i: usize = 0;
    while i < taken.len()
        invariant
            0 <= i <= taken@.len(),
            forall|j: int| 0 <= j < i ==> taken@[j]@ != key@,
        decreases taken@.len() - i,
    {
        if taken[i] == *key {
            proof {
                assert(name_keys(taken@)[i as int] == key@);
            }
            return true;
        }
        i = i + 1;
    }
    proof {
        if name_keys(taken@).contains(key@) {
            let j = choose|j: int| 0 <= j < name_keys(taken@).len() && name_keys(taken@)[j] == key@;
            assert(taken@[j]@ == key@);
        }
    }
    false
}

/// `base`, an underscore and `k`.
pub(crate) fn with_suffix(base: &Vec<char>, sep: char, k: usize) -> (s: String)
    ensures
        s@ == suffixed(base@, sep, k as nat),
{
    let mut v: Vec<char> = Vec::new();
    append_chars(&mut v, base);
    v.push(sep);
    let digits = decimal_digits(k);
    append_chars(&mut v, &digits);
    proof {
        assert(v@ =~= suffixed(base@, sep, k as nat));
    }
    string_of(v.as_slice())
}

/// Keeps exported file names distinct, so two layers that share a name do
/// not overwrite each other: where the lowercase form of a layer's file name
/// is taken already, `_2`, `_3` and so on are tried in turn, until the
/// lowercase form of the suffixed name is free. `taken` holds the lowercase
/// forms of the names handed out, and gains the new one. Suffixes run up to
/// [`MAX_SUFFIX`]; where every one of them is taken, there is no name to
/// give and `None` comes back with `taken` as it was.
pub fn unique_file_name(taken: &mut Vec<String>, layer_name: &str, index: usize) -> (r: Option<
    String,
>)
    requires
        index < usize::MAX,
        old(taken)@.len() < usize::MAX,
    ensures
        ({
            let base = file_name(layer_name@, index as nat);
            let keys = name_keys(old(taken)@);
            &&& !keys.contains(lowercase(base)) ==> (r matches Some(s) && s@ == base)
            &&& keys.contains(lowercase(base)) ==> match r {
                Some(s) => exists|k: nat|
                    k <= MAX_SUFFIX && #[trigger] is_first_free_name(keys, base, k) && s@ == suffixed(
                        base,
                        '_',
                        k,
                    ),
                None => forall|k: nat|
                    2 <= k <= MAX_SUFFIX ==> keys.contains(lowercase(#[trigger] suffixed(base, '_', k))),
            }
            &&& match r {
                Some(s) => name_keys(final(taken)@) == keys.push(lowercase(s@)) && !keys.contains(
                    lowercase(s@),
                ),
                None => final(taken)@ == old(taken)@,
            }
        }),
{
    let base = file_name_from(layer_name, index);
    let key = to_lowercase(base.as_str());
    let ghost keys = name_keys(taken@);
    if !contains_name(taken, &key) {
        let ghost kv = key@;
        taken.push(key);
        proof {
            assert(name_keys(taken@) =~= keys.push(kv));
        }
        return Some(base);
    }
    let base_chars = chars_of(base.as_str());
    let mut k: usize = 2;
    while k <= MAX_SUFFIX
        invariant
            keys == name_keys(taken@),
            taken@ == old(taken)@,
            keys.len() < usize::MAX,
            base_chars@ == file_name(layer_name@, index as nat),
            keys.contains(lowercase(base_chars@)),
            2 <= k <= MAX_SUFFIX + 1,
            forall|j: nat| 2 <= j < k ==> keys.contains(lowercase(#[trigger] suffixed(base_chars@, '_', j))),
        decreases MAX_SUFFIX + 1 - k,
    {
        let candidate = with_suffix(&base_chars, '_', k);
        let candidate_key = to_lowercase(candidate.as_str());
        if !contains_name(taken, &candidate_key) {
            let ghost kv = candidate_key@;
            taken.push(candidate_key);
            proof {
                assert(name_keys(taken@) =~= keys.push(kv));
                assert(is_first_free_name(keys, base_chars@, k as nat));
            }
            return Some(candidate);
        }
        k = k + 1;
    }
    None
}

} // verus!
