//! Characters and strings: whitespace, trimming, case, decimal digits.

use vstd::prelude::*;
use vstd::string::StrSliceExecFns;

verus! {

/// Unicode's `White_Space` property, which `char::is_whitespace` tests.
pub open spec fn is_white_space(c: char) -> bool {
    let u = c as u32;
    (0x9 <= u <= 0xd) || u == 0x20 || u == 0x85 || u == 0xa0 || u == 0x1680 || (0x2000 <= u
        <= 0x200a) || u == 0x2028 || u == 0x2029 || u == 0x202f || u == 0x205f || u == 0x3000
}

/// Whether a character is whitespace, as `char::is_whitespace` decides.
pub fn is_whitespace(c: char) -> (b: bool)
    ensures
        b == is_white_space(c),
{
    let u = c as u32;
    (0x9 <= u && u <= 0xd) || u == 0x20 || u == 0x85 || u == 0xa0 || u == 0x1680 || (0x2000 <= u
        && u <= 0x200a) || u == 0x2028 || u == 0x2029 || u == 0x202f || u == 0x205f || u == 0x3000
}

/// Unicode's general category `Cc`, which `char::is_control` tests.
pub open spec fn is_control_char(c: char) -> bool {
    let u = c as u32;
    u <= 0x1f || (0x7f <= u <= 0x9f)
}

/// Whether a character is a control character, as `char::is_control`
/// decides.
pub fn is_control(c: char) -> (b: bool)
    ensures
        b == is_control_char(c),
{
    let u = c as u32;
    u <= 0x1f || (0x7f <= u && u <= 0x9f)
}

/// `s` without the characters at its start for which `drop` holds.
pub open spec fn trim_start_by(s: Seq<char>, drop: spec_fn(char) -> bool) -> Seq<char>
    decreases s.len(),
{
    if s.len() > 0 && drop(s[0]) {
        trim_start_by(s.drop_first(), drop)
    } else {
        s
    }
}

/// `s` without the characters at its end for which `drop` holds.
pub open spec fn trim_end_by(s: Seq<char>, drop: spec_fn(char) -> bool) -> Seq<char>
    decreases s.len(),
{
    if s.len() > 0 && drop(s.last()) {
        trim_end_by(s.drop_last(), drop)
    } else {
        s
    }
}

/// `s` without whitespace at either end, as `str::trim` gives it.
pub open spec fn trim(s: Seq<char>) -> Seq<char> {
    trim_end_by(trim_start_by(s, |c: char| is_white_space(c)), |c: char| is_white_space(c))
}

/// The characters of a string.
pub fn chars_of(s: &str) -> (v: Vec<char>)
    ensures
        v@ == s@,
{
    let n = s.unicode_len();
    let mut v: Vec<char> = Vec::new();
    let mut i: usize = 0;
    while i < n
        invariant
            n == s@.len(),
            0 <= i <= n,
            v@ == s@.subrange(0, i as int),
        decreases n - i,
    {
        let c = s.get_char(i);
        v.push(c);
        i = i + 1;
        proof {
            assert(v@ =~= s@.subrange(0, i as int));
        }
    }
    proof {
        assert(v@ =~= s@);
    }
    v
}

/// Appends a character to a string: `String::push`.
#[verifier::external_body]
fn push_char(s: &mut String, c: char)
    ensures
        final(s)@ == old(s)@.push(c),
{
    s.push(c);
}

/// A string holding the given characters.
pub fn string_of(chars: &[char]) -> (s: String)
    ensures
        s@ == chars@,
{
    let mut s = String::new();
    let mut i: usize = 0;
    while i < chars.len()
        invariant
            0 <= i <= chars@.len(),
            s@ == chars@.subrange(0, i as int),
        decreases chars@.len() - i,
    {
        push_char(&mut s, chars[i]);
        i = i + 1;
        proof {
            assert(s@ =~= chars@.subrange(0, i as int));
        }
    }
    proof {
        assert(s@ =~= chars@);
    }
    s
}

/// The characters from `start` to `end` of `v`.
pub fn slice_chars(v: &Vec<char>, start: usize, end: usize) -> (r: Vec<char>)
    requires
        start <= end <= v@.len(),
    ensures
        r@ == v@.subrange(start as int, end as int),
{
    let mut r: Vec<char> = Vec::new();
    let mut i = start;
    while i < end
        invariant
            start <= i <= end <= v@.len(),
            r@ == v@.subrange(start as int, i as int),
        decreases end - i,
    {
        r.push(v[i]);
        i = i + 1;
        proof {
            assert(r@ =~= v@.subrange(start as int, i as int));
        }
    }
    r
}

pub(crate) proof fn lemma_trim_start_skip(s: Seq<char>, drop: spec_fn(char) -> bool, i: int)
    requires
        0 <= i <= s.len(),
        forall|j: int| 0 <= j < i ==> drop(#[trigger] s[j]),
    ensures
        trim_start_by(s, drop) == trim_start_by(s.subrange(i, s.len() as int), drop),
    decreases i,
{
    if i > 0 {
        assert(s.drop_first().subrange(i - 1, s.drop_first().len() as int) =~= s.subrange(
            i,
            s.len() as int,
        ));
        lemma_trim_start_skip(s.drop_first(), drop, i - 1);
    } else {
        assert(s.subrange(0, s.len() as int) =~= s);
    }
}

pub(crate) proof fn lemma_trim_end_skip(s: Seq<char>, drop: spec_fn(char) -> bool, e: int)
    requires
        0 <= e <= s.len(),
        forall|j: int| e <= j < s.len() ==> drop(#[trigger] s[j]),
    ensures
        trim_end_by(s, drop) == trim_end_by(s.subrange(0, e), drop),
    decreases s.len() - e,
{
    if e < s.len() {
        assert(s.drop_last().subrange(0, e) =~= s.subrange(0, e));
        lemma_trim_end_skip(s.drop_last(), drop, e);
    } else {
        assert(s.subrange(0, e) =~= s);
    }
}

pub(crate) proof fn lemma_trim_start_first(s: Seq<char>, drop: spec_fn(char) -> bool)
    ensures
        trim_start_by(s, drop).len() == 0 <==> forall|j: int| 0 <= j < s.len() ==> drop(#[trigger] s[j]),
        trim_start_by(s, drop).len() > 0 ==> !drop(trim_start_by(s, drop)[0]),
    decreases s.len(),
{
    if s.len() > 0 && drop(s[0]) {
        lemma_trim_start_first(s.drop_first(), drop);
        if trim_start_by(s, drop).len() == 0 {
            assert forall|j: int| 0 <= j < s.len() implies drop(#[trigger] s[j]) by {
                if j > 0 {
                    assert(s[j] == s.drop_first()[j - 1]);
                }
            }
        }
    }
}

pub(crate) proof fn lemma_trim_end_keeps_first(s: Seq<char>, drop: spec_fn(char) -> bool)
    requires
        s.len() > 0,
        !drop(s[0]),
    ensures
        trim_end_by(s, drop).len() > 0,
    decreases s.len(),
{
    if drop(s.last()) {
        lemma_trim_end_keeps_first(s.drop_last(), drop);
    }
}

/// A string trims to nothing exactly when it is all whitespace.
pub proof fn lemma_trim_empty(s: Seq<char>)
    ensures
        trim(s).len() == 0 <==> forall|j: int| 0 <= j < s.len() ==> is_white_space(#[trigger] s[j]),
{
    let ws = |c: char| is_white_space(c);
    lemma_trim_start_first(s, ws);
    let t = trim_start_by(s, ws);
    if t.len() > 0 {
        lemma_trim_end_keeps_first(t, ws);
    }
}

/// Where the characters to trim from the start of `v` end.
pub(crate) fn trim_start_index(v: &Vec<char>, hash: bool) -> (i: usize)
    ensures
        i <= v@.len(),
        hash ==> trim_start_by(v@, |c: char| c == '#') == v@.subrange(i as int, v@.len() as int),
        !hash ==> trim_start_by(v@, |c: char| is_white_space(c)) == v@.subrange(
            i as int,
            v@.len() as int,
        ),
{
    let ghost drop = if hash {
        |c: char| c == '#'
    } else {
        |c: char| is_white_space(c)
    };
    let mut i: usize = 0;
    while i < v.len()
        invariant
            0 <= i <= v@.len(),
            drop == (if hash {
                |c: char| c == '#'
            } else {
                |c: char| is_white_space(c)
            }),
            forall|j: int| 0 <= j < i ==> drop(#[trigger] v@[j]),
        ensures
            0 <= i <= v@.len(),
            forall|j: int| 0 <= j < i ==> drop(#[trigger] v@[j]),
            i < v@.len() ==> !drop(v@[i as int]),
        decreases v@.len() - i,
    {
        let c = v[i];
        let skip = if hash { c == '#' } else { is_whitespace(c) };
        if !skip {
            break;
        }
        i = i + 1;
    }
    proof {
        lemma_trim_start_skip(v@, drop, i as int);
        let rest = v@.subrange(i as int, v@.len() as int);
        if rest.len() > 0 {
            assert(!drop(rest[0]));
        }
    }
    i
}

/// Where the characters to keep of `v[..end]` end, once `drop` is trimmed
/// from its end.
pub(crate) fn trim_end_index(v: &Vec<char>, end: usize, dot: bool) -> (e: usize)
    requires
        end <= v@.len(),
    ensures
        e <= end,
        dot ==> trim_end_by(v@.subrange(0, end as int), |c: char| c == '.') == v@.subrange(
            0,
            e as int,
        ),
        !dot ==> trim_end_by(v@.subrange(0, end as int), |c: char| is_white_space(c))
            == v@.subrange(0, e as int),
{
    let ghost drop = if dot {
        |c: char| c == '.'
    } else {
        |c: char| is_white_space(c)
    };
    let ghost s = v@.subrange(0, end as int);
    let mut e = end;
    while e > 0
        invariant
            0 <= e <= end <= v@.len(),
            s == v@.subrange(0, end as int),
            drop == (if dot {
                |c: char| c == '.'
            } else {
                |c: char| is_white_space(c)
            }),
            forall|j: int| e <= j < end ==> drop(#[trigger] s[j]),
        ensures
            0 <= e <= end,
            forall|j: int| e <= j < end ==> drop(#[trigger] s[j]),
            e > 0 ==> !drop(s[e - 1]),
        decreases e,
    {
        let c = v[e - 1];
        let skip = if dot { c == '.' } else { is_whitespace(c) };
        if !skip {
            break;
        }
        e = e - 1;
    }
    proof {
        lemma_trim_end_skip(s, drop, e as int);
        assert(s.subrange(0, e as int) =~= v@.subrange(0, e as int));
        let kept = s.subrange(0, e as int);
        if kept.len() > 0 {
            assert(kept.last() == s[e - 1]);
        }
    }
    e
}

/// `v` without whitespace at either end.
pub fn trim_chars(v: &Vec<char>) -> (r: Vec<char>)
    ensures
        r@ == trim(v@),
{
    let start = trim_start_index(v, false);
    let rest = slice_chars(v, start, v.len());
    let end = trim_end_index(&rest, rest.len(), false);
    proof {
        assert(rest@.subrange(0, rest@.len() as int) =~= rest@);
    }
    slice_chars(&rest, 0, end)
}

/// `v` without any `'#'` at its start.
pub fn trim_hashes(v: &Vec<char>) -> (r: Vec<char>)
    ensures
        r@ == trim_start_by(v@, |c: char| c == '#'),
{
    let start = trim_start_index(v, true);
    slice_chars(v, start, v.len())
}

/// `v` without any `'.'` at its end.
pub fn trim_dots(v: &Vec<char>) -> (r: Vec<char>)
    ensures
        r@ == trim_end_by(v@, |c: char| c == '.'),
{
    let end = trim_end_index(v, v.len(), true);
    proof {
        assert(v@.subrange(0, v@.len() as int) =~= v@);
    }
    slice_chars(v, 0, end)
}

/// The decimal digits of `n`, most significant first, without leading
/// zeros (zero is `"0"`).
pub open spec fn decimal(n: nat) -> Seq<char>
    decreases n,
{
    if n < 10 {
        seq![digit_char(n)]
    } else {
        decimal(n / 10).push(digit_char(n % 10))
    }
}

pub open spec fn digit_char(d: nat) -> char {
    (('0' as u32) + d) as char
}

/// `n` written out in decimal.
pub fn decimal_digits(n: usize) -> (v: Vec<char>)
    ensures
        v@ == decimal(n as nat),
    decreases n,
{
    if n < 10 {
        let c = char_of_digit(n as u32);
        vec![c]
    } else {
        let mut v = decimal_digits(n / 10);
        v.push(char_of_digit((n % 10) as u32));
        v
    }
}

fn char_of_digit(d: u32) -> (c: char)
    requires
        d < 10,
    ensures
        c == digit_char(d as nat),
{
    if d == 0 { '0' }
    else if d == 1 { '1' }
    else if d == 2 { '2' }
    else if d == 3 { '3' }
    else if d == 4 { '4' }
    else if d == 5 { '5' }
    else if d == 6 { '6' }
    else if d == 7 { '7' }
    else if d == 8 { '8' }
    else { '9' }
}

/// The number that decimal digits write, most significant first.
pub open spec fn decimal_value(s: Seq<char>) -> int
    decreases s.len(),
{
    if s.len() == 0 {
        0
    } else {
        decimal_value(s.drop_last()) * 10 + (s.last() as int - '0' as int)
    }
}

pub open spec fn is_digit(c: char) -> bool {
    '0' <= c <= '9'
}

/// The digits of an unsigned number, after the one `'+'` it may start with.
pub open spec fn unsigned_digits(s: Seq<char>) -> Seq<char> {
    if s.len() > 0 && s[0] == '+' {
        s.drop_first()
    } else {
        s
    }
}

/// The unsigned number at most `max` that `s` writes, as `str::parse`
/// reads one: an optional `'+'`, then one or more decimal digits, nothing
/// else.
pub open spec fn parsed_unsigned(s: Seq<char>, max: int) -> Option<int> {
    let d = unsigned_digits(s);
    if d.len() > 0 && (forall|i: int| 0 <= i < d.len() ==> is_digit(#[trigger] d[i]))
        && decimal_value(d) <= max {
        Some(decimal_value(d))
    } else {
        None
    }
}

proof fn lemma_decimal_value_grows(s: Seq<char>, i: int)
    requires
        0 <= i <= s.len(),
        forall|j: int| 0 <= j < s.len() ==> is_digit(#[trigger] s[j]),
    ensures
        0 <= decimal_value(s.subrange(0, i)) <= decimal_value(s),
    decreases s.len() - i,
{
    if i < s.len() {
        lemma_decimal_value_grows(s, i + 1);
        let t = s.subrange(0, i + 1);
        assert(t.drop_last() =~= s.subrange(0, i));
        assert(is_digit(s[i]));
        assert(t.last() == s[i]);
    } else {
        assert(s.subrange(0, i) =~= s);
        lemma_decimal_value_nonneg(s);
    }
}

proof fn lemma_decimal_value_nonneg(s: Seq<char>)
    requires
        forall|j: int| 0 <= j < s.len() ==> is_digit(#[trigger] s[j]),
    ensures
        decimal_value(s) >= 0,
    decreases s.len(),
{
    if s.len() > 0 {
        assert forall|j: int| 0 <= j < s.drop_last().len() implies is_digit(
            #[trigger] s.drop_last()[j],
        ) by {
            assert(s.drop_last()[j] == s[j]);
        }
        lemma_decimal_value_nonneg(s.drop_last());
        assert(is_digit(s[s.len() - 1]));
    }
}

/// Reads an unsigned number no larger than `max`.
pub fn parse_unsigned(text: &str, max: u32) -> (r: Option<u32>)
    ensures
        match r {
            Some(v) => parsed_unsigned(text@, max as int) == Some(v as int),
            None => parsed_unsigned(text@, max as int) is None,
        },
{
    let chars = chars_of(text);
    let n = chars.len();
    let start: usize = if n > 0 && chars[0] == '+' { 1 } else { 0 };
    let ghost d = unsigned_digits(text@);
    assert(d =~= chars@.subrange(start as int, n as int));
    if start == n {
        return None;
    }
    let mut v: u64 = 0;
    let mut i: usize = start;
    while i < n
        invariant
            chars@ == text@,
            n == chars@.len(),
            start <= i <= n,
            start <= 1,
            d == chars@.subrange(start as int, n as int),
            d == unsigned_digits(text@),
            v == decimal_value(chars@.subrange(start as int, i as int)),
            v <= max,
            forall|j: int| start <= j < i ==> is_digit(#[trigger] chars@[j]),
        decreases n - i,
    {
        let c = chars[i];
        if !('0' <= c && c <= '9') {
            proof {
                assert(d[i - start] == c);
            }
            return None;
        }
        let ghost prefix = chars@.subrange(start as int, i + 1);
        assert(prefix.drop_last() =~= chars@.subrange(start as int, i as int));
        v = v * 10 + ((c as u32) - ('0' as u32)) as u64;
        i = i + 1;
        if v > max as u64 {
            proof {
                if forall|j: int| 0 <= j < d.len() ==> is_digit(#[trigger] d[j]) {
                    lemma_decimal_value_grows(d, i - start);
                    assert(d.subrange(0, i - start) =~= chars@.subrange(start as int, i as int));
                }
            }
            return None;
        }
    }
    proof {
        assert(chars@.subrange(start as int, n as int) =~= d);
        assert forall|j: int| 0 <= j < d.len() implies is_digit(#[trigger] d[j]) by {
            assert(d[j] == chars@[j + start]);
        }
    }
    Some(v as u32)
}

/// The lowercase form of a string, as `str::to_lowercase` gives it.
pub uninterp spec fn lowercase(s: Seq<char>) -> Seq<char>;

/// `str::to_lowercase`: the string mapped through Unicode's lowercase
/// mapping. Its result is named by `lowercase`; nothing more is claimed of
/// it.
#[verifier::external_body]
pub(crate) fn to_lowercase(s: &str) -> (r: String)
    ensures
        r@ == lowercase(s@),
{
    s.to_lowercase()
}

/// The characters equal to `c`.
pub open spec fn is_char(c: char) -> spec_fn(char) -> bool {
    |x: char| x == c
}

/// `v` without any `c` at either end.
pub fn trim_char_ends(v: &Vec<char>, c: char) -> (r: Vec<char>)
    ensures
        r@ == trim_end_by(trim_start_by(v@, is_char(c)), is_char(c)),
{
    let ghost drop = is_char(c);
    let mut i: usize = 0;
    while i < v.len()
        invariant
            0 <= i <= v@.len(),
            drop == is_char(c),
            forall|j: int| 0 <= j < i ==> drop(#[trigger] v@[j]),
        ensures
            0 <= i <= v@.len(),
            forall|j: int| 0 <= j < i ==> drop(#[trigger] v@[j]),
            i < v@.len() ==> !drop(v@[i as int]),
        decreases v@.len() - i,
    {
        if v[i] != c {
            break;
        }
        i = i + 1;
    }
    proof {
        lemma_trim_start_skip(v@, drop, i as int);
    }
    let rest = slice_chars(v, i, v.len());
    let ghost s = rest@;
    let mut e = rest.len();
    while e > 0
        invariant
            0 <= e <= s.len(),
            s == rest@,
            drop == is_char(c),
            forall|j: int| e <= j < s.len() ==> drop(#[trigger] s[j]),
        ensures
            0 <= e <= s.len(),
            forall|j: int| e <= j < s.len() ==> drop(#[trigger] s[j]),
            e > 0 ==> !drop(s[e - 1]),
        decreases e,
    {
        if rest[e - 1] != c {
            break;
        }
        e = e - 1;
    }
    proof {
        lemma_trim_end_skip(s, drop, e as int);
        let kept = s.subrange(0, e as int);
        if kept.len() > 0 {
            assert(kept.last() == s[e - 1]);
        }
        let tail = v@.subrange(i as int, v@.len() as int);
        if tail.len() > 0 {
            assert(tail[0] == v@[i as int]);
        }
    }
    slice_chars(&rest, 0, e)
}

} // verus!
