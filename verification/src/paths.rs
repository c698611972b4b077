//! Paths as text: their file names and extensions, and whether they stay
//! inside the directory they are relative to.
//!
//! Paths are read with `'/'` between components, as on Unix: a `"."`
//! component other than a leading one and empty components stand for
//! nothing.

use vstd::prelude::*;
use crate::text::{chars_of, is_white_space, slice_chars, string_of, trim};

verus! {

/// Where the last `c` in `s` stands, or -1 where there is none.
pub open spec fn last_index(s: Seq<char>, c: char) -> int
    decreases s.len(),
{
    if s.len() == 0 {
        -1
    } else if s.last() == c {
        s.len() - 1
    } else {
        last_index(s.drop_last(), c)
    }
}

pub open spec fn is_dot(s: Seq<char>) -> bool {
    s.len() == 1 && s[0] == '.'
}

pub open spec fn is_dot_dot(s: Seq<char>) -> bool {
    s.len() == 2 && s[0] == '.' && s[1] == '.'
}

/// Where in a path its last component stands, where that names
/// something: none for a path that ends at the root, at the current
/// directory or at a parent directory.
pub open spec fn name_span(p: Seq<char>) -> Option<(int, int)>
    decreases p.len(),
{
    let i = last_index(p, '/');
    let seg = p.subrange(i + 1, p.len() as int);
    if seg.len() == 0 || is_dot(seg) {
        if i < 0 {
            None
        } else {
            proof {
                lemma_last_index(p, '/');
            }
            name_span(p.subrange(0, i))
        }
    } else if is_dot_dot(seg) {
        None
    } else {
        Some((i + 1, p.len() as int))
    }
}

/// The last component of a path, where it names something.
pub open spec fn file_name_of(p: Seq<char>) -> Option<Seq<char>> {
    match name_span(p) {
        Some((s, e)) => Some(p.subrange(s, e)),
        None => None,
    }
}

proof fn lemma_name_span(p: Seq<char>)
    ensures
        match name_span(p) {
            Some((s, e)) => 0 <= s <= e <= p.len(),
            None => true,
        },
    decreases p.len(),
{
    lemma_last_index(p, '/');
    let i = last_index(p, '/');
    let seg = p.subrange(i + 1, p.len() as int);
    if (seg.len() == 0 || is_dot(seg)) && i >= 0 {
        lemma_name_span(p.subrange(0, i));
    }
}

/// What follows the last `'.'` of a file name, unless that dot starts it.
pub open spec fn extension_of_name(name: Seq<char>) -> Option<Seq<char>> {
    let d = last_index(name, '.');
    if d > 0 {
        Some(name.subrange(d + 1, name.len() as int))
    } else {
        None
    }
}

/// The extension of the file a path names.
pub open spec fn path_extension(p: Seq<char>) -> Option<Seq<char>> {
    match file_name_of(p) {
        Some(name) => extension_of_name(name),
        None => None,
    }
}

/// A character with ASCII capitals made small.
pub open spec fn ascii_lower(c: char) -> char {
    if 'A' <= c <= 'Z' {
        ((c as u32) + 32) as char
    } else {
        c
    }
}

/// Equality that ignores the case of ASCII letters.
pub open spec fn eq_ignore_ascii_case(a: Seq<char>, b: Seq<char>) -> bool {
    a.len() == b.len() && forall|i: int| 0 <= i < a.len() ==> ascii_lower(a[i]) == ascii_lower(b[i])
}

pub proof fn lemma_last_index(s: Seq<char>, c: char)
    ensures
        -1 <= last_index(s, c) < s.len(),
        last_index(s, c) >= 0 ==> s[last_index(s, c)] == c,
        forall|j: int| last_index(s, c) < j < s.len() ==> s[j] != c,
    decreases s.len(),
{
    if s.len() > 0 && s.last() != c {
        lemma_last_index(s.drop_last(), c);
        assert forall|j: int| last_index(s, c) < j < s.len() implies s[j] != c by {
            if j < s.len() - 1 {
                assert(s[j] == s.drop_last()[j]);
            }
        }
    }
}

/// Where the last `c` in `v[..end]` stands, or -1.
fn find_last(v: &Vec<char>, end: usize, c: char) -> (i: i64)
    requires
        end <= v@.len(),
        v@.len() < i64::MAX,
    ensures
        i == last_index(v@.subrange(0, end as int), c),
{
    let mut e = end;
    while e > 0
        invariant
            e <= end <= v@.len(),
            v@.len() < i64::MAX,
            last_index(v@.subrange(0, e as int), c) == last_index(v@.subrange(0, end as int), c),
        decreases e,
    {
        if v[e - 1] == c {
            proof {
                assert(v@.subrange(0, e as int).last() == v@[e - 1]);
            }
            return (e - 1) as i64;
        }
        proof {
            assert(v@.subrange(0, e as int).drop_last() =~= v@.subrange(0, e - 1));
        }
        e = e - 1;
    }
    -1
}

/// Where the file name that the path `p[..end]` ends in stands.
fn file_name_range(p: &Vec<char>, end: usize) -> (r: Option<(usize, usize)>)
    requires
        end <= p@.len(),
        p@.len() < i64::MAX,
    ensures
        match r {
            Some((s, e)) => s <= e <= end && name_span(p@.subrange(0, end as int)) == Some(
                (s as int, e as int),
            ),
            None => name_span(p@.subrange(0, end as int)) is None,
        },
    decreases end,
{
    let ghost q = p@.subrange(0, end as int);
    let i = find_last(p, end, '/');
    proof {
        lemma_last_index(q, '/');
    }
    let start: usize = (i + 1) as usize;
    let len = end - start;
    let ghost seg = q.subrange(i + 1, q.len() as int);
    assert(seg =~= p@.subrange(start as int, end as int));
    if len == 0 || (len == 1 && p[start] == '.') {
        if i < 0 {
            None
        } else {
            assert(q.subrange(0, i as int) =~= p@.subrange(0, i as int));
            file_name_range(p, i as usize)
        }
    } else if len == 2 && p[start] == '.' && p[start + 1] == '.' {
        None
    } else {
        Some((start, end))
    }
}

/// The extension of the file that `path` names, if it has one.
pub fn extension(path: &str) -> (r: Option<Vec<char>>)
    requires
        path@.len() < i64::MAX,
    ensures
        match r {
            Some(e) => path_extension(path@) == Some(e@),
            None => path_extension(path@) is None,
        },
{
    let p = chars_of(path);
    proof {
        assert(p@.subrange(0, p@.len() as int) =~= p@);
    }
    match file_name_range(&p, p.len()) {
        None => None,
        Some((s, e)) => {
            let name = slice_chars(&p, s, e);
            assert(file_name_of(path@) == Some(name@));
            let d = find_last(&name, name.len(), '.');
            proof {
                assert(name@.subrange(0, name@.len() as int) =~= name@);
                lemma_last_index(name@, '.');
            }
            if d > 0 {
                Some(slice_chars(&name, (d + 1) as usize, name.len()))
            } else {
                None
            }
        },
    }
}

fn lower_ascii(c: char) -> (d: char)
    ensures
        d == ascii_lower(c),
{
    if 'A' <= c && c <= 'Z' {
        ((c as u8) + 32) as char
    } else {
        c
    }
}

/// Whether `a` and `b` are equal but for the case of ASCII letters.
pub fn equals_ignoring_ascii_case(a: &Vec<char>, b: &Vec<char>) -> (r: bool)
    ensures
        r == eq_ignore_ascii_case(a@, b@),
{
    if a.len() != b.len() {
        return false;
    }
    let mut i: usize = 0;
    while i < a.len()
        invariant
            a@.len() == b@.len(),
            0 <= i <= a@.len(),
            forall|j: int| 0 <= j < i ==> ascii_lower(a@[j]) == ascii_lower(b@[j]),
        decreases a@.len() - i,
    {
        if lower_ascii(a[i]) != lower_ascii(b[i]) {
            return false;
        }
        i = i + 1;
    }
    true
}

/// Whether the path names a file with the given extension, whatever the
/// case of its ASCII letters.
pub fn has_extension(path: &str, wanted: &Vec<char>) -> (r: bool)
    requires
        path@.len() < i64::MAX,
    ensures
        r == (path_extension(path@) is Some && eq_ignore_ascii_case(
            path_extension(path@)->0,
            wanted@,
        )),
{
    match extension(path) {
        Some(e) => equals_ignoring_ascii_case(&e, wanted),
        None => false,
    }
}

/// Whether a relative path stays where it is put: it is not blank, and
/// every component of it names something, with no root, no `"."` at its
/// start and no `".."` anywhere.
pub open spec fn is_safe_relative(p: Seq<char>) -> bool {
    &&& trim(p).len() > 0
    &&& !(p.len() > 0 && p[0] == '/')
    &&& !(p.len() > 0 && p[0] == '.' && (p.len() == 1 || p[1] == '/'))
    &&& !(exists|i: int|
        0 <= i && i + 2 <= p.len() && #[trigger] p[i] == '.' && p[i + 1] == '.' && (i == 0 || p[i
            - 1] == '/') && (i + 2 == p.len() || p[i + 2] == '/'))
}

/// Whether the path is a safe relative one.
pub fn safe_relative(path: &str) -> (r: bool)
    ensures
        r == is_safe_relative(path@),
{
    let p = chars_of(path);
    let n = p.len();
    let mut blank = true;
    let mut k: usize = 0;
    while k < n
        invariant
            n == p@.len(),
            p@ == path@,
            0 <= k <= n,
            blank == forall|j: int| 0 <= j < k ==> is_white_space(#[trigger] p@[j]),
        decreases n - k,
    {
        if !crate::text::is_whitespace(p[k]) {
            blank = false;
        }
        k = k + 1;
    }
    proof {
        crate::text::lemma_trim_empty(p@);
    }
    if blank {
        return false;
    }
    if p[0] == '/' {
        return false;
    }
    if p[0] == '.' && (n == 1 || p[1] == '/') {
        return false;
    }
    let mut i: usize = 0;
    while i < n
        invariant
            n == p@.len(),
            p@ == path@,
            0 <= i <= n,
            forall|j: int|
                0 <= j < i && j + 2 <= n ==> !(#[trigger] p@[j] == '.' && p@[j + 1] == '.' && (j
                    == 0 || p@[j - 1] == '/') && (j + 2 == n || p@[j + 2] == '/')),
        decreases n - i,
    {
        if i + 1 < n && p[i] == '.' && p[i + 1] == '.' && (i == 0 || p[i - 1] == '/') && (i + 2 == n || p[i
            + 2] == '/') {
            return false;
        }
        i = i + 1;
    }
    true
}

/// A path given the extension `png`, unless it has it already whatever its
/// case: the extension of the file it names replaced (anything after the
/// file name dropped with it), and a path that names no file left alone.
pub open spec fn png_path_of(p: Seq<char>) -> Seq<char> {
    if path_extension(p) is Some && eq_ignore_ascii_case(path_extension(p)->0, seq!['p', 'n', 'g']) {
        p
    } else {
        match name_span(p) {
            None => p,
            Some((s, e)) => {
                let d = last_index(p.subrange(s, e), '.');
                let stem_end = if d > 0 {
                    s + d
                } else {
                    e
                };
                p.subrange(0, stem_end) + seq!['.', 'p', 'n', 'g']
            },
        }
    }
}

/// The path of a PNG file for `path`.
pub fn png_path(path: &str) -> (r: String)
    requires
        path@.len() < i64::MAX,
    ensures
        r@ == png_path_of(path@),
{
    let png = vec!['p', 'n', 'g'];
    assert(png@ =~= seq!['p', 'n', 'g']);
    let p = chars_of(path);
    if has_extension(path, &png) {
        return string_of(p.as_slice());
    }
    proof {
        assert(p@.subrange(0, p@.len() as int) =~= p@);
    }
    match file_name_range(&p, p.len()) {
        None => string_of(p.as_slice()),
        Some((s, e)) => {
            let name = slice_chars(&p, s, e);
            let d = find_last(&name, name.len(), '.');
            proof {
                assert(name@.subrange(0, name@.len() as int) =~= name@);
                lemma_last_index(name@, '.');
            }
            let stem_end: usize = if d > 0 { s + d as usize } else { e };
            let mut out = slice_chars(&p, 0, stem_end);
            out.push('.');
            out.push('p');
            out.push('n');
            out.push('g');
            proof {
                assert(out@ =~= p@.subrange(0, stem_end as int) + seq!['.', 'p', 'n', 'g']);
            }
            string_of(out.as_slice())
        },
    }
}

} // verus!
