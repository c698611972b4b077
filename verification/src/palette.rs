//! The palette: the colors offered for drawing, without repeats, and the
//! GIMP palette file format it is saved in.

use vstd::prelude::*;
use crate::color::Color;
use crate::image::Image;
use crate::paths::{eq_ignore_ascii_case, has_extension, path_extension};
use crate::text::{
    decimal, decimal_value, is_digit, is_white_space, parse_unsigned, parsed_unsigned, trim,
    trim_end_by, trim_start_by,
};

verus! {

/// The most colors a palette read from a file or an image holds.
pub const MAX_PALETTE: usize = 200;

/// The colors a new palette starts with: black, white, and twelve hues
/// around the color wheel.
pub open spec fn default_colors() -> Seq<Color> {
    seq![
        Color { r: 0, g: 0, b: 0, a: 255 },
        Color { r: 255, g: 255, b: 255, a: 255 },
        Color { r: 255, g: 0, b: 0, a: 255 },
        Color { r: 255, g: 127, b: 0, a: 255 },
        Color { r: 255, g: 255, b: 0, a: 255 },
        Color { r: 127, g: 255, b: 0, a: 255 },
        Color { r: 0, g: 255, b: 0, a: 255 },
        Color { r: 0, g: 255, b: 127, a: 255 },
        Color { r: 0, g: 255, b: 255, a: 255 },
        Color { r: 0, g: 127, b: 255, a: 255 },
        Color { r: 0, g: 0, b: 255, a: 255 },
        Color { r: 127, g: 0, b: 255, a: 255 },
        Color { r: 255, g: 0, b: 255, a: 255 },
        Color { r: 255, g: 0, b: 127, a: 255 },
    ]
}

/// The extension of GIMP palette files.
pub open spec fn gpl_extension() -> Seq<char> {
    seq!['g', 'p', 'l']
}

/// Whether a path names a GIMP palette, as opposed to an image to take the
/// colors of: its extension is `gpl`, in any case.
pub fn is_gpl_path(path: &str) -> (b: bool)
    requires
        path@.len() < i64::MAX,
    ensures
        b == (path_extension(path@) is Some && eq_ignore_ascii_case(
            path_extension(path@)->0,
            gpl_extension(),
        )),
{
    let ext = vec!['g', 'p', 'l'];
    proof {
        assert(ext@ =~= gpl_extension());
    }
    has_extension(path, &ext)
}

/// The first `limit` distinct colors of `colors`, in the order they first
/// occur after `acc`.
pub open spec fn distinct_colors(colors: Seq<Color>, acc: Seq<Color>, limit: int) -> Seq<Color>
    decreases colors.len(),
{
    if colors.len() == 0 || acc.len() >= limit {
        acc
    } else {
        let next = if acc.contains(colors[0]) {
            acc
        } else {
            acc.push(colors[0])
        };
        distinct_colors(colors.drop_first(), next, limit)
    }
}

/// What parsing a GIMP palette can find wrong.
#[derive(Clone, Copy, Debug, PartialEq, Eq, Structural)]
pub enum PaletteError {
    /// The text does not start with the `GIMP Palette` header.
    MissingHeader,
    /// No line of the text gives a color.
    NoColors,
}

/// The first line of a GIMP palette file.
pub open spec fn gpl_header() -> Seq<char> {
    seq!['G', 'I', 'M', 'P', ' ', 'P', 'a', 'l', 'e', 't', 't', 'e']
}

/// The pieces of `s` between newlines; the last one follows the last
/// newline, and is empty where `s` ends with one.
pub open spec fn pieces(s: Seq<char>) -> Seq<Seq<char>>
    decreases s.len(),
{
    if s.len() == 0 {
        seq![seq![]]
    } else {
        let p = pieces(s.drop_last());
        if s.last() == '\n' {
            p.push(seq![])
        } else {
            p.update(p.len() - 1, p.last().push(s.last()))
        }
    }
}

/// The lines of `s`: the pieces between newlines, without an empty one
/// after a final newline. (A carriage return before a newline stays in
/// its line; lines are trimmed before they are read, which drops it.)
pub open spec fn text_lines(s: Seq<char>) -> Seq<Seq<char>> {
    let p = pieces(s);
    if p.last().len() == 0 {
        p.drop_last()
    } else {
        p
    }
}

/// How many characters other than whitespace `s` starts with.
pub open spec fn field_len(s: Seq<char>) -> nat
    decreases s.len(),
{
    if s.len() > 0 && !is_white_space(s[0]) {
        1 + field_len(s.drop_first())
    } else {
        0
    }
}

/// The first field of `s`, as `str::split_whitespace` gives it, and what
/// follows it.
pub open spec fn next_field(s: Seq<char>) -> Option<(Seq<char>, Seq<char>)> {
    let t = trim_start_by(s, |c: char| is_white_space(c));
    if t.len() == 0 {
        None
    } else {
        let n = field_len(t) as int;
        Some((t.subrange(0, n), t.subrange(n, t.len() as int)))
    }
}

/// A color channel as a field writes it: a number from 0 to 255.
pub open spec fn channel(f: Seq<char>) -> Option<u8> {
    match parsed_unsigned(f, 255) {
        Some(v) => Some(v as u8),
        None => None,
    }
}

/// The opaque color a line gives: its first three fields read as the red,
/// green and blue channels.
pub open spec fn line_color(l: Seq<char>) -> Option<Color> {
    match next_field(l) {
        Some((a, r1)) => match next_field(r1) {
            Some((b, r2)) => match next_field(r2) {
                Some((c, _)) => match (channel(a), channel(b), channel(c)) {
                    (Some(red), Some(green), Some(blue)) => Some(
                        Color { r: red, g: green, b: blue, a: 255 },
                    ),
                    _ => None,
                },
                None => None,
            },
            None => None,
        },
        None => None,
    }
}

/// Whether a trimmed line is blank or a comment.
pub open spec fn skipped(l: Seq<char>) -> bool {
    l.len() == 0 || l[0] == '#'
}

/// The colors the lines give after `acc`, each once, until there are
/// `MAX_PALETTE`; other lines (metadata, comments, blanks) are passed over.
pub open spec fn gathered(lines: Seq<Seq<char>>, acc: Seq<Color>) -> Seq<Color>
    decreases lines.len(),
{
    if lines.len() == 0 || acc.len() >= MAX_PALETTE {
        acc
    } else {
        let l = trim(lines[0]);
        let next = if skipped(l) {
            acc
        } else {
            match line_color(l) {
                Some(c) => if acc.contains(c) {
                    acc
                } else {
                    acc.push(c)
                },
                None => acc,
            }
        };
        gathered(lines.drop_first(), next)
    }
}

/// What a GIMP palette text holds: the header on its first line, then the
/// colors of the lines that give one; a text without any is refused.
pub open spec fn parsed_gpl(text: Seq<char>) -> Result<Seq<Color>, PaletteError> {
    let lines = text_lines(text);
    if lines.len() == 0 || !gpl_header().is_prefix_of(trim(lines[0])) {
        Err(PaletteError::MissingHeader)
    } else {
        let colors = gathered(lines.drop_first(), seq![]);
        if colors.len() == 0 {
            Err(PaletteError::NoColors)
        } else {
            Ok(colors)
        }
    }
}

/// `n` in decimal, right-aligned with spaces to at least three places.
pub open spec fn pad3(n: nat) -> Seq<char> {
    let d = decimal(n);
    if d.len() >= 3 {
        d
    } else {
        Seq::new((3 - d.len()) as nat, |i: int| ' ') + d
    }
}

/// An uppercase hexadecimal digit.
pub open spec fn hex_upper(d: nat) -> char {
    if d < 10 {
        (('0' as u32) + d) as char
    } else {
        (('A' as u32) + d - 10) as char
    }
}

/// A byte in two uppercase hexadecimal digits.
pub open spec fn hex2(n: u8) -> Seq<char> {
    seq![hex_upper((n / 16) as nat), hex_upper((n % 16) as nat)]
}

/// The line a color is written on: its channels in decimal, then as a hex
/// code.
pub open spec fn gpl_color_line(c: Color) -> Seq<char> {
    pad3(c.r as nat) + seq![' '] + pad3(c.g as nat) + seq![' '] + pad3(c.b as nat) + seq!['\t', '#']
        + hex2(c.r) + hex2(c.g) + hex2(c.b)
}

/// The lines of a GIMP palette before its colors: the header, the name,
/// how many columns to show the colors in, and an empty comment.
pub open spec fn gpl_preamble(name: Seq<char>) -> Seq<char> {
    gpl_header() + seq!['\n', 'N', 'a', 'm', 'e', ':', ' '] + name + seq![
        '\n',
        'C',
        'o',
        'l',
        'u',
        'm',
        'n',
        's',
        ':',
        ' ',
        '8',
        '\n',
        '#',
        '\n',
    ]
}

/// The color lines of a GIMP palette, each ended by a newline.
pub open spec fn gpl_body(colors: Seq<Color>) -> Seq<char>
    decreases colors.len(),
{
    if colors.len() == 0 {
        seq![]
    } else {
        gpl_body(colors.drop_last()) + gpl_color_line(colors.last()) + seq!['\n']
    }
}

/// A palette written as a GIMP palette.
pub open spec fn gpl_text(colors: Seq<Color>, name: Seq<char>) -> Seq<char> {
    gpl_preamble(name) + gpl_body(colors)
}

/// The texts of a sequence of lines.
pub open spec fn line_views(ls: Seq<Vec<char>>) -> Seq<Seq<char>> {
    ls.map_values(|l: Vec<char>| l@)
}

/// The lines of a text.
fn lines_of(chars: &Vec<char>) -> (ls: Vec<Vec<char>>)
    ensures
        line_views(ls@) == text_lines(chars@),
{
    let mut done: Vec<Vec<char>> = Vec::new();
    let mut cur: Vec<char> = Vec::new();
    let mut i: usize = 0;
    while i < chars.len()
        invariant
            0 <= i <= chars@.len(),
            line_views(done@).push(cur@) == pieces(chars@.subrange(0, i as int)),
        decreases chars@.len() - i,
    {
        let c = chars[i];
        let ghost pre = chars@.subrange(0, i + 1);
        proof {
            assert(pre.drop_last() =~= chars@.subrange(0, i as int));
            assert(pre.last() == c);
        }
        if c == '\n' {
            let line = cur;
            let ghost before = done@;
            done.push(line);
            cur = Vec::new();
            proof {
                assert(line_views(done@) =~= line_views(before).push(line@));
                assert(line_views(done@).push(cur@) =~= pieces(pre));
            }
        } else {
            let ghost before = cur@;
            cur.push(c);
            proof {
                assert(line_views(done@).push(cur@) =~= line_views(done@).push(before).update(
                    line_views(done@).len() as int,
                    before.push(c),
                ));
            }
        }
        i = i + 1;
    }
    proof {
        assert(chars@.subrange(0, chars@.len() as int) =~= chars@);
    }
    if cur.len() > 0 {
        let ghost before = done@;
        done.push(cur);
        proof {
            assert(line_views(done@) =~= line_views(before).push(done@.last()@));
        }
    } else {
        proof {
            assert(line_views(done@) =~= line_views(done@).push(cur@).drop_last());
        }
    }
    done
}

proof fn lemma_field_len_step(s: Seq<char>, i: int)
    requires
        0 <= i < s.len(),
        !is_white_space(s[i]),
    ensures
        field_len(s.subrange(i, s.len() as int)) == 1 + field_len(s.subrange(i + 1, s.len() as int)),
{
    let t = s.subrange(i, s.len() as int);
    assert(t.drop_first() =~= s.subrange(i + 1, s.len() as int));
    assert(t[0] == s[i]);
}

proof fn lemma_field_len_bound(s: Seq<char>)
    ensures
        field_len(s) <= s.len(),
        forall|k: int| 0 <= k < field_len(s) ==> !is_white_space(#[trigger] s[k]),
    decreases s.len(),
{
    if s.len() > 0 && !is_white_space(s[0]) {
        lemma_field_len_bound(s.drop_first());
        assert forall|k: int| 0 <= k < field_len(s) implies !is_white_space(#[trigger] s[k]) by {
            if k > 0 {
                assert(s[k] == s.drop_first()[k - 1]);
            }
        }
    }
}

/// The first field of a text and what follows it.
fn next_field_of(v: &Vec<char>) -> (r: Option<(Vec<char>, Vec<char>)>)
    ensures
        match r {
            Some((f, rest)) => next_field(v@) == Some((f@, rest@)),
            None => next_field(v@) is None,
        },
{
    let start = crate::text::trim_start_index(v, false);
    let t = crate::text::slice_chars(v, start, v.len());
    if t.len() == 0 {
        return None;
    }
    let mut e: usize = 0;
    proof {
        assert(t@.subrange(0, t@.len() as int) =~= t@);
    }
    while e < t.len() && !crate::text::is_whitespace(t[e])
        invariant
            0 <= e <= t@.len(),
            field_len(t@) == e + field_len(t@.subrange(e as int, t@.len() as int)),
        decreases t@.len() - e,
    {
        proof {
            lemma_field_len_step(t@, e as int);
        }
        e = e + 1;
    }
    proof {
        assert(t@.subrange(0, t@.len() as int) =~= t@);
        if e < t.len() {
            assert(t@.subrange(e as int, t@.len() as int)[0] == t@[e as int]);
        }
    }
    let f = crate::text::slice_chars(&t, 0, e);
    let rest = crate::text::slice_chars(&t, e, t.len());
    Some((f, rest))
}

/// A field read as a color channel.
fn channel_of(f: &Vec<char>) -> (r: Option<u8>)
    ensures
        r == channel(f@),
{
    let s = crate::text::string_of(f.as_slice());
    match parse_unsigned(s.as_str(), 255) {
        Some(v) => Some(v as u8),
        None => None,
    }
}

/// The opaque color a line gives, if it gives one.
fn line_color_of(l: &Vec<char>) -> (r: Option<Color>)
    ensures
        r == line_color(l@),
{
    match next_field_of(l) {
        Some((a, r1)) => match next_field_of(&r1) {
            Some((b, r2)) => match next_field_of(&r2) {
                Some((c, _)) => {
                    let red = channel_of(&a);
                    let green = channel_of(&b);
                    let blue = channel_of(&c);
                    match (red, green, blue) {
                        (Some(red), Some(green), Some(blue)) => Some(Color::new(red, green, blue, 255)),
                        _ => None,
                    }
                },
                None => None,
            },
            None => None,
        },
        None => None,
    }
}

/// The colors offered for drawing, none twice.
#[derive(Debug)]
pub struct Palette(Vec<Color>);

impl Palette {
    #[verifier::type_invariant]
    pub closed spec fn inv(self) -> bool {
        self.0@.no_duplicates()
    }
}

impl View for Palette {
    type V = Seq<Color>;

    closed spec fn view(&self) -> Seq<Color> {
        self.0@
    }
}

/// Whether `v` holds `c`.
fn holds(v: &Vec<Color>, c: Color) -> (b: bool)
    ensures
        b == v@.contains(c),
{
    let mut i: usize = 0;
    while i < v.len()
        invariant
            0 <= i <= v@.len(),
            forall|j: int| 0 <= j < i ==> v@[j] != c,
        decreases v@.len() - i,
    {
        if v[i] == c {
            return true;
        }
        i = i + 1;
    }
    false
}

impl Default for Palette {
    fn default() -> (p: Palette)
        ensures
            p@ == default_colors(),
    {
        let colors = vec![
            Color::new(0, 0, 0, 255),
            Color::new(255, 255, 255, 255),
            Color::new(255, 0, 0, 255),
            Color::new(255, 127, 0, 255),
            Color::new(255, 255, 0, 255),
            Color::new(127, 255, 0, 255),
            Color::new(0, 255, 0, 255),
            Color::new(0, 255, 127, 255),
            Color::new(0, 255, 255, 255),
            Color::new(0, 127, 255, 255),
            Color::new(0, 0, 255, 255),
            Color::new(127, 0, 255, 255),
            Color::new(255, 0, 255, 255),
            Color::new(255, 0, 127, 255),
        ];
        assert(colors@ =~= default_colors());
        assert(colors@.no_duplicates()) by {
            assert forall|i: int, j: int|
                0 <= i < colors@.len() && 0 <= j < colors@.len() && i != j implies colors@[i]
                != colors@[j] by {
                assert(colors@ == default_colors());
            }
        }
        Palette(colors)
    }
}

impl Palette {
    /// The colors, in order.
    pub fn colors(&self) -> (c: &[Color])
        ensures
            c@ == self@,
            c@.no_duplicates(),
    {
        proof {
            use_type_invariant(self);
        }
        self.0.as_slice()
    }

    /// Adds a color at the end, unless the palette has it already.
    pub fn add_color(&mut self, color: Color)
        ensures
            final(self)@ == if old(self)@.contains(color) {
                old(self)@
            } else {
                old(self)@.push(color)
            },
    {
        proof {
            use_type_invariant(&*self);
        }
        if !holds(&self.0, color) {
            let mut v = Vec::new();
            std::mem::swap(&mut v, &mut self.0);
            let ghost before = v@;
            v.push(color);
            proof {
                assert forall|i: int, j: int|
                    0 <= i < v@.len() && 0 <= j < v@.len() && i != j implies v@[i] != v@[j] by {
                    if i == before.len() {
                        assert(v@[j] == before[j]);
                    } else if j == before.len() {
                        assert(v@[i] == before[i]);
                    }
                }
            }
            *self = Palette(v);
        }
    }

    /// Takes a color out.
    pub fn remove_color(&mut self, color: Color)
        ensures
            final(self)@ == old(self)@.filter(|c: Color| c != color),
    {
        proof {
            use_type_invariant(&*self);
        }
        let mut v = Vec::new();
        std::mem::swap(&mut v, &mut self.0);
        let ghost all = v@;
        let mut kept: Vec<Color> = Vec::new();
        let mut i: usize = 0;
        while i < v.len()
            invariant
                v@ == all,
                all.no_duplicates(),
                0 <= i <= all.len(),
                kept@ == all.subrange(0, i as int).filter(|c: Color| c != color),
                kept@.no_duplicates(),
                forall|k: int| 0 <= k < kept@.len() ==> all.subrange(0, i as int).contains(#[trigger] kept@[k]),
            decreases all.len() - i,
        {
            let c = v[i];
            proof {
                assert(all.subrange(0, i + 1).drop_last() =~= all.subrange(0, i as int));
                assert(all.subrange(0, i + 1).last() == c);
                reveal(Seq::filter);
                assert(all.subrange(0, i + 1).filter(|c: Color| c != color) == if c != color {
                    all.subrange(0, i as int).filter(|c: Color| c != color).push(c)
                } else {
                    all.subrange(0, i as int).filter(|c: Color| c != color)
                });
            }
            if c != color {
                let ghost before = kept@;
                kept.push(c);
                proof {
                    assert forall|a: int, b: int|
                        0 <= a < kept@.len() && 0 <= b < kept@.len() && a != b implies kept@[a]
                        != kept@[b] by {
                        if a == before.len() || b == before.len() {
                            let other = if a == before.len() { b } else { a };
                            assert(all.subrange(0, i as int).contains(kept@[other]));
                            let k = choose|k: int| 0 <= k < i && all[k] == kept@[other];
                            assert(all[k] != all[i as int]);
                        }
                    }
                    assert forall|k: int| 0 <= k < kept@.len() implies all.subrange(0, i + 1).contains(
                        #[trigger] kept@[k],
                    ) by {
                        if k < before.len() {
                            let j = choose|j: int| 0 <= j < i && all[j] == kept@[k];
                            assert(all.subrange(0, i + 1)[j] == all[j]);
                        } else {
                            assert(all.subrange(0, i + 1)[i as int] == c);
                        }
                    }
                }
            } else {
                proof {
                    assert forall|k: int| 0 <= k < kept@.len() implies all.subrange(0, i + 1).contains(
                        #[trigger] kept@[k],
                    ) by {
                        let j = choose|j: int| 0 <= j < i && all[j] == kept@[k];
                        assert(all.subrange(0, i + 1)[j] == all[j]);
                    }
                }
            }
            i = i + 1;
        }
        proof {
            assert(all.subrange(0, all.len() as int) =~= all);
            reveal(Seq::filter);
        }
        *self = Palette(kept);
    }

    /// The distinct colors of an image, row by row, at most the first
    /// `MAX_PALETTE` of them.
    pub fn from_image(img: &Image) -> (p: Palette)
        ensures
            p@ == distinct_colors(img@.px, seq![], MAX_PALETTE as int),
    {
        let pixels = img.pixels();
        Palette::from_colors(&pixels)
    }

    /// The distinct colors of a sequence, in the order they first occur, at
    /// most the first `MAX_PALETTE` of them.
    pub fn from_colors(colors: &Vec<Color>) -> (p: Palette)
        ensures
            p@ == distinct_colors(colors@, seq![], MAX_PALETTE as int),
    {
        let mut acc: Vec<Color> = Vec::new();
        let mut i: usize = 0;
        proof {
            assert(colors@.subrange(0, colors@.len() as int) =~= colors@);
            assert(acc@ =~= Seq::<Color>::empty());
        }
        while i < colors.len() && acc.len() < MAX_PALETTE
            invariant
                0 <= i <= colors@.len(),
                acc@.no_duplicates(),
                distinct_colors(colors@, seq![], MAX_PALETTE as int) == distinct_colors(
                    colors@.subrange(i as int, colors@.len() as int),
                    acc@,
                    MAX_PALETTE as int,
                ),
            decreases colors@.len() - i,
        {
            let c = colors[i];
            let ghost rest = colors@.subrange(i as int, colors@.len() as int);
            proof {
                assert(rest[0] == c);
                assert(rest.drop_first() =~= colors@.subrange(i + 1, colors@.len() as int));
            }
            if !holds(&acc, c) {
                let ghost before = acc@;
                acc.push(c);
                proof {
                    assert forall|a: int, b: int|
                        0 <= a < acc@.len() && 0 <= b < acc@.len() && a != b implies acc@[a] != acc@[b] by {
                        if a == before.len() {
                            assert(acc@[b] == before[b]);
                        } else if b == before.len() {
                            assert(acc@[a] == before[a]);
                        }
                    }
                }
            }
            i = i + 1;
        }
        proof {
            let rest = colors@.subrange(i as int, colors@.len() as int);
            if i == colors.len() {
                assert(rest.len() == 0);
            }
        }
        Palette(acc)
    }
}


/// Whether a line starts with the GIMP palette header.
fn starts_with_header(l: &Vec<char>) -> (b: bool)
    ensures
        b == gpl_header().is_prefix_of(l@),
{
    let header = vec!['G', 'I', 'M', 'P', ' ', 'P', 'a', 'l', 'e', 't', 't', 'e'];
    proof {
        assert(header@ =~= gpl_header());
    }
    if l.len() < header.len() {
        return false;
    }
    let mut i: usize = 0;
    while i < header.len()
        invariant
            header@ == gpl_header(),
            header@.len() <= l@.len(),
            0 <= i <= header@.len(),
            forall|j: int| 0 <= j < i ==> l@[j] == header@[j],
        decreases header@.len() - i,
    {
        if l[i] != header[i] {
            proof {
                assert(l@.subrange(0, header@.len() as int)[i as int] != header@[i as int]);
            }
            return false;
        }
        i = i + 1;
    }
    proof {
        assert(l@.subrange(0, header@.len() as int) =~= header@);
    }
    true
}

/// `n` right-aligned with spaces to three places.
fn push_pad3(out: &mut Vec<char>, n: u8)
    ensures
        final(out)@ == old(out)@ + pad3(n as nat),
{
    let d = crate::text::decimal_digits(n as usize);
    let mut k = d.len();
    let ghost start = out@;
    while k < 3
        invariant
            d@ == decimal(n as nat),
            d@.len() <= k <= 3 || (k == d@.len() && k >= 3),
            out@ == start + Seq::new((k - d@.len()) as nat, |i: int| ' '),
        decreases 3 - k,
    {
        out.push(' ');
        proof {
            assert(out@ =~= start + Seq::new((k + 1 - d@.len()) as nat, |i: int| ' '));
        }
        k = k + 1;
    }
    crate::names::append_chars(out, &d);
    proof {
        if d@.len() >= 3 {
            assert(out@ =~= start + d@);
        } else {
            assert(out@ =~= start + (Seq::new((3 - d@.len()) as nat, |i: int| ' ') + d@));
        }
    }
}

fn hex_upper_of(d: u8) -> (c: char)
    requires
        d < 16,
    ensures
        c == hex_upper(d as nat),
{
    if d < 10 {
        ((('0' as u8) + d) as char)
    } else {
        ((('A' as u8) + d - 10) as char)
    }
}

impl Palette {
    /// Reads a GIMP palette. Lines that are not three numbers (the name,
    /// the columns, comments, blanks) are passed over; repeated colors are
    /// kept once, and at most `MAX_PALETTE` are read. The format has no
    /// alpha, so every color is opaque.
    pub fn from_gpl(text: &str) -> (r: Result<Palette, PaletteError>)
        ensures
            match r {
                Ok(p) => parsed_gpl(text@) == Ok::<Seq<Color>, PaletteError>(p@),
                Err(e) => parsed_gpl(text@) == Err::<Seq<Color>, PaletteError>(e),
            },
    {
        let chars = crate::text::chars_of(text);
        let lines = lines_of(&chars);
        let ghost ls = line_views(lines@);
        if lines.len() == 0 {
            return Err(PaletteError::MissingHeader);
        }
        proof {
            assert(ls[0] == lines@[0]@);
        }
        let first = crate::text::trim_chars(&lines[0]);
        if !starts_with_header(&first) {
            return Err(PaletteError::MissingHeader);
        }
        let mut colors: Vec<Color> = Vec::new();
        let mut k: usize = 1;
        proof {
            assert(ls.subrange(1, ls.len() as int) =~= ls.drop_first());
            assert(colors@ =~= Seq::<Color>::empty());
        }
        while k < lines.len() && colors.len() < MAX_PALETTE
            invariant
                ls == line_views(lines@),
                1 <= k <= ls.len(),
                colors@.no_duplicates(),
                gathered(ls.drop_first(), seq![]) == gathered(
                    ls.subrange(k as int, ls.len() as int),
                    colors@,
                ),
            decreases ls.len() - k,
        {
            let l = crate::text::trim_chars(&lines[k]);
            let ghost rest = ls.subrange(k as int, ls.len() as int);
            proof {
                assert(rest[0] == lines@[k as int]@);
                assert(rest.drop_first() =~= ls.subrange(k + 1, ls.len() as int));
            }
            if !(l.len() == 0 || l[0] == '#') {
                match line_color_of(&l) {
                    Some(c) => {
                        if !holds(&colors, c) {
                            let ghost before = colors@;
                            colors.push(c);
                            proof {
                                assert forall|a: int, b: int|
                                    0 <= a < colors@.len() && 0 <= b < colors@.len() && a != b implies colors@[a]
                                    != colors@[b] by {
                                    if a == before.len() {
                                        assert(colors@[b] == before[b]);
                                    } else if b == before.len() {
                                        assert(colors@[a] == before[a]);
                                    }
                                }
                            }
                        }
                    },
                    None => {},
                }
            }
            k = k + 1;
        }
        if colors.len() == 0 {
            return Err(PaletteError::NoColors);
        }
        Ok(Palette(colors))
    }

    /// Writes this palette as a GIMP palette with the given name. The
    /// format has no alpha channel, so colors are written as red, green and
    /// blue only.
    #[verifier::spinoff_prover]
    #[verifier::rlimit(40)]
    pub fn to_gpl(&self, name: &str) -> (s: String)
        ensures
            s@ == gpl_text(self@, name@),
    {
        let mut out: Vec<char> = vec!['G', 'I', 'M', 'P', ' ', 'P', 'a', 'l', 'e', 't', 't', 'e'];
        let tail1 = vec!['\n', 'N', 'a', 'm', 'e', ':', ' '];
        crate::names::append_chars(&mut out, &tail1);
        let name_chars = crate::text::chars_of(name);
        crate::names::append_chars(&mut out, &name_chars);
        let tail2 = vec!['\n', 'C', 'o', 'l', 'u', 'm', 'n', 's', ':', ' ', '8', '\n', '#', '\n'];
        crate::names::append_chars(&mut out, &tail2);
        let ghost pre = out@;
        proof {
            assert(pre =~= gpl_preamble(name@));
        }
        let mut i: usize = 0;
        while i < self.0.len()
            invariant
                0 <= i <= self@.len(),
                out@ == pre + gpl_body(self@.subrange(0, i as int)),
            decreases self@.len() - i,
        {
            let c = self.0[i];
            let ghost before = out@;
            push_pad3(&mut out, c.r);
            out.push(' ');
            push_pad3(&mut out, c.g);
            out.push(' ');
            push_pad3(&mut out, c.b);
            out.push('\t');
            out.push('#');
            out.push(hex_upper_of(c.r / 16));
            out.push(hex_upper_of(c.r % 16));
            out.push(hex_upper_of(c.g / 16));
            out.push(hex_upper_of(c.g % 16));
            out.push(hex_upper_of(c.b / 16));
            out.push(hex_upper_of(c.b % 16));
            out.push('\n');
            proof {
                let sub = self@.subrange(0, i + 1);
                assert(sub.drop_last() =~= self@.subrange(0, i as int));
                assert(sub.last() == c);
                assert(out@ =~= before + gpl_color_line(c) + seq!['\n']);
                assert(out@ =~= pre + gpl_body(sub));
            }
            i = i + 1;
        }
        proof {
            assert(self@.subrange(0, self@.len() as int) =~= self@);
        }
        crate::text::string_of(out.as_slice())
    }
}


/// The lines, each ended by a newline.
pub open spec fn joined(ls: Seq<Seq<char>>) -> Seq<char>
    decreases ls.len(),
{
    if ls.len() == 0 {
        seq![]
    } else {
        joined(ls.drop_last()) + ls.last() + seq!['\n']
    }
}

proof fn lemma_pieces_len(s: Seq<char>)
    ensures
        pieces(s).len() >= 1,
    decreases s.len(),
{
    if s.len() > 0 {
        lemma_pieces_len(s.drop_last());
    }
}

proof fn lemma_pieces_append(x: Seq<char>, y: Seq<char>)
    requires
        forall|i: int| 0 <= i < y.len() ==> #[trigger] y[i] != '\n',
    ensures
        pieces(x + y) == pieces(x).update(pieces(x).len() - 1, pieces(x).last() + y),
    decreases y.len(),
{
    lemma_pieces_len(x);
    if y.len() == 0 {
        assert(x + y =~= x);
        assert(pieces(x).last() + y =~= pieces(x).last());
        assert(pieces(x).update(pieces(x).len() - 1, pieces(x).last()) =~= pieces(x));
    } else {
        let y1 = y.drop_last();
        lemma_pieces_append(x, y1);
        assert((x + y).drop_last() =~= x + y1);
        assert((x + y).last() == y.last());
        lemma_pieces_len(x + y1);
        assert(pieces(x).last() + y =~= (pieces(x).last() + y1).push(y.last()));
        assert(pieces(x + y) =~= pieces(x).update(pieces(x).len() - 1, pieces(x).last() + y));
    }
}

/// Lines without newlines, each ended by one, read back as those lines.
proof fn lemma_lines_joined(ls: Seq<Seq<char>>)
    requires
        forall|k: int, i: int| 0 <= k < ls.len() && 0 <= i < ls[k].len() ==> #[trigger] ls[k][i] != '\n',
    ensures
        pieces(joined(ls)) == ls.push(seq![]),
        text_lines(joined(ls)) == ls,
    decreases ls.len(),
{
    if ls.len() == 0 {
        assert(pieces(seq![]) =~= ls.push(seq![]));
    } else {
        let front = ls.drop_last();
        let l = ls.last();
        assert forall|k: int, i: int| 0 <= k < front.len() && 0 <= i < front[k].len() implies #[trigger] front[k][i]
            != '\n' by {
            assert(front[k] == ls[k]);
        }
        lemma_lines_joined(front);
        assert forall|i: int| 0 <= i < l.len() implies #[trigger] l[i] != '\n' by {
            assert(ls[ls.len() - 1][i] == l[i]);
        }
        lemma_pieces_append(joined(front), l);
        let body = joined(front) + l;
        assert(joined(ls) =~= body.push('\n'));
        assert(joined(ls).drop_last() =~= body);
        assert(seq![] + l =~= l);
        assert(front.push(seq![]).update(front.len() as int, l) =~= ls);
        assert(pieces(joined(ls)) =~= ls.push(seq![]));
    }
    assert(pieces(joined(ls)).last().len() == 0);
    assert(pieces(joined(ls)).drop_last() =~= ls);
}

proof fn lemma_joined_add(a: Seq<Seq<char>>, b: Seq<Seq<char>>)
    ensures
        joined(a + b) == joined(a) + joined(b),
    decreases b.len(),
{
    if b.len() == 0 {
        assert(a + b =~= a);
        assert(joined(a) + joined(b) =~= joined(a));
    } else {
        lemma_joined_add(a, b.drop_last());
        assert((a + b).drop_last() =~= a + b.drop_last());
        assert((a + b).last() == b.last());
        assert(joined(a + b) =~= joined(a) + joined(b));
    }
}

/// The lines of a GIMP palette before its colors.
pub open spec fn preamble_lines(name: Seq<char>) -> Seq<Seq<char>> {
    seq![
        gpl_header(),
        seq!['N', 'a', 'm', 'e', ':', ' '] + name,
        seq!['C', 'o', 'l', 'u', 'm', 'n', 's', ':', ' ', '8'],
        seq!['#'],
    ]
}

#[verifier::spinoff_prover]
proof fn lemma_preamble_joined(name: Seq<char>)
    ensures
        joined(preamble_lines(name)) == gpl_preamble(name),
{
    let h = gpl_header();
    let n = seq!['N', 'a', 'm', 'e', ':', ' '] + name;
    let c = seq!['C', 'o', 'l', 'u', 'm', 'n', 's', ':', ' ', '8'];
    let hash = seq!['#'];
    let p0 = seq![h];
    let p1 = p0.push(n);
    let p2 = p1.push(c);
    let p3 = p2.push(hash);
    assert(p3 =~= preamble_lines(name));
    assert(p0.drop_last() =~= Seq::<Seq<char>>::empty());
    assert(joined(Seq::<Seq<char>>::empty()) == Seq::<char>::empty());
    assert(p0.last() == h);
    assert(joined(p0) == Seq::<char>::empty() + h + seq!['\n']);
    assert(p1.drop_last() =~= p0);
    assert(joined(p1) == joined(p0) + n + seq!['\n']);
    assert(p2.drop_last() =~= p1);
    assert(joined(p2) == joined(p1) + c + seq!['\n']);
    assert(p3.drop_last() =~= p2);
    assert(joined(p3) == joined(p2) + hash + seq!['\n']);
    assert(joined(p3) =~= gpl_preamble(name));
}

#[verifier::spinoff_prover]
proof fn lemma_text_joined(colors: Seq<Color>, name: Seq<char>)
    ensures
        gpl_text(colors, name) == joined(
            preamble_lines(name) + colors.map_values(|c: Color| gpl_color_line(c)),
        ),
{
    let m = colors.map_values(|c: Color| gpl_color_line(c));
    lemma_joined_add(preamble_lines(name), m);
    lemma_preamble_joined(name);
    lemma_body_joined(colors);
}

proof fn lemma_body_joined(colors: Seq<Color>)
    ensures
        gpl_body(colors) == joined(colors.map_values(|c: Color| gpl_color_line(c))),
    decreases colors.len(),
{
    if colors.len() > 0 {
        lemma_body_joined(colors.drop_last());
        let m = colors.map_values(|c: Color| gpl_color_line(c));
        assert(m.drop_last() =~= colors.drop_last().map_values(|c: Color| gpl_color_line(c)));
    } else {
        assert(colors.map_values(|c: Color| gpl_color_line(c)) =~= Seq::<Seq<char>>::empty());
    }
}

/// The decimal digits of a number are digits, at least one, and read back
/// as the number.
proof fn lemma_decimal_reads_back(n: nat)
    ensures
        decimal(n).len() >= 1,
        forall|i: int| 0 <= i < decimal(n).len() ==> is_digit(#[trigger] decimal(n)[i]),
        decimal_value(decimal(n)) == n,
    decreases n,
{
    let d = decimal(n);
    if n < 10 {
        assert(d.drop_last() =~= Seq::<char>::empty());
        assert(d.last() == crate::text::digit_char(n));
        assert(crate::text::digit_char(n) as int == '0' as int + n);
        assert(decimal_value(d.drop_last()) == 0);
        assert(decimal_value(d) == decimal_value(d.drop_last()) * 10 + (d.last() as int - '0' as int));
    } else {
        lemma_decimal_reads_back(n / 10);
        assert(d.drop_last() =~= decimal(n / 10));
        assert(d.last() == crate::text::digit_char(n % 10));
        assert(crate::text::digit_char(n % 10) as int == '0' as int + n % 10);
        vstd::arithmetic::div_mod::lemma_fundamental_div_mod(n as int, 10);
        assert(decimal_value(d) == decimal_value(d.drop_last()) * 10 + (d.last() as int - '0' as int));
        assert(decimal_value(d.drop_last()) == n / 10);
        assert forall|i: int| 0 <= i < d.len() implies is_digit(#[trigger] d[i]) by {
            if i < d.len() - 1 {
                assert(d[i] == decimal(n / 10)[i]);
            }
        }
    }
}

/// A number up to 255 written in decimal reads back as a channel.
proof fn lemma_channel_of_decimal(n: u8)
    ensures
        channel(decimal(n as nat)) == Some(n),
{
    lemma_decimal_reads_back(n as nat);
    let d = decimal(n as nat);
    assert(d[0] != '+');
    assert(crate::text::unsigned_digits(d) == d);
}

/// A line whose first character is neither whitespace, a sign nor a digit
/// gives no color.
proof fn lemma_no_color(l: Seq<char>)
    requires
        l.len() > 0,
        !is_white_space(l[0]),
        l[0] != '+',
        !is_digit(l[0]),
    ensures
        line_color(l) is None,
{
    let t = trim_start_by(l, |c: char| is_white_space(c));
    assert(t == l);
    let n = field_len(l) as int;
    assert(n >= 1);
    lemma_field_len_bound(l);
    let f = l.subrange(0, n);
    assert(f[0] == l[0]);
    assert(crate::text::unsigned_digits(f) == f);
    assert(channel(f) is None);
}

/// Trimming keeps the front of what it keeps.
proof fn lemma_trim_end_prefix(s: Seq<char>, drop: spec_fn(char) -> bool)
    ensures
        trim_end_by(s, drop).len() <= s.len(),
        trim_end_by(s, drop) == s.subrange(0, trim_end_by(s, drop).len() as int),
    decreases s.len(),
{
    if s.len() > 0 && drop(s.last()) {
        lemma_trim_end_prefix(s.drop_last(), drop);
        assert(s.drop_last().subrange(0, trim_end_by(s, drop).len() as int) =~= s.subrange(
            0,
            trim_end_by(s, drop).len() as int,
        ));
    } else {
        assert(s.subrange(0, s.len() as int) =~= s);
    }
}

/// Trimming a line that starts with something other than whitespace
/// keeps that start.
proof fn lemma_trim_keeps_first(s: Seq<char>)
    requires
        s.len() > 0,
        !is_white_space(s[0]),
    ensures
        trim(s).len() > 0,
        trim(s)[0] == s[0],
{
    let ws = |c: char| is_white_space(c);
    assert(trim_start_by(s, ws) == s);
    crate::text::lemma_trim_end_keeps_first(s, ws);
    lemma_trim_end_prefix(s, ws);
}

proof fn lemma_field_len_split(a: Seq<char>, b: Seq<char>)
    requires
        forall|i: int| 0 <= i < a.len() ==> !is_white_space(#[trigger] a[i]),
        b.len() > 0,
        is_white_space(b[0]),
    ensures
        field_len(a + b) == a.len(),
    decreases a.len(),
{
    if a.len() == 0 {
        assert(a + b =~= b);
    } else {
        assert((a + b).drop_first() =~= a.drop_first() + b);
        assert((a + b)[0] == a[0]);
        assert forall|i: int| 0 <= i < a.drop_first().len() implies !is_white_space(#[trigger] a.drop_first()[i]) by {
            assert(a.drop_first()[i] == a[i + 1]);
        }
        lemma_field_len_split(a.drop_first(), b);
    }
}

/// The spaces `pad3` puts before a number.
pub open spec fn pad_len(n: nat) -> nat {
    if decimal(n).len() >= 3 {
        0
    } else {
        (3 - decimal(n).len()) as nat
    }
}

proof fn lemma_pad3(n: nat)
    ensures
        pad3(n) == Seq::new(pad_len(n), |i: int| ' ') + decimal(n),
{
    if decimal(n).len() >= 3 {
        assert(Seq::new(0, |i: int| ' ') + decimal(n) =~= decimal(n));
    }
}

/// After whitespace and a padded number, the next field is the number.
proof fn lemma_field_after_pad(lead: Seq<char>, n: u8, rest: Seq<char>)
    requires
        forall|i: int| 0 <= i < lead.len() ==> is_white_space(#[trigger] lead[i]),
        rest.len() > 0,
        is_white_space(rest[0]),
    ensures
        next_field(lead + pad3(n as nat) + rest) == Some((decimal(n as nat), rest)),
{
    let d = decimal(n as nat);
    lemma_decimal_reads_back(n as nat);
    lemma_pad3(n as nat);
    let sp = Seq::new(pad_len(n as nat), |i: int| ' ');
    let s = lead + pad3(n as nat) + rest;
    let k = (lead.len() + sp.len()) as int;
    assert(s =~= (lead + sp) + (d + rest));
    let ws = |c: char| is_white_space(c);
    assert forall|j: int| 0 <= j < k implies ws(#[trigger] s[j]) by {
        if j < lead.len() {
            assert(s[j] == lead[j]);
        } else {
            assert(s[j] == ' ');
        }
    }
    crate::text::lemma_trim_start_skip(s, ws, k);
    let t = s.subrange(k, s.len() as int);
    assert(t =~= d + rest);
    assert(t[0] == d[0]);
    assert(trim_start_by(t, ws) == t);
    assert forall|i: int| 0 <= i < d.len() implies !is_white_space(#[trigger] d[i]) by {
        assert(is_digit(d[i]));
    }
    lemma_field_len_split(d, rest);
    assert(t.subrange(0, d.len() as int) =~= d);
    assert(t.subrange(d.len() as int, t.len() as int) =~= rest);
}

/// A color's line, trimmed, gives that color back, opaque.
#[verifier::spinoff_prover]
#[verifier::rlimit(60)]
proof fn lemma_color_line_reads_back(c: Color)
    ensures
        !skipped(trim(gpl_color_line(c))),
        line_color(trim(gpl_color_line(c))) == Some(Color { a: 255, ..c }),
{
    let hex = seq!['\t', '#'] + hex2(c.r) + hex2(c.g) + hex2(c.b);
    let line = gpl_color_line(c);
    let ws = |ch: char| is_white_space(ch);
    lemma_pad3(c.r as nat);
    lemma_decimal_reads_back(c.r as nat);
    let sp = Seq::new(pad_len(c.r as nat), |i: int| ' ');
    let dr = decimal(c.r as nat);
    let tail = seq![' '] + pad3(c.g as nat) + seq![' '] + pad3(c.b as nat) + hex;
    assert(line =~= sp + (dr + tail));
    assert forall|j: int| 0 <= j < sp.len() implies ws(#[trigger] line[j]) by {
        assert(line[j] == ' ');
    }
    crate::text::lemma_trim_start_skip(line, ws, sp.len() as int);
    let t = line.subrange(sp.len() as int, line.len() as int);
    assert(t =~= dr + tail);
    assert(t[0] == dr[0]);
    assert(trim_start_by(t, ws) == t);
    let last = hex2(c.b)[1];
    assert(t.last() == last);
    assert(!is_white_space(last));
    assert(trim_end_by(t, ws) == t);
    assert(trim(line) == t);
    assert(t[0] != '#');
    // First field: the red channel.
    assert(t =~= Seq::<char>::empty() + pad3(c.r as nat).subrange(sp.len() as int, pad3(c.r as nat).len() as int) + tail);
    assert(pad3(c.r as nat).subrange(sp.len() as int, pad3(c.r as nat).len() as int) =~= dr);
    let r_pad = dr;
    assert forall|i: int| 0 <= i < dr.len() implies !is_white_space(#[trigger] dr[i]) by {
        assert(is_digit(dr[i]));
    }
    lemma_field_len_split(dr, tail);
    assert(next_field(t) == Some((dr, tail))) by {
        assert(t.subrange(0, dr.len() as int) =~= dr);
        assert(t.subrange(dr.len() as int, t.len() as int) =~= tail);
    }
    // Second field: the green channel.
    let tail2 = seq![' '] + pad3(c.b as nat) + hex;
    assert(tail =~= seq![' '] + pad3(c.g as nat) + tail2);
    lemma_field_after_pad(seq![' '], c.g, tail2);
    // Third field: the blue channel.
    assert(tail2 =~= seq![' '] + pad3(c.b as nat) + hex);
    lemma_field_after_pad(seq![' '], c.b, hex);
    lemma_channel_of_decimal(c.r);
    lemma_channel_of_decimal(c.g);
    lemma_channel_of_decimal(c.b);
}


/// No newline in `s`.
pub open spec fn no_newline(s: Seq<char>) -> bool {
    forall|i: int| 0 <= i < s.len() ==> #[trigger] s[i] != '\n'
}

proof fn lemma_color_line_no_newline(c: Color)
    ensures
        no_newline(gpl_color_line(c)),
{
    lemma_pad3(c.r as nat);
    lemma_pad3(c.g as nat);
    lemma_pad3(c.b as nat);
    lemma_decimal_reads_back(c.r as nat);
    lemma_decimal_reads_back(c.g as nat);
    lemma_decimal_reads_back(c.b as nat);
    assert forall|n: u8| #[trigger] no_newline(pad3(n as nat)) by {
        lemma_pad3(n as nat);
        lemma_decimal_reads_back(n as nat);
        let sp = Seq::new(pad_len(n as nat), |i: int| ' ');
        let d = decimal(n as nat);
        assert forall|i: int| 0 <= i < pad3(n as nat).len() implies #[trigger] pad3(n as nat)[i] != '\n' by {
            if i < sp.len() {
                assert(pad3(n as nat)[i] == ' ');
            } else {
                assert(pad3(n as nat)[i] == d[i - sp.len()]);
                assert(is_digit(d[i - sp.len()]));
            }
        }
    }
    assert forall|n: u8| #[trigger] no_newline(hex2(n)) by {
        assert(hex2(n)[0] != '\n');
        assert(hex2(n)[1] != '\n');
    }
    let line = gpl_color_line(c);
    assert(no_newline(pad3(c.r as nat)));
    assert(no_newline(pad3(c.g as nat)));
    assert(no_newline(pad3(c.b as nat)));
    assert(no_newline(hex2(c.r)));
    assert(no_newline(hex2(c.g)));
    assert(no_newline(hex2(c.b)));
    assert forall|a: Seq<char>, b: Seq<char>| no_newline(a) && no_newline(b) implies #[trigger] no_newline(a + b) by {
        assert forall|i: int| 0 <= i < (a + b).len() implies #[trigger] (a + b)[i] != '\n' by {
            if i < a.len() {
                assert((a + b)[i] == a[i]);
            } else {
                assert((a + b)[i] == b[i - a.len()]);
            }
        }
    }
    assert(no_newline(seq![' ']));
    assert(no_newline(seq!['\t', '#']));
    assert(no_newline(pad3(c.r as nat) + seq![' ']));
    assert(no_newline(pad3(c.r as nat) + seq![' '] + pad3(c.g as nat)));
    assert(no_newline(pad3(c.r as nat) + seq![' '] + pad3(c.g as nat) + seq![' ']));
    assert(no_newline(pad3(c.r as nat) + seq![' '] + pad3(c.g as nat) + seq![' '] + pad3(c.b as nat)));
    assert(no_newline(pad3(c.r as nat) + seq![' '] + pad3(c.g as nat) + seq![' '] + pad3(c.b as nat) + seq!['\t', '#']));
    assert(no_newline(pad3(c.r as nat) + seq![' '] + pad3(c.g as nat) + seq![' '] + pad3(c.b as nat) + seq!['\t', '#'] + hex2(c.r)));
    assert(no_newline(pad3(c.r as nat) + seq![' '] + pad3(c.g as nat) + seq![' '] + pad3(c.b as nat) + seq!['\t', '#'] + hex2(c.r) + hex2(c.g)));
}

/// The lines of colors read back as those colors, after the ones read
/// already.
proof fn lemma_gather_colors(colors: Seq<Color>, k: int)
    requires
        colors.no_duplicates(),
        colors.len() <= MAX_PALETTE,
        forall|j: int| 0 <= j < colors.len() ==> (#[trigger] colors[j]).a == 255,
        0 <= k <= colors.len(),
    ensures
        gathered(
            colors.map_values(|c: Color| gpl_color_line(c)).subrange(k, colors.len() as int),
            colors.subrange(0, k),
        ) == colors,
    decreases colors.len() - k,
{
    let m = colors.map_values(|c: Color| gpl_color_line(c));
    let rest = m.subrange(k, colors.len() as int);
    if k == colors.len() {
        assert(colors.subrange(0, k) =~= colors);
    } else {
        lemma_gather_colors(colors, k + 1);
        let c = colors[k];
        assert(rest[0] == gpl_color_line(c));
        lemma_color_line_reads_back(c);
        assert(Color { a: 255, ..c } == c);
        assert(!colors.subrange(0, k).contains(c)) by {
            if colors.subrange(0, k).contains(c) {
                let j = choose|j: int| 0 <= j < k && colors.subrange(0, k)[j] == c;
                assert(colors[j] == colors[k]);
            }
        }
        assert(colors.subrange(0, k).push(c) =~= colors.subrange(0, k + 1));
        assert(rest.drop_first() =~= m.subrange(k + 1, colors.len() as int));
    }
}

/// Reading what `to_gpl` writes gives back the palette: opaque colors,
/// none twice, from one to `MAX_PALETTE` of them, written under a name
/// without a newline, read back as the same colors in the same order.
pub proof fn lemma_gpl_round_trip(colors: Seq<Color>, name: Seq<char>)
    requires
        colors.no_duplicates(),
        1 <= colors.len() <= MAX_PALETTE,
        forall|k: int| 0 <= k < colors.len() ==> (#[trigger] colors[k]).a == 255,
        forall|i: int| 0 <= i < name.len() ==> #[trigger] name[i] != '\n',
    ensures
        parsed_gpl(gpl_text(colors, name)) == Ok::<Seq<Color>, PaletteError>(colors),
{
    let pre = preamble_lines(name);
    let m = colors.map_values(|c: Color| gpl_color_line(c));
    let ls = pre + m;
    lemma_text_joined(colors, name);
    assert(no_newline(gpl_header()));
    let name_line = seq!['N', 'a', 'm', 'e', ':', ' '] + name;
    assert(no_newline(name_line)) by {
        assert forall|i: int| 0 <= i < name_line.len() implies #[trigger] name_line[i] != '\n' by {
            if i >= 6 {
                assert(name_line[i] == name[i - 6]);
            }
        }
    }
    let columns = seq!['C', 'o', 'l', 'u', 'm', 'n', 's', ':', ' ', '8'];
    assert(no_newline(columns));
    assert forall|k: int, i: int| 0 <= k < ls.len() && 0 <= i < ls[k].len() implies #[trigger] ls[k][i] != '\n' by {
        if k == 0 {
            assert(ls[k] == gpl_header());
        } else if k == 1 {
            assert(ls[k] == name_line);
        } else if k == 2 {
            assert(ls[k] == columns);
        } else if k == 3 {
            assert(ls[k] == seq!['#']);
        } else {
            assert(ls[k] == gpl_color_line(colors[k - 4]));
            lemma_color_line_no_newline(colors[k - 4]);
        }
    }
    lemma_lines_joined(ls);
    let lines = text_lines(gpl_text(colors, name));
    assert(lines == ls);
    // The header.
    assert(trim_start_by(gpl_header(), |c: char| is_white_space(c)) == gpl_header());
    let ws = |c: char| is_white_space(c);
    assert(trim_end_by(gpl_header(), ws) == gpl_header());
    assert(trim(lines[0]) == gpl_header());
    assert(gpl_header().is_prefix_of(trim(lines[0]))) by {
        assert(gpl_header().subrange(0, gpl_header().len() as int) =~= gpl_header());
    }
    // The name, the columns and the comment give no color.
    let rest = lines.drop_first();
    lemma_trim_keeps_first(name_line);
    lemma_no_color(trim(name_line));
    lemma_trim_keeps_first(columns);
    lemma_no_color(trim(columns));
    assert(trim_start_by(seq!['#'], ws) == seq!['#']);
    assert(trim_end_by(seq!['#'], ws) == seq!['#']);
    assert(rest[0] == name_line);
    assert(rest[1] == columns);
    assert(rest[2] == seq!['#']);
    let e = Seq::<Color>::empty();
    assert(gathered(rest, e) == gathered(rest.drop_first(), e));
    assert(rest.drop_first()[0] == columns);
    assert(gathered(rest.drop_first(), e) == gathered(rest.drop_first().drop_first(), e));
    assert(rest.drop_first().drop_first()[0] == seq!['#']);
    assert(gathered(rest.drop_first().drop_first(), e) == gathered(
        rest.drop_first().drop_first().drop_first(),
        e,
    ));
    assert(rest.drop_first().drop_first().drop_first() =~= m.subrange(0, colors.len() as int));
    lemma_gather_colors(colors, 0);
    assert(colors.subrange(0, 0) =~= e);
}


/// Whether key `ka` at index `ia` comes before key `kb` at index `ib`: by
/// key, and by index where the keys are equal.
pub open spec fn before(ka: int, ia: int, kb: int, ib: int) -> bool {
    ka < kb || (ka == kb && ia < ib)
}

/// Whether `perm` lists the indices of `keys` by key, equal keys in index
/// order.
pub open spec fn is_stable_order(keys: Seq<i32>, perm: Seq<int>) -> bool {
    &&& perm.len() == keys.len()
    &&& forall|i: int| 0 <= i < perm.len() ==> 0 <= #[trigger] perm[i] < keys.len()
    &&& forall|i: int, j: int|
        0 <= i < j < perm.len() ==> before(
            keys[perm[i]] as int,
            perm[i],
            keys[perm[j]] as int,
            perm[j],
        )
}

/// Whether the pairs of key and index are listed in order from `lo` up to
/// `hi`, leaving out the one at `skip`.
spec fn ordered_pairs(ps: Seq<(i32, usize)>, lo: int, hi: int, skip: int) -> bool {
    forall|a: int, b: int|
        lo <= a < b < hi && a != skip && b != skip ==> before(
            (#[trigger] ps[a]).0 as int,
            ps[a].1 as int,
            (#[trigger] ps[b]).0 as int,
            ps[b].1 as int,
        )
}

impl Palette {
    /// Orders the colors by key, `keys[i]` being the key of the `i`th color;
    /// colors with equal keys keep their order.
    pub fn sort_by_keys(&mut self, keys: &Vec<i32>)
        requires
            keys@.len() == old(self)@.len(),
        ensures
            exists|perm: Seq<int>|
                is_stable_order(keys@, perm) && final(self)@ == perm.map_values(
                    |j: int| old(self)@[j],
                ),
    {
        proof {
            use_type_invariant(&*self);
        }
        let ghost start = self@;
        let n = keys.len();
        let mut ps: Vec<(i32, usize)> = Vec::new();
        let mut k: usize = 0;
        while k < n
            invariant
                n == keys@.len(),
                0 <= k <= n,
                ps@.len() == k,
                forall|a: int| 0 <= a < k ==> (#[trigger] ps@[a]) == (keys@[a], a as usize),
            decreases n - k,
        {
            ps.push((keys[k], k));
            k = k + 1;
        }
        let mut i: usize = 1;
        while i < n
            invariant
                n == keys@.len(),
                ps@.len() == n,
                1 <= i || n == 0,
                i <= n || n == 0,
                forall|a: int|
                    0 <= a < n ==> (#[trigger] ps@[a]).1 < n && ps@[a].0 == keys@[ps@[a].1 as int],
                forall|a: int, b: int| 0 <= a < b < n ==> (#[trigger] ps@[a]).1 != (#[trigger] ps@[b]).1,
                ordered_pairs(ps@, 0, i as int, -1),
            decreases n - i,
        {
            let mut j: usize = i;
            while j > 0 && (ps[j].0 < ps[j - 1].0 || (ps[j].0 == ps[j - 1].0 && ps[j].1 < ps[j - 1].1))
                invariant
                    n == keys@.len(),
                    ps@.len() == n,
                    0 <= j <= i < n,
                    forall|a: int|
                        0 <= a < n ==> (#[trigger] ps@[a]).1 < n && ps@[a].0 == keys@[ps@[a].1 as int],
                    forall|a: int, b: int|
                        0 <= a < b < n ==> (#[trigger] ps@[a]).1 != (#[trigger] ps@[b]).1,
                    ordered_pairs(ps@, 0, i + 1, j as int),
                    forall|b: int|
                        j < b <= i ==> before(
                            ps@[j as int].0 as int,
                            ps@[j as int].1 as int,
                            (#[trigger] ps@[b]).0 as int,
                            ps@[b].1 as int,
                        ),
                decreases j,
            {
                let x = ps[j];
                let y = ps[j - 1];
                let ghost before_swap = ps@;
                ps.set(j - 1, x);
                ps.set(j, y);
                proof {
                    assert(ps@ == before_swap.update(j - 1, x).update(j as int, y));
                    assert forall|a: int, b: int|
                        0 <= a < b < n implies (#[trigger] ps@[a]).1 != (#[trigger] ps@[b]).1 by {
                        let sa = if a == j - 1 { j as int } else if a == j { j - 1 } else { a };
                        let sb = if b == j - 1 { j as int } else if b == j { j - 1 } else { b };
                        assert(ps@[a] == before_swap[sa]);
                        assert(ps@[b] == before_swap[sb]);
                        if sa < sb {
                            assert(before_swap[sa].1 != before_swap[sb].1);
                        } else {
                            assert(before_swap[sb].1 != before_swap[sa].1);
                        }
                    }
                    assert forall|a: int| 0 <= a < n implies (#[trigger] ps@[a]).1 < n && ps@[a].0
                        == keys@[ps@[a].1 as int] by {
                        let sa = if a == j - 1 { j as int } else if a == j { j - 1 } else { a };
                        assert(ps@[a] == before_swap[sa]);
                    }
                    assert forall|a: int, b: int|
                        0 <= a < b < i + 1 && a != j - 1 && b != j - 1 implies before(
                            (#[trigger] ps@[a]).0 as int,
                            ps@[a].1 as int,
                            (#[trigger] ps@[b]).0 as int,
                            ps@[b].1 as int,
                        ) by {
                        let sa = if a == j { j - 1 } else { a };
                        let sb = if b == j { j - 1 } else { b };
                        assert(ps@[a] == before_swap[sa]);
                        assert(ps@[b] == before_swap[sb]);
                        assert(before(
                            before_swap[sa].0 as int,
                            before_swap[sa].1 as int,
                            before_swap[sb].0 as int,
                            before_swap[sb].1 as int,
                        ));
                    }
                    assert forall|b: int| j - 1 < b <= i implies before(
                        ps@[j - 1].0 as int,
                        ps@[j - 1].1 as int,
                        (#[trigger] ps@[b]).0 as int,
                        ps@[b].1 as int,
                    ) by {
                        if b == j {
                            assert(ps@[b] == y);
                        } else {
                            assert(ps@[b] == before_swap[b]);
                        }
                    }
                }
                j = j - 1;
            }
            proof {
                assert forall|a: int, b: int|
                    0 <= a < b < i + 1 implies before(
                        (#[trigger] ps@[a]).0 as int,
                        ps@[a].1 as int,
                        (#[trigger] ps@[b]).0 as int,
                        ps@[b].1 as int,
                    ) by {
                    if b == j {
                        if a < j - 1 {
                            assert(before(
                                ps@[a].0 as int,
                                ps@[a].1 as int,
                                ps@[j - 1].0 as int,
                                ps@[j - 1].1 as int,
                            ));
                        }
                        assert(ps@[j - 1].1 != ps@[j as int].1);
                    } else if a == j {
                    } else if a < j && b > j {
                        assert(ps@[j - 1].1 != ps@[j as int].1);
                        if a < j - 1 {
                            assert(before(
                                ps@[a].0 as int,
                                ps@[a].1 as int,
                                ps@[j - 1].0 as int,
                                ps@[j - 1].1 as int,
                            ));
                        }
                    }
                }
            }
            i = i + 1;
        }
        let mut out: Vec<Color> = Vec::new();
        let mut m: usize = 0;
        while m < n
            invariant
                n == keys@.len(),
                n == start.len(),
                self@ == start,
                ps@.len() == n,
                0 <= m <= n,
                forall|a: int| 0 <= a < n ==> (#[trigger] ps@[a]).1 < n,
                out@.len() == m,
                forall|a: int| 0 <= a < m ==> #[trigger] out@[a] == start[ps@[a].1 as int],
            decreases n - m,
        {
            out.push(self.0[ps[m].1]);
            m = m + 1;
        }
        let ghost perm = ps@.map_values(|p: (i32, usize)| p.1 as int);
        proof {
            if n <= 1 {
                assert(ordered_pairs(ps@, 0, n as int, -1));
            }
            assert(out@ =~= perm.map_values(|j: int| start[j]));
            assert(is_stable_order(keys@, perm)) by {
                assert forall|a: int, b: int| 0 <= a < b < perm.len() implies before(
                    keys@[perm[a]] as int,
                    perm[a],
                    keys@[perm[b]] as int,
                    perm[b],
                ) by {
                    assert(ps@[a] == ps@[a]);
                    assert(ps@[b] == ps@[b]);
                }
            }
            assert(out@.no_duplicates()) by {
                assert forall|a: int, b: int| 0 <= a < out@.len() && 0 <= b < out@.len() && a != b implies out@[a]
                    != out@[b] by {
                    if a < b {
                        assert(ps@[a].1 != ps@[b].1);
                    } else {
                        assert(ps@[b].1 != ps@[a].1);
                    }
                }
            }
        }
        *self = Palette(out);
    }
}

} // verus!
