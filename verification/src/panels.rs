//! What the editor's windows hold and decide, apart from how they are
//! drawn: the export settings, the asset collection window, the start
//! screen and the menu bar.

use vstd::prelude::*;
use crate::export::{
    block_padded, content_box, cropped_view, double_until, enlarge_view, has_content,
    lemma_content_box_exists, lemma_double_until, next_power_of_two, next_power_of_two_spec,
    padded_view, prepare_view, remainder_to_spec, scaled_view, ExportOptions, Scale,
};
use crate::image::ImageView;
use crate::geom::Size;
use crate::text::{
    chars_of, decimal, decimal_digits, parse_unsigned, parsed_unsigned, string_of, trim, trim_chars,
};

verus! {

/// `a + b`, held within the range of an `i32`.
pub open spec fn saturating_sum(a: int, b: int) -> int {
    if a + b < i32::MIN {
        i32::MIN as int
    } else if a + b > i32::MAX {
        i32::MAX as int
    } else {
        a + b
    }
}

pub open spec fn abs(v: int) -> int {
    if v < 0 {
        -v
    } else {
        v
    }
}

/// `n / d` rounded towards zero, as integer division does.
pub open spec fn trunc_div(n: int, d: int) -> int {
    let q = abs(n) / abs(d);
    if (n < 0) != (d < 0) {
        -q
    } else {
        q
    }
}

/// Twice the padding, as the side of an export grows by it.
pub open spec fn padding_both_sides(o: ExportOptions) -> int {
    (o.padding as i32) * 2
}

/// The product of a padded side and the scale's numerator.
pub open spec fn scaled_up(side: int, o: ExportOptions) -> int {
    saturating_sum(side, padding_both_sides(o)) * (o.scale.up as i32)
}

/// A side of `size` once padded and scaled, a partial block of the
/// scale's denominator counting as a whole one.
pub open spec fn scaled_side(side: int, o: ExportOptions) -> int {
    trunc_div(scaled_up(side, o) + (o.scale.down as i32) - 1, (o.scale.down as i32) as int)
}

pub open spec fn fits_i32(v: int) -> bool {
    i32::MIN <= v <= i32::MAX
}

/// Whether working out a scaled side stays within an `i32`, with a
/// denominator to divide by.
pub open spec fn side_fits(side: int, o: ExportOptions) -> bool {
    &&& (o.scale.down as i32) != 0
    &&& fits_i32(scaled_up(side, o))
    &&& fits_i32(scaled_up(side, o) + (o.scale.down as i32))
    &&& fits_i32(scaled_up(side, o) + (o.scale.down as i32) - 1)
    &&& !(scaled_up(side, o) + (o.scale.down as i32) - 1 == i32::MIN && (o.scale.down as i32) == -1)
}

/// What an exported image of a canvas of `size` measures before trimming.
pub open spec fn resulting(size: Size, o: ExportOptions) -> Size {
    let (w, h) = (scaled_side(size.x as int, o), scaled_side(size.y as int, o));
    if o.power_of_two {
        Size { x: next_power_of_two_spec(w) as i32, y: next_power_of_two_spec(h) as i32 }
    } else {
        Size { x: w as i32, y: h as i32 }
    }
}

/// Padding `e` out to whole blocks of `d` and counting the blocks rounds
/// `e / d` up, as adding `d - 1` and dividing does.
proof fn lemma_whole_blocks(e: int, d: int)
    requires
        e >= 0,
        d >= 2,
    ensures
        (e + remainder_to_spec(e, d)) / d == trunc_div(e + d - 1, d),
{
    vstd::arithmetic::div_mod::lemma_fundamental_div_mod(e, d);
    let q = e / d;
    let r = e % d;
    assert(q * d == d * q) by (nonlinear_arith);
    assert((q + 1) * d == q * d + d) by (nonlinear_arith);
    if r == 0 {
        vstd::arithmetic::div_mod::lemma_fundamental_div_mod_converse(e + d - 1, d, q, d - 1);
    } else {
        vstd::arithmetic::div_mod::lemma_fundamental_div_mod_converse(e + d - r, d, q + 1, 0);
        vstd::arithmetic::div_mod::lemma_fundamental_div_mod_converse(e + d - 1, d, q + 1, r - 1);
    }
}

/// The sides of an image after the padding and scaling steps of preparing
/// it for export.
proof fn lemma_prepared_sides(o: ExportOptions, v: ImageView)
    requires
        v.w >= 0,
        v.h >= 0,
        o.padding <= i32::MAX,
        v.w + padding_both_sides(o) <= i32::MAX,
        v.h + padding_both_sides(o) <= i32::MAX,
        1 <= o.scale.up <= i32::MAX,
        1 <= o.scale.down <= i32::MAX,
    ensures
        scaled_view(padded_view(v, o), o).w == scaled_side(v.w, o),
        scaled_view(padded_view(v, o), o).h == scaled_side(v.h, o),
{
    let p = o.padding as int;
    let up = o.scale.up as int;
    let down = o.scale.down as int;
    let pv = padded_view(v, o);
    let pw = v.w + 2 * p;
    let ph = v.h + 2 * p;
    assert(pv.w == pw && pv.h == ph);
    assert(scaled_up(v.w, o) == pw * up);
    assert(scaled_up(v.h, o) == ph * up);
    assert(pw * up >= 0 && ph * up >= 0) by (nonlinear_arith)
        requires
            pw >= 0,
            ph >= 0,
            up >= 1,
    ;
    if up == down {
        vstd::arithmetic::div_mod::lemma_fundamental_div_mod_converse(pw * up + down - 1, down, pw, down - 1);
        vstd::arithmetic::div_mod::lemma_fundamental_div_mod_converse(ph * up + down - 1, down, ph, down - 1);
    } else {
        let e = enlarge_view(pv, up);
        if up <= 1 {
            assert(pw * up == pw && ph * up == ph) by (nonlinear_arith)
                requires
                    up == 1,
            ;
        }
        assert(e.w == pw * up && e.h == ph * up);
        if down >= 2 {
            lemma_whole_blocks(pw * up, down);
            lemma_whole_blocks(ph * up, down);
            assert(block_padded(e, down).w == pw * up + remainder_to_spec(pw * up, down));
            assert(block_padded(e, down).h == ph * up + remainder_to_spec(ph * up, down));
        } else {
            vstd::arithmetic::div_mod::lemma_fundamental_div_mod_converse(pw * up, 1, pw * up, 0);
            vstd::arithmetic::div_mod::lemma_fundamental_div_mod_converse(ph * up, 1, ph * up, 0);
        }
    }
}

/// A longer side stays at least as long once padded and scaled.
proof fn lemma_scaled_side_monotone(a: int, b: int, o: ExportOptions)
    requires
        0 <= a <= b,
        o.padding <= i32::MAX,
        b + padding_both_sides(o) <= i32::MAX,
        1 <= o.scale.up <= i32::MAX,
        1 <= o.scale.down <= i32::MAX,
    ensures
        0 <= scaled_side(a, o) <= scaled_side(b, o),
{
    let p = o.padding as int;
    let up = o.scale.up as int;
    let down = o.scale.down as int;
    let x = (a + 2 * p) * up + down - 1;
    let y = (b + 2 * p) * up + down - 1;
    assert(0 <= x <= y) by (nonlinear_arith)
        requires
            x == (a + 2 * p) * up + down - 1,
            y == (b + 2 * p) * up + down - 1,
            0 <= a <= b,
            p >= 0,
            up >= 1,
            down >= 1,
    ;
    assert(scaled_up(a, o) == (a + 2 * p) * up);
    assert(scaled_up(b, o) == (b + 2 * p) * up);
    vstd::arithmetic::div_mod::lemma_div_is_ordered(x, y, down);
    vstd::arithmetic::div_mod::lemma_div_pos_is_pos(x, down);
}

/// Doubling from `p` gives at least `p`, and more for a larger target.
proof fn lemma_double_until_monotone(p: int, a: int, b: int)
    requires
        p >= 1,
        a <= b,
    ensures
        p <= double_until(p, a) <= double_until(p, b),
    decreases (if p < b {
        b - p
    } else {
        0
    }),
{
    if p < a {
        lemma_double_until_monotone(2 * p, a, b);
    } else if p < b {
        lemma_double_until_monotone(2 * p, b, b);
    }
}

/// The next power of two grows with the value it is taken of.
proof fn lemma_next_power_of_two_monotone(a: int, b: int)
    requires
        a <= b,
    ensures
        1 <= next_power_of_two_spec(a) <= next_power_of_two_spec(b),
{
    if a > 1 {
        lemma_double_until_monotone(1, a, b);
    } else if b > 1 {
        lemma_double_until_monotone(1, b, b);
    }
}

/// Without trimming, what the export settings report an image will measure
/// is what preparing it for export makes of it.
pub proof fn lemma_resulting_size_is_prepared_size(v: ImageView, o: ExportOptions)
    requires
        !o.crop,
        v.w >= 0,
        v.h >= 0,
        o.padding <= i32::MAX,
        v.w + padding_both_sides(o) <= i32::MAX,
        v.h + padding_both_sides(o) <= i32::MAX,
        1 <= o.scale.up <= i32::MAX,
        1 <= o.scale.down <= i32::MAX,
        side_fits(v.w, o),
        side_fits(v.h, o),
        o.power_of_two ==> scaled_side(v.w, o) <= 0x4000_0000 && scaled_side(v.h, o) <= 0x4000_0000,
    ensures
        prepare_view(v, o, None).w == resulting(Size { x: v.w as i32, y: v.h as i32 }, o).x,
        prepare_view(v, o, None).h == resulting(Size { x: v.w as i32, y: v.h as i32 }, o).y,
{
    lemma_prepared_sides(o, v);
    let s = scaled_view(padded_view(v, o), o);
    if o.power_of_two {
        if s.w > 1 {
            lemma_double_until(1, s.w);
        }
        if s.h > 1 {
            lemma_double_until(1, s.h);
        }
    }
}

/// With trimming, what the export settings report an image will measure
/// bounds what preparing it for export makes of it: trimming can only take
/// away.
pub proof fn lemma_resulting_size_bounds_cropped_size(v: ImageView, o: ExportOptions)
    requires
        o.crop,
        v.wf(),
        o.padding <= i32::MAX,
        v.w + padding_both_sides(o) <= i32::MAX,
        v.h + padding_both_sides(o) <= i32::MAX,
        1 <= o.scale.up <= i32::MAX,
        1 <= o.scale.down <= i32::MAX,
        side_fits(v.w, o),
        side_fits(v.h, o),
        o.power_of_two ==> scaled_side(v.w, o) <= 0x4000_0000 && scaled_side(v.h, o) <= 0x4000_0000,
    ensures
        prepare_view(v, o, None).w <= resulting(Size { x: v.w as i32, y: v.h as i32 }, o).x,
        prepare_view(v, o, None).h <= resulting(Size { x: v.w as i32, y: v.h as i32 }, o).y,
{
    let c = cropped_view(v, o, None);
    if has_content(v) {
        lemma_content_box_exists(v);
        assert(c.w == content_box(v).w && c.h == content_box(v).h);
    }
    assert(0 <= c.w <= v.w && 0 <= c.h <= v.h);
    lemma_prepared_sides(o, c);
    lemma_scaled_side_monotone(c.w, v.w, o);
    lemma_scaled_side_monotone(c.h, v.h, o);
    let s = scaled_view(padded_view(c, o), o);
    if o.power_of_two {
        lemma_next_power_of_two_monotone(s.w, scaled_side(v.w, o));
        lemma_next_power_of_two_monotone(s.h, scaled_side(v.h, o));
        let sw = scaled_side(v.w, o);
        let sh = scaled_side(v.h, o);
        if sw > 1 {
            lemma_double_until(1, sw);
        }
        if sh > 1 {
            lemma_double_until(1, sh);
        }
    }
}

fn saturating_add(a: i32, b: i32) -> (r: i32)
    ensures
        r == saturating_sum(a as int, b as int),
{
    let s = a as i64 + b as i64;
    if s < i32::MIN as i64 {
        i32::MIN
    } else if s > i32::MAX as i64 {
        i32::MAX
    } else {
        s as i32
    }
}

fn divide_toward_zero(n: i32, d: i32) -> (q: i32)
    requires
        d != 0,
        !(n == i32::MIN && d == -1),
    ensures
        q == trunc_div(n as int, d as int),
{
    let an: u64 = if n < 0 { (-(n as i64)) as u64 } else { n as u64 };
    let ad: u64 = if d < 0 { (-(d as i64)) as u64 } else { d as u64 };
    let m = an / ad;
    proof {
        vstd::arithmetic::div_mod::lemma_div_nonincreasing(an as int, ad as int);
        vstd::arithmetic::div_mod::lemma_div_pos_is_pos(an as int, ad as int);
        vstd::arithmetic::div_mod::lemma_div_basics(an as int);
        if an == 0x8000_0000 && ad >= 2 {
            assert(ad >= 2);
            vstd::arithmetic::div_mod::lemma_div_is_ordered_by_denominator(an as int, 2, ad as int);
        }
    }
    if (n < 0) != (d < 0) {
        -(m as i64) as i32
    } else {
        m as i32
    }
}

/// The export options, and the half typed texts of the fields that set
/// them.
#[derive(Debug)]
pub struct ExportSettings {
    pub options: ExportOptions,
    pub padding_str: String,
    pub up_str: String,
    pub down_str: String,
}

impl ExportSettings {
    /// Default options: no trimming, no padding, no scaling.
    pub fn new() -> (s: ExportSettings)
        ensures
            s.options == (ExportOptions {
                crop: false,
                padding: 0,
                scale: Scale { up: 1, down: 1 },
                power_of_two: false,
            }),
            s.padding_str@ == "0"@,
            s.up_str@ == "1"@,
            s.down_str@ == "1"@,
    {
        ExportSettings {
            options: ExportOptions::default(),
            padding_str: "0".to_owned(),
            up_str: "1".to_owned(),
            down_str: "1".to_owned(),
        }
    }

    /// What the exported image will measure, given the size it starts at:
    /// padded, scaled with partial blocks padded out rather than split, and
    /// grown to powers of two where asked. Trimming depends on what is
    /// drawn, so with it on the real size can only be smaller.
    pub fn resulting_size(&self, size: Size) -> (r: Size)
        requires
            fits_i32(padding_both_sides(self.options)),
            side_fits(size.x as int, self.options),
            side_fits(size.y as int, self.options),
            self.options.power_of_two ==> scaled_side(size.x as int, self.options) <= 0x4000_0000
                && scaled_side(size.y as int, self.options) <= 0x4000_0000,
        ensures
            r == resulting(size, self.options),
    {
        let padding = (self.options.padding as i32) * 2;
        let up = self.options.scale.up as i32;
        let down = self.options.scale.down as i32;
        let sx = saturating_add(size.x, padding);
        let sy = saturating_add(size.y, padding);
        assert(fits_i32(sx * up) && fits_i32(sy * up));
        let ux = sx * up;
        let uy = sy * up;
        let mut w = divide_toward_zero(ux + down - 1, down);
        let mut h = divide_toward_zero(uy + down - 1, down);
        if self.options.power_of_two {
            w = next_power_of_two(w);
            h = next_power_of_two(h);
        }
        Size::new(w, h)
    }

    /// Picks a scale, and shows it in the custom fields.
    pub fn set_scale(&mut self, up: u32, down: u32)
        ensures
            final(self).options.scale == (Scale {
                up: if up == 0 {
                    1
                } else {
                    up
                },
                down: if down == 0 {
                    1
                } else {
                    down
                },
            }),
            final(self).options.crop == old(self).options.crop,
            final(self).options.padding == old(self).options.padding,
            final(self).options.power_of_two == old(self).options.power_of_two,
            final(self).padding_str == old(self).padding_str,
            final(self).up_str@ == decimal(up as nat),
            final(self).down_str@ == decimal(down as nat),
    {
        self.options.scale = Scale::new(up, down);
        let u = decimal_digits(up as usize);
        let d = decimal_digits(down as usize);
        self.up_str = string_of(u.as_slice());
        self.down_str = string_of(d.as_slice());
    }

    /// Takes a new text for the padding field; the padding follows it
    /// whenever it reads as a number.
    pub fn edit_padding(&mut self, text: String)
        ensures
            final(self).padding_str == text,
            final(self).options.padding == match parsed_unsigned(text@, u32::MAX as int) {
                Some(v) => v as u32,
                None => old(self).options.padding,
            },
            final(self).options.crop == old(self).options.crop,
            final(self).options.scale == old(self).options.scale,
            final(self).options.power_of_two == old(self).options.power_of_two,
            final(self).up_str == old(self).up_str,
            final(self).down_str == old(self).down_str,
    {
        if let Some(padding) = parse_unsigned(text.as_str(), u32::MAX) {
            self.options.padding = padding;
        }
        self.padding_str = text;
    }

    /// Takes new texts for the custom scale fields; the scale follows them
    /// whenever both read as numbers.
    pub fn edit_scale(&mut self, up_text: String, down_text: String)
        ensures
            final(self).up_str == up_text,
            final(self).down_str == down_text,
            final(self).options.scale == if parsed_unsigned(up_text@, u32::MAX as int) is Some
                && parsed_unsigned(down_text@, u32::MAX as int) is Some {
                Scale {
                    up: if parsed_unsigned(up_text@, u32::MAX as int)->0 == 0 {
                        1
                    } else {
                        parsed_unsigned(up_text@, u32::MAX as int)->0 as u32
                    },
                    down: if parsed_unsigned(down_text@, u32::MAX as int)->0 == 0 {
                        1
                    } else {
                        parsed_unsigned(down_text@, u32::MAX as int)->0 as u32
                    },
                }
            } else {
                old(self).options.scale
            },
            final(self).options.crop == old(self).options.crop,
            final(self).options.padding == old(self).options.padding,
            final(self).options.power_of_two == old(self).options.power_of_two,
            final(self).padding_str == old(self).padding_str,
    {
        let up = parse_unsigned(up_text.as_str(), u32::MAX);
        let down = parse_unsigned(down_text.as_str(), u32::MAX);
        if let (Some(u), Some(d)) = (up, down) {
            self.options.scale = Scale::new(u, d);
        }
        self.up_str = up_text;
        self.down_str = down_text;
    }
}

/// Whether `id` was selected in `old`: as its first entry says, and
/// selected where it was not listed.
pub open spec fn prior_selection(old: Seq<(Seq<char>, bool)>, id: Seq<char>) -> bool
    decreases old.len(),
{
    if old.len() == 0 {
        true
    } else if old[0].0 == id {
        old[0].1
    } else {
        prior_selection(old.drop_first(), id)
    }
}

/// The checkboxes for `ids`, each keeping the state it had in `old`.
pub open spec fn synced_checks(old: Seq<(Seq<char>, bool)>, ids: Seq<Seq<char>>) -> Seq<
    (Seq<char>, bool),
> {
    ids.map_values(|id: Seq<char>| (id, prior_selection(old, id)))
}

/// The ids whose boxes are checked, in order.
pub open spec fn checked_ids(values: Seq<(Seq<char>, bool)>) -> Seq<Seq<char>>
    decreases values.len(),
{
    if values.len() == 0 {
        seq![]
    } else if values.last().1 {
        checked_ids(values.drop_last()).push(values.last().0)
    } else {
        checked_ids(values.drop_last())
    }
}

pub open spec fn checks_view(v: Seq<(String, bool)>) -> Seq<(Seq<char>, bool)> {
    v.map_values(|e: (String, bool)| (e.0@, e.1))
}

pub open spec fn strings_view(v: Seq<String>) -> Seq<Seq<char>> {
    v.map_values(|s: String| s@)
}

/// The project rows as checkboxes: id and whether it is checked.
pub open spec fn project_checks(v: Seq<(String, String, bool)>) -> Seq<(Seq<char>, bool)> {
    v.map_values(|e: (String, String, bool)| (e.0@, e.2))
}

fn prior(old: &Vec<(String, bool)>, id: &String) -> (b: bool)
    ensures
        b == prior_selection(checks_view(old@), id@),
{
    let ghost o = checks_view(old@);
    let mut i: usize = 0;
    assert(o.subrange(0, o.len() as int) =~= o);
    while i < old.len()
        invariant
            o == checks_view(old@),
            0 <= i <= old@.len(),
            prior_selection(o, id@) == prior_selection(o.subrange(i as int, o.len() as int), id@),
        decreases old@.len() - i,
    {
        proof {
            let rest = o.subrange(i as int, o.len() as int);
            assert(rest.drop_first() =~= o.subrange(i + 1, o.len() as int));
            assert(rest[0] == o[i as int]);
        }
        if old[i].0 == *id {
            return old[i].1;
        }
        i = i + 1;
    }
    true
}

/// Refreshes a list of checkboxes for a new list of ids: an id keeps the
/// state it had, and a new one starts checked.
pub fn sync_checks(values: &mut Vec<(String, bool)>, ids: Vec<String>)
    ensures
        checks_view(final(values)@) == synced_checks(checks_view(old(values)@), strings_view(ids@)),
{
    let mut next: Vec<(String, bool)> = Vec::new();
    let mut i: usize = 0;
    while i < ids.len()
        invariant
            0 <= i <= ids@.len(),
            checks_view(next@) == synced_checks(
                checks_view(values@),
                strings_view(ids@.subrange(0, i as int)),
            ),
            values@ == old(values)@,
        decreases ids@.len() - i,
    {
        let id = ids[i].clone();
        let selected = prior(values, &id);
        let ghost before = next@;
        next.push((id, selected));
        proof {
            assert(checks_view(next@) =~= checks_view(before).push((ids@[i as int]@, selected)));
            assert(strings_view(ids@.subrange(0, i + 1)) =~= strings_view(ids@.subrange(0, i as int)).push(
                ids@[i as int]@,
            ));
        }
        i = i + 1;
    }
    proof {
        assert(ids@.subrange(0, ids@.len() as int) =~= ids@);
    }
    *values = next;
}

/// Checks or unchecks every box.
pub fn set_all(values: &mut Vec<(String, bool)>, selected: bool)
    ensures
        checks_view(final(values)@) == checks_view(old(values)@).map_values(
            |e: (Seq<char>, bool)| (e.0, selected),
        ),
{
    let mut next: Vec<(String, bool)> = Vec::new();
    let mut i: usize = 0;
    while i < values.len()
        invariant
            0 <= i <= values@.len(),
            values@ == old(values)@,
            checks_view(next@) == checks_view(values@).subrange(0, i as int).map_values(
                |e: (Seq<char>, bool)| (e.0, selected),
            ),
        decreases values@.len() - i,
    {
        let id = values[i].0.clone();
        let ghost before = next@;
        next.push((id, selected));
        proof {
            assert(checks_view(next@) =~= checks_view(before).push((values@[i as int].0@, selected)));
            assert(checks_view(values@).subrange(0, i + 1).map_values(
                |e: (Seq<char>, bool)| (e.0, selected),
            ) =~= checks_view(values@).subrange(0, i as int).map_values(
                |e: (Seq<char>, bool)| (e.0, selected),
            ).push((values@[i as int].0@, selected)));
        }
        i = i + 1;
    }
    proof {
        assert(checks_view(values@).subrange(0, values@.len() as int) =~= checks_view(values@));
    }
    *values = next;
}

fn push_checked(out: &mut Vec<String>, values: &Vec<(String, bool)>)
    ensures
        strings_view(final(out)@) == strings_view(old(out)@) + checked_ids(checks_view(values@)),
{
    let ghost start = strings_view(out@);
    let mut i: usize = 0;
    while i < values.len()
        invariant
            0 <= i <= values@.len(),
            strings_view(out@) == start + checked_ids(checks_view(values@).subrange(0, i as int)),
        decreases values@.len() - i,
    {
        let ghost before = out@;
        proof {
            assert(checks_view(values@).subrange(0, i + 1).drop_last() =~= checks_view(values@).subrange(
                0,
                i as int,
            ));
        }
        if values[i].1 {
            out.push(values[i].0.clone());
            proof {
                assert(strings_view(out@) =~= strings_view(before).push(values@[i as int].0@));
            }
        }
        i = i + 1;
    }
    proof {
        assert(checks_view(values@).subrange(0, values@.len() as int) =~= checks_view(values@));
    }
}

/// The ids of the checked outputs, then of the checked projects.
pub fn selected_ids(assets: &Vec<(String, bool)>, projects: &Vec<(String, String, bool)>) -> (r: Vec<
    String,
>)
    ensures
        strings_view(r@) == checked_ids(checks_view(assets@)) + checked_ids(
            project_checks(projects@),
        ),
{
    let mut out: Vec<String> = Vec::new();
    push_checked(&mut out, assets);
    let mut rows: Vec<(String, bool)> = Vec::new();
    let mut i: usize = 0;
    while i < projects.len()
        invariant
            0 <= i <= projects@.len(),
            checks_view(rows@) == project_checks(projects@).subrange(0, i as int),
        decreases projects@.len() - i,
    {
        let ghost before = rows@;
        rows.push((projects[i].0.clone(), projects[i].2));
        proof {
            assert(checks_view(rows@) =~= checks_view(before).push(
                (projects@[i as int].0@, projects@[i as int].2),
            ));
            assert(project_checks(projects@).subrange(0, i + 1) =~= project_checks(projects@).subrange(
                0,
                i as int,
            ).push((projects@[i as int].0@, projects@[i as int].2)));
        }
        i = i + 1;
    }
    proof {
        assert(project_checks(projects@).subrange(0, projects@.len() as int) =~= project_checks(
            projects@,
        ));
        assert(strings_view(out@) =~= Seq::<Seq<char>>::empty() + checked_ids(checks_view(assets@)));
    }
    push_checked(&mut out, &rows);
    out
}

/// A reusable element of a collection, as its window lists it.
#[derive(Debug)]
pub struct ElementSummary {
    pub id: String,
    pub name: String,
}

/// What the collection window shows of an open collection.
#[derive(Debug)]
pub struct CollectionSync {
    pub name: String,
    pub active_project: Option<String>,
    pub elements: Vec<ElementSummary>,
    pub assets: Vec<String>,
    /// Id and name of each editable project.
    pub projects: Vec<(String, String)>,
}

/// The asset collection window: its lists, which outputs and projects are
/// checked for export, and the half typed fields of its forms.
#[derive(Debug)]
pub struct CollectionWindow {
    pub open: bool,
    pub name: String,
    pub assets: Vec<(String, bool)>,
    pub projects: Vec<(String, String, bool)>,
    pub active_project: Option<String>,
    pub elements: Vec<(String, String)>,
    pub adding_project: bool,
    pub adding_element: bool,
    pub new_name: String,
    pub new_width: String,
    pub new_height: String,
    pub new_element_name: String,
}

pub open spec fn pairs_view(v: Seq<(String, String)>) -> Seq<(Seq<char>, Seq<char>)> {
    v.map_values(|e: (String, String)| (e.0@, e.1@))
}

pub open spec fn rows_view(v: Seq<(String, String, bool)>) -> Seq<(Seq<char>, Seq<char>, bool)> {
    v.map_values(|e: (String, String, bool)| (e.0@, e.1@, e.2))
}

/// The project rows for `projects`, each keeping the check it had in
/// `old`.
pub open spec fn synced_rows(old: Seq<(Seq<char>, bool)>, projects: Seq<(String, String)>) -> Seq<
    (Seq<char>, Seq<char>, bool),
> {
    projects.map_values(|p: (String, String)| (p.0@, p.1@, prior_selection(old, p.0@)))
}

/// The dimension a size field gives: a number from 1 to 65535.
pub open spec fn dimension(text: Seq<char>) -> Option<int> {
    match parsed_unsigned(text, u16::MAX as int) {
        Some(v) => if v > 0 {
            Some(v)
        } else {
            None
        },
        None => None,
    }
}

/// Whether the form fields `a` and `b` are unchanged from `w` to `v`.
pub open spec fn forms_unchanged(v: CollectionWindow, w: CollectionWindow) -> bool {
    &&& v.adding_project == w.adding_project
    &&& v.adding_element == w.adding_element
    &&& v.new_name == w.new_name
    &&& v.new_width == w.new_width
    &&& v.new_height == w.new_height
    &&& v.new_element_name == w.new_element_name
}

impl CollectionWindow {
    /// A closed window with nothing in it, and forms preset to a 64 by 64
    /// asset.
    pub fn new() -> (w: CollectionWindow)
        ensures
            !w.open,
            w.name@.len() == 0,
            w.assets@.len() == 0,
            w.projects@.len() == 0,
            w.active_project is None,
            w.elements@.len() == 0,
            !w.adding_project,
            !w.adding_element,
            w.new_name@ == "New Asset"@,
            w.new_width@ == "64"@,
            w.new_height@ == "64"@,
            w.new_element_name@ == "New Element"@,
    {
        CollectionWindow {
            open: false,
            name: String::new(),
            assets: Vec::new(),
            projects: Vec::new(),
            active_project: None,
            elements: Vec::new(),
            adding_project: false,
            adding_element: false,
            new_name: "New Asset".to_owned(),
            new_width: "64".to_owned(),
            new_height: "64".to_owned(),
            new_element_name: "New Element".to_owned(),
        }
    }

    /// Shows the window.
    pub fn open(&mut self)
        ensures
            final(self).open,
            final(self).name == old(self).name,
            final(self).assets == old(self).assets,
            final(self).projects == old(self).projects,
            final(self).active_project == old(self).active_project,
            final(self).elements == old(self).elements,
            forms_unchanged(*final(self), *old(self)),
    {
        self.open = true;
    }

    /// Takes in the collection as it now is. Outputs and projects keep the
    /// check they had, and new ones start checked; without a collection the
    /// window closes and empties.
    pub fn sync(&mut self, collection: Option<CollectionSync>)
        ensures
            forms_unchanged(*final(self), *old(self)),
            collection is None ==> {
                &&& !final(self).open
                &&& final(self).name@.len() == 0
                &&& final(self).assets@.len() == 0
                &&& final(self).projects@.len() == 0
                &&& final(self).active_project is None
                &&& final(self).elements@.len() == 0
            },
            collection is Some ==> {
                let c = collection->0;
                &&& final(self).open == old(self).open
                &&& final(self).name == c.name
                &&& final(self).active_project == c.active_project
                &&& pairs_view(final(self).elements@) == c.elements@.map_values(
                    |e: ElementSummary| (e.id@, e.name@),
                )
                &&& checks_view(final(self).assets@) == synced_checks(
                    checks_view(old(self).assets@),
                    strings_view(c.assets@),
                )
                &&& rows_view(final(self).projects@) == synced_rows(
                    project_checks(old(self).projects@),
                    c.projects@,
                )
            },
    {
        match collection {
            None => {
                self.open = false;
                self.name = String::new();
                self.assets = Vec::new();
                self.projects = Vec::new();
                self.active_project = None;
                self.elements = Vec::new();
            },
            Some(c) => {
                let CollectionSync { name, active_project, elements, assets, projects } = c;
                self.name = name;
                self.active_project = active_project;
                let mut rows: Vec<(String, String)> = Vec::new();
                let mut i: usize = 0;
                while i < elements.len()
                    invariant
                        0 <= i <= elements@.len(),
                        pairs_view(rows@) == elements@.subrange(0, i as int).map_values(
                            |e: ElementSummary| (e.id@, e.name@),
                        ),
                    decreases elements@.len() - i,
                {
                    let ghost before = rows@;
                    rows.push((elements[i].id.clone(), elements[i].name.clone()));
                    proof {
                        assert(pairs_view(rows@) =~= pairs_view(before).push(
                            (elements@[i as int].id@, elements@[i as int].name@),
                        ));
                        assert(elements@.subrange(0, i + 1).map_values(
                            |e: ElementSummary| (e.id@, e.name@),
                        ) =~= elements@.subrange(0, i as int).map_values(
                            |e: ElementSummary| (e.id@, e.name@),
                        ).push((elements@[i as int].id@, elements@[i as int].name@)));
                    }
                    i = i + 1;
                }
                proof {
                    assert(elements@.subrange(0, elements@.len() as int) =~= elements@);
                }
                self.elements = rows;
                let mut checks: Vec<(String, bool)> = Vec::new();
                std::mem::swap(&mut checks, &mut self.assets);
                sync_checks(&mut checks, assets);
                self.assets = checks;
                let mut old_rows: Vec<(String, bool)> = Vec::new();
                let mut k: usize = 0;
                while k < self.projects.len()
                    invariant
                        0 <= k <= self.projects@.len(),
                        self.projects == old(self).projects,
                        checks_view(old_rows@) == project_checks(self.projects@).subrange(
                            0,
                            k as int,
                        ),
                    decreases self.projects@.len() - k,
                {
                    let ghost before = old_rows@;
                    old_rows.push((self.projects[k].0.clone(), self.projects[k].2));
                    proof {
                        assert(checks_view(old_rows@) =~= checks_view(before).push(
                            (self.projects@[k as int].0@, self.projects@[k as int].2),
                        ));
                        assert(project_checks(self.projects@).subrange(0, k + 1)
                            =~= project_checks(self.projects@).subrange(0, k as int).push(
                            (self.projects@[k as int].0@, self.projects@[k as int].2),
                        ));
                    }
                    k = k + 1;
                }
                proof {
                    assert(project_checks(self.projects@).subrange(0, self.projects@.len() as int)
                        =~= project_checks(self.projects@));
                }
                let mut next: Vec<(String, String, bool)> = Vec::new();
                let mut j: usize = 0;
                while j < projects.len()
                    invariant
                        0 <= j <= projects@.len(),
                        checks_view(old_rows@) == project_checks(old(self).projects@),
                        rows_view(next@) == synced_rows(
                            checks_view(old_rows@),
                            projects@.subrange(0, j as int),
                        ),
                    decreases projects@.len() - j,
                {
                    let id = projects[j].0.clone();
                    let selected = prior(&old_rows, &id);
                    let ghost before = next@;
                    next.push((id, projects[j].1.clone(), selected));
                    proof {
                        assert(rows_view(next@) =~= rows_view(before).push(
                            (projects@[j as int].0@, projects@[j as int].1@, selected),
                        ));
                        assert(synced_rows(checks_view(old_rows@), projects@.subrange(0, j + 1))
                            =~= synced_rows(
                            checks_view(old_rows@),
                            projects@.subrange(0, j as int),
                        ).push((projects@[j as int].0@, projects@[j as int].1@, selected)));
                    }
                    j = j + 1;
                }
                proof {
                    assert(projects@.subrange(0, projects@.len() as int) =~= projects@);
                }
                self.projects = next;
            },
        }
    }

    /// Checks or unchecks every output and every project.
    pub fn select_everything(&mut self, selected: bool)
        ensures
            checks_view(final(self).assets@) == checks_view(old(self).assets@).map_values(
                |e: (Seq<char>, bool)| (e.0, selected),
            ),
            rows_view(final(self).projects@) == rows_view(old(self).projects@).map_values(
                |e: (Seq<char>, Seq<char>, bool)| (e.0, e.1, selected),
            ),
            final(self).open == old(self).open,
            final(self).name == old(self).name,
            final(self).active_project == old(self).active_project,
            final(self).elements == old(self).elements,
            forms_unchanged(*final(self), *old(self)),
    {
        let mut checks: Vec<(String, bool)> = Vec::new();
        std::mem::swap(&mut checks, &mut self.assets);
        set_all(&mut checks, selected);
        self.assets = checks;
        let mut next: Vec<(String, String, bool)> = Vec::new();
        let mut i: usize = 0;
        while i < self.projects.len()
            invariant
                0 <= i <= self.projects@.len(),
                self.projects == old(self).projects,
                rows_view(next@) == rows_view(self.projects@).subrange(0, i as int).map_values(
                    |e: (Seq<char>, Seq<char>, bool)| (e.0, e.1, selected),
                ),
            decreases self.projects@.len() - i,
        {
            let ghost before = next@;
            next.push((self.projects[i].0.clone(), self.projects[i].1.clone(), selected));
            proof {
                assert(rows_view(next@) =~= rows_view(before).push(
                    (self.projects@[i as int].0@, self.projects@[i as int].1@, selected),
                ));
                assert(rows_view(self.projects@).subrange(0, i + 1).map_values(
                    |e: (Seq<char>, Seq<char>, bool)| (e.0, e.1, selected),
                ) =~= rows_view(self.projects@).subrange(0, i as int).map_values(
                    |e: (Seq<char>, Seq<char>, bool)| (e.0, e.1, selected),
                ).push((self.projects@[i as int].0@, self.projects@[i as int].1@, selected)));
            }
            i = i + 1;
        }
        proof {
            assert(rows_view(self.projects@).subrange(0, self.projects@.len() as int) =~= rows_view(
                self.projects@,
            ));
        }
        self.projects = next;
    }

    /// The project that creating one from the form would make: its trimmed
    /// name and its size, where the name is not blank and both sizes are
    /// numbers from 1 to 65535.
    pub fn new_project_request(&self) -> (r: Option<(String, u16, u16)>)
        ensures
            r is Some <==> (trim(self.new_name@).len() > 0 && dimension(self.new_width@) is Some
                && dimension(self.new_height@) is Some),
            r is Some ==> {
                let (n, w, h) = r->0;
                &&& n@ == trim(self.new_name@)
                &&& w == dimension(self.new_width@)->0
                &&& h == dimension(self.new_height@)->0
            },
    {
        let name = trim_chars(&chars_of(self.new_name.as_str()));
        let width = parse_unsigned(self.new_width.as_str(), 0xffff);
        let height = parse_unsigned(self.new_height.as_str(), 0xffff);
        match (width, height) {
            (Some(w), Some(h)) => {
                if w > 0 && h > 0 && name.len() > 0 {
                    Some((string_of(name.as_slice()), w as u16, h as u16))
                } else {
                    None
                }
            },
            _ => None,
        }
    }

    /// The element that creating one from the form would make: its trimmed
    /// name, where that is not blank.
    pub fn new_element_request(&self) -> (r: Option<String>)
        ensures
            r is Some <==> trim(self.new_element_name@).len() > 0,
            r is Some ==> r->0@ == trim(self.new_element_name@),
    {
        let name = trim_chars(&chars_of(self.new_element_name.as_str()));
        if name.len() > 0 {
            Some(string_of(name.as_slice()))
        } else {
            None
        }
    }
}

/// The start screen: the recently used paths it offers.
#[derive(Debug)]
pub struct Launcher {
    pub recent: Vec<String>,
}

impl Launcher {
    pub fn new() -> (l: Launcher)
        ensures
            l.recent@.len() == 0,
    {
        Launcher { recent: Vec::new() }
    }

    /// Takes in the recently used paths.
    pub fn sync(&mut self, recent: Vec<String>)
        ensures
            final(self).recent == recent,
    {
        self.recent = recent;
    }
}

/// The menu bar and the windows it opens: which are shown, and what their
/// fields hold.
#[derive(Debug)]
pub struct MenuBar {
    pub recent_files: Vec<String>,
    pub show_resize_window: bool,
    pub show_spritesheet_window: bool,
    pub show_confirm_exit_window: bool,
    pub show_confirm_new_window: bool,
    pub canvas_size: Size,
    /// Columns and rows of the spritesheet.
    pub spritesheet: (u8, u8),
    pub canvas_size_str: Option<(String, String)>,
    pub spritesheet_str: Option<(String, String)>,
    pub can_undo: bool,
    pub can_redo: bool,
    pub filters_enabled: bool,
    pub show_export_layers_window: bool,
    pub show_export_image_window: bool,
    pub export_settings: ExportSettings,
    pub canvas_size_for_export: Size,
    /// Whether the export window offers a sheet rather than one file per
    /// layer.
    pub export_as_sheet: bool,
    /// The sheet's grid while it is being typed.
    pub sheet_str: (String, String),
    pub num_layers: usize,
}

impl MenuBar {
    pub fn new() -> (m: MenuBar)
        ensures
            m.recent_files@.len() == 0,
            !m.show_resize_window && !m.show_spritesheet_window && !m.show_confirm_exit_window
                && !m.show_confirm_new_window,
            m.canvas_size == (Size { x: 0, y: 0 }),
            m.spritesheet == (1u8, 1u8),
            m.canvas_size_str is None && m.spritesheet_str is None,
            !m.can_undo && !m.can_redo,
            m.filters_enabled,
            !m.show_export_layers_window && !m.show_export_image_window,
            m.export_settings.options == (ExportOptions {
                crop: false,
                padding: 0,
                scale: Scale { up: 1, down: 1 },
                power_of_two: false,
            }),
            m.canvas_size_for_export == (Size { x: 0, y: 0 }),
            !m.export_as_sheet,
            m.sheet_str.0@ == "1"@ && m.sheet_str.1@ == "1"@,
            m.num_layers == 1,
    {
        MenuBar {
            recent_files: Vec::new(),
            show_resize_window: false,
            show_spritesheet_window: false,
            show_confirm_exit_window: false,
            show_confirm_new_window: false,
            canvas_size: Size::new(0, 0),
            spritesheet: (1, 1),
            canvas_size_str: None,
            spritesheet_str: None,
            can_undo: false,
            can_redo: false,
            filters_enabled: true,
            show_export_layers_window: false,
            show_export_image_window: false,
            export_settings: ExportSettings::new(),
            canvas_size_for_export: Size::new(0, 0),
            export_as_sheet: false,
            sheet_str: ("1".to_owned(), "1".to_owned()),
            num_layers: 1,
        }
    }

    /// Takes in the editor's state, and opens the windows that were asked
    /// for: the image export, the layer export (its grid starting as a
    /// single row of every layer), and the confirmation before a new
    /// project.
    pub fn sync(
        &mut self,
        canvas_size: Size,
        spritesheet: (u8, u8),
        can_undo: bool,
        can_redo: bool,
        recent_files: Vec<String>,
        new_project_requested: bool,
        export_layers_requested: bool,
        export_image_requested: bool,
        num_layers: usize,
        filters_enabled: bool,
    )
        ensures
            final(self).canvas_size == canvas_size,
            final(self).spritesheet == spritesheet,
            final(self).can_undo == can_undo,
            final(self).can_redo == can_redo,
            final(self).recent_files == recent_files,
            final(self).filters_enabled == filters_enabled,
            final(self).num_layers == num_layers,
            final(self).canvas_size_for_export == canvas_size,
            final(self).show_export_image_window == (old(self).show_export_image_window
                || export_image_requested),
            final(self).show_export_layers_window == (old(self).show_export_layers_window
                || export_layers_requested),
            export_layers_requested ==> final(self).sheet_str.0@ == decimal(num_layers as nat)
                && final(self).sheet_str.1@ == "1"@,
            !export_layers_requested ==> final(self).sheet_str == old(self).sheet_str,
            final(self).show_confirm_new_window == (old(self).show_confirm_new_window
                || new_project_requested),
            final(self).show_resize_window == old(self).show_resize_window,
            final(self).show_spritesheet_window == old(self).show_spritesheet_window,
            final(self).show_confirm_exit_window == old(self).show_confirm_exit_window,
            final(self).canvas_size_str == old(self).canvas_size_str,
            final(self).spritesheet_str == old(self).spritesheet_str,
            final(self).export_as_sheet == old(self).export_as_sheet,
    {
        self.canvas_size = canvas_size;
        self.spritesheet = spritesheet;
        self.can_undo = can_undo;
        self.can_redo = can_redo;
        self.recent_files = recent_files;
        self.filters_enabled = filters_enabled;
        self.num_layers = num_layers;
        self.canvas_size_for_export = canvas_size;
        if export_image_requested {
            self.show_export_image_window = true;
        }
        if export_layers_requested {
            let digits = decimal_digits(num_layers);
            self.sheet_str = (string_of(digits.as_slice()), "1".to_owned());
            self.show_export_layers_window = true;
        }
        if new_project_requested {
            self.show_confirm_new_window = true;
        }
    }
}

} // verus!
