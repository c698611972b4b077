//! Filters that change how a layer looks without changing the pixels stored
//! in it: their settings, and the built-in kinds that work on whole pixels.

use vstd::prelude::*;
use crate::color::{black, transparent, Color};
use crate::geom::{Point, Size};
use crate::image::{lemma_ext, lemma_from_fn, lemma_set, Image, ImageView};

verus! {

/// Full strength, for the settings that dial an effect back.
pub const FULL_STRENGTH: i32 = 255;

/// Most times a filter is allowed to run over the image in one step.
pub const MAX_PASSES: i32 = 8;

/// The weight of the neighbour at column `di` and row `dj` of the 3x3
/// smoothing kernel `[[1, 2, 1], [2, 4, 2], [1, 2, 1]]`. Leaning on the
/// centre keeps the result close to the original.
pub open spec fn kernel_weight(di: int, dj: int) -> int {
    (if di == 1 {
        2int
    } else {
        1int
    }) * (if dj == 1 {
        2int
    } else {
        1int
    })
}

/// The `k`th neighbour of `(x, y)`'s share of a weighted sum of `f` over
/// the 3x3 neighbourhood, taken row by row; nothing where it lies outside
/// the image.
pub open spec fn kernel_term(v: ImageView, x: int, y: int, f: spec_fn(Color) -> int, k: int) -> int {
    let (di, dj) = (k % 3, k / 3);
    let (nx, ny) = (x + di - 1, y + dj - 1);
    if v.in_bounds(nx, ny) {
        kernel_weight(di, dj) * f(v.at(nx, ny))
    } else {
        0
    }
}

/// The weighted sum of `f` over the first `k` neighbours of `(x, y)`.
pub open spec fn kernel_sum(v: ImageView, x: int, y: int, f: spec_fn(Color) -> int, k: nat) -> int
    decreases k,
{
    if k == 0 {
        0
    } else {
        kernel_sum(v, x, y, f, (k - 1) as nat) + kernel_term(v, x, y, f, k - 1)
    }
}

pub open spec fn alpha_of(c: Color) -> int {
    c.a as int
}

pub open spec fn one(c: Color) -> int {
    1
}

pub open spec fn red_weight(c: Color) -> int {
    c.r * c.a
}

pub open spec fn green_weight(c: Color) -> int {
    c.g * c.a
}

pub open spec fn blue_weight(c: Color) -> int {
    c.b * c.a
}

/// `sum` divided by `total`, rounded half up, at most 255.
pub open spec fn rounded_share(sum: int, total: int) -> int {
    let q = (sum + total / 2) / total;
    if q < 255 {
        q
    } else {
        255
    }
}

/// The color a pixel takes when smoothed: its 3x3 neighbourhood averaged,
/// weighted by the kernel and by alpha, with the alpha divided back out so
/// that transparent neighbours do not darken it. Neighbours beyond the edge
/// are left out.
pub open spec fn smoothed(v: ImageView, x: int, y: int) -> Color {
    let wa = kernel_sum(v, x, y, |c: Color| alpha_of(c), 9);
    let tw = kernel_sum(v, x, y, |c: Color| one(c), 9);
    if wa == 0 {
        transparent()
    } else {
        Color {
            r: rounded_share(kernel_sum(v, x, y, |c: Color| red_weight(c), 9), wa) as u8,
            g: rounded_share(kernel_sum(v, x, y, |c: Color| green_weight(c), 9), wa) as u8,
            b: rounded_share(kernel_sum(v, x, y, |c: Color| blue_weight(c), 9), wa) as u8,
            a: ((wa + tw / 2) / tw) as u8,
        }
    }
}

/// Over an image whose pixels all have color `c`, a kernel sum of `f` is
/// `f(c)` times the sum of the weights of the neighbours in bounds.
proof fn lemma_uniform_sum(v: ImageView, x: int, y: int, f: spec_fn(Color) -> int, c: Color, k: nat)
    requires
        forall|i: int, j: int| v.in_bounds(i, j) ==> #[trigger] v.at(i, j) == c,
    ensures
        kernel_sum(v, x, y, f, k) == f(c) * kernel_sum(v, x, y, |d: Color| one(d), k),
    decreases k,
{
    if k > 0 {
        lemma_uniform_sum(v, x, y, f, c, (k - 1) as nat);
        let s1 = kernel_sum(v, x, y, |d: Color| one(d), (k - 1) as nat);
        let t1 = kernel_term(v, x, y, |d: Color| one(d), k - 1);
        let tf = kernel_term(v, x, y, f, k - 1);
        let fc = f(c);
        let (di, dj) = ((k - 1) % 3, (k - 1) / 3);
        let (nx, ny) = (x + di - 1, y + dj - 1);
        let wt = kernel_weight(di, dj);
        if v.in_bounds(nx, ny) {
            assert(v.at(nx, ny) == c);
            assert(tf == wt * fc);
            assert(t1 == wt);
            assert(fc * (s1 + wt) == fc * s1 + wt * fc) by (nonlinear_arith);
        } else {
            assert(tf == 0 && t1 == 0);
        }
    }
}

/// A channel weighted by `a * tw` and shared back out by the same weight
/// is the channel.
proof fn lemma_share_back(ch: int, a: int, tw: int)
    requires
        0 <= ch <= 255,
        a > 0,
        tw > 0,
    ensures
        rounded_share((ch * a) * tw, a * tw) == ch,
{
    let wa = a * tw;
    assert(wa > 0) by (nonlinear_arith)
        requires
            wa == a * tw,
            a > 0,
            tw > 0,
    ;
    assert((ch * a) * tw == ch * wa) by (nonlinear_arith)
        requires
            wa == a * tw,
    ;
    vstd::arithmetic::div_mod::lemma_fundamental_div_mod_converse(ch * wa + wa / 2, wa, ch, wa / 2);
}

/// Smoothing an image of one color leaves each pixel as it was, but for a
/// fully transparent color, which comes out as transparent black.
pub proof fn lemma_smoothing_one_color(v: ImageView, c: Color, x: int, y: int)
    requires
        v.in_bounds(x, y),
        forall|i: int, j: int| v.in_bounds(i, j) ==> #[trigger] v.at(i, j) == c,
    ensures
        smoothed(v, x, y) == if c.a == 0 {
            transparent()
        } else {
            c
        },
{
    let tw = kernel_sum(v, x, y, |d: Color| one(d), 9);
    let wa = kernel_sum(v, x, y, |d: Color| alpha_of(d), 9);
    lemma_uniform_sum(v, x, y, |d: Color| alpha_of(d), c, 9);
    lemma_uniform_sum(v, x, y, |d: Color| red_weight(d), c, 9);
    lemma_uniform_sum(v, x, y, |d: Color| green_weight(d), c, 9);
    lemma_uniform_sum(v, x, y, |d: Color| blue_weight(d), c, 9);
    assert(tw >= 4) by {
        reveal_with_fuel(kernel_sum, 10);
        assert(kernel_term(v, x, y, |d: Color| one(d), 4) == 4);
    }
    assert(wa == c.a * tw);
    if c.a != 0 {
        let a = c.a as int;
        assert(wa > 0) by (nonlinear_arith)
            requires
                wa == a * tw,
                a > 0,
                tw >= 4,
        ;
        assert(rounded_share(kernel_sum(v, x, y, |d: Color| red_weight(d), 9), wa) == c.r) by {
            assert(red_weight(c) == c.r * a);
            lemma_share_back(c.r as int, a, tw);
        }
        assert(rounded_share(kernel_sum(v, x, y, |d: Color| green_weight(d), 9), wa) == c.g) by {
            assert(green_weight(c) == c.g * a);
            lemma_share_back(c.g as int, a, tw);
        }
        assert(rounded_share(kernel_sum(v, x, y, |d: Color| blue_weight(d), 9), wa) == c.b) by {
            assert(blue_weight(c) == c.b * a);
            lemma_share_back(c.b as int, a, tw);
        }
        assert((wa + tw / 2) / tw == a) by {
            assert(wa + tw / 2 == a * tw + tw / 2);
            vstd::arithmetic::div_mod::lemma_fundamental_div_mod_converse(wa + tw / 2, tw, a, tw / 2);
        }
    } else {
        assert(wa == 0) by (nonlinear_arith)
            requires
                wa == c.a * tw,
                c.a == 0,
        ;
    }
}

proof fn lemma_kernel_bounds(v: ImageView, x: int, y: int, k: nat)
    requires
        k <= 9,
    ensures
        0 <= kernel_sum(v, x, y, |c: Color| one(c), k) <= 16,
        0 <= kernel_sum(v, x, y, |c: Color| alpha_of(c), k) <= 255 * kernel_sum(
            v,
            x,
            y,
            |c: Color| one(c),
            k,
        ),
        0 <= kernel_sum(v, x, y, |c: Color| red_weight(c), k) <= 255 * kernel_sum(
            v,
            x,
            y,
            |c: Color| alpha_of(c),
            k,
        ),
        0 <= kernel_sum(v, x, y, |c: Color| green_weight(c), k) <= 255 * kernel_sum(
            v,
            x,
            y,
            |c: Color| alpha_of(c),
            k,
        ),
        0 <= kernel_sum(v, x, y, |c: Color| blue_weight(c), k) <= 255 * kernel_sum(
            v,
            x,
            y,
            |c: Color| alpha_of(c),
            k,
        ),
        kernel_sum(v, x, y, |c: Color| alpha_of(c), k) > 0 ==> kernel_sum(
            v,
            x,
            y,
            |c: Color| one(c),
            k,
        ) > 0,
        kernel_sum(v, x, y, |c: Color| one(c), k) <= kernel_sum(
            v,
            x,
            y,
            |c: Color| one(c),
            9,
        ),
    decreases k,
{
    reveal_with_fuel(kernel_sum, 10);
    if k > 0 {
        lemma_kernel_bounds(v, x, y, (k - 1) as nat);
        let km = k - 1;
        let (nx, ny) = (x + km % 3 - 1, y + km / 3 - 1);
        if v.in_bounds(nx, ny) {
            let c = v.at(nx, ny);
            let w = kernel_weight(km % 3, km / 3);
            assert(1 <= w <= 4);
            assert(0 <= w * c.a <= 255 * w) by (nonlinear_arith)
                requires
                    1 <= w <= 4,
                    0 <= c.a <= 255,
            ;
            assert(0 <= w * (c.r * c.a) <= 255 * (w * c.a)) by (nonlinear_arith)
                requires
                    1 <= w <= 4,
                    0 <= c.a <= 255,
                    0 <= c.r <= 255,
            ;
            assert(0 <= w * (c.g * c.a) <= 255 * (w * c.a)) by (nonlinear_arith)
                requires
                    1 <= w <= 4,
                    0 <= c.a <= 255,
                    0 <= c.g <= 255,
            ;
            assert(0 <= w * (c.b * c.a) <= 255 * (w * c.a)) by (nonlinear_arith)
                requires
                    1 <= w <= 4,
                    0 <= c.a <= 255,
                    0 <= c.b <= 255,
            ;
        }
    }
}

/// The color a pixel takes when smoothed: its 3x3 neighbourhood averaged.
///
/// Colors are weighted by their alpha and the result divided back out.
/// Without that, the fully transparent pixels around a sprite, which are
/// usually transparent black, would drag a dark fringe into its edges.
/// Neighbours beyond the edge are left out rather than counted as
/// transparent, so the border does not fade away.
pub fn smoothed_pixel(image: &Image, p: Point) -> (c: Color)
    requires
        i32::MIN < p.x <= i32::MAX - 2,
        i32::MIN < p.y <= i32::MAX - 2,
    ensures
        c == smoothed(image@, p.x as int, p.y as int),
{
    let ghost v = image@;
    let ghost (x0, y0) = (p.x as int, p.y as int);
    let mut weighted_alpha: u32 = 0;
    let mut red: u32 = 0;
    let mut green: u32 = 0;
    let mut blue: u32 = 0;
    let mut total_weight: u32 = 0;
    let mut dj: i32 = 0;
    while dj < 3
        invariant
            v == image@,
            x0 == p.x,
            y0 == p.y,
            i32::MIN < p.x <= i32::MAX - 2,
            i32::MIN < p.y <= i32::MAX - 2,
            0 <= dj <= 3,
            weighted_alpha == kernel_sum(v, x0, y0, |c: Color| alpha_of(c), (3 * dj) as nat),
            red == kernel_sum(v, x0, y0, |c: Color| red_weight(c), (3 * dj) as nat),
            green == kernel_sum(v, x0, y0, |c: Color| green_weight(c), (3 * dj) as nat),
            blue == kernel_sum(v, x0, y0, |c: Color| blue_weight(c), (3 * dj) as nat),
            total_weight == kernel_sum(v, x0, y0, |c: Color| one(c), (3 * dj) as nat),
        decreases 3 - dj,
    {
        let mut di: i32 = 0;
        while di < 3
            invariant
                v == image@,
                x0 == p.x,
                y0 == p.y,
                i32::MIN < p.x <= i32::MAX - 2,
                i32::MIN < p.y <= i32::MAX - 2,
                0 <= dj < 3,
                0 <= di <= 3,
                weighted_alpha == kernel_sum(
                    v,
                    x0,
                    y0,
                    |c: Color| alpha_of(c),
                    (3 * dj + di) as nat,
                ),
                red == kernel_sum(v, x0, y0, |c: Color| red_weight(c), (3 * dj + di) as nat),
                green == kernel_sum(v, x0, y0, |c: Color| green_weight(c), (3 * dj + di) as nat),
                blue == kernel_sum(v, x0, y0, |c: Color| blue_weight(c), (3 * dj + di) as nat),
                total_weight == kernel_sum(v, x0, y0, |c: Color| one(c), (3 * dj + di) as nat),
            decreases 3 - di,
        {
            let ghost k = 3 * dj + di;
            proof {
                lemma_kernel_bounds(v, x0, y0, k as nat);
                lemma_kernel_bounds(v, x0, y0, (k + 1) as nat);
                assert(k % 3 == di && k / 3 == dj);
            }
            let x = p.x + di - 1;
            let y = p.y + dj - 1;
            if !(x < 0 || y < 0 || x >= image.width() || y >= image.height()) {
                let color = image.pixel(Point::new(x, y));
                let alpha = color.a as u32;
                let weight: u32 = (if di == 1 { 2 } else { 1 }) * (if dj == 1 { 2 } else { 1 });
                proof {
                    assert(alpha * weight <= 255 * 4) by (nonlinear_arith)
                        requires
                            alpha <= 255,
                            weight <= 4,
                    ;
                    assert((color.r as u32) * alpha <= 255 * 255) by (nonlinear_arith)
                        requires
                            alpha <= 255,
                            color.r <= 255,
                    ;
                    assert((color.g as u32) * alpha <= 255 * 255) by (nonlinear_arith)
                        requires
                            alpha <= 255,
                            color.g <= 255,
                    ;
                    assert((color.b as u32) * alpha <= 255 * 255) by (nonlinear_arith)
                        requires
                            alpha <= 255,
                            color.b <= 255,
                    ;
                    assert(weight * ((color.r as u32) * alpha) == ((color.r as u32) * alpha) * weight)
                        by (nonlinear_arith);
                    assert(weight * ((color.g as u32) * alpha) == ((color.g as u32) * alpha) * weight)
                        by (nonlinear_arith);
                    assert(weight * ((color.b as u32) * alpha) == ((color.b as u32) * alpha) * weight)
                        by (nonlinear_arith);
                    assert(weight * alpha == alpha * weight) by (nonlinear_arith);
                }
                red = red + (color.r as u32) * alpha * weight;
                green = green + (color.g as u32) * alpha * weight;
                blue = blue + (color.b as u32) * alpha * weight;
                weighted_alpha = weighted_alpha + alpha * weight;
                total_weight = total_weight + weight;
            }
            di = di + 1;
        }
        dj = dj + 1;
    }
    proof {
        lemma_kernel_bounds(v, x0, y0, 9);
    }
    if weighted_alpha == 0 {
        return Color::transparent();
    }
    let share = |sum: u32| -> (r: u8)
        requires
            sum <= 255 * weighted_alpha,
            weighted_alpha > 0,
            weighted_alpha <= 255 * 16,
        ensures
            r == rounded_share(sum as int, weighted_alpha as int),
        {
            let q = (sum + weighted_alpha / 2) / weighted_alpha;
            if q < 255 {
                q as u8
            } else {
                255
            }
        };
    let r = share(red);
    let g = share(green);
    let b = share(blue);
    proof {
        assert((weighted_alpha + total_weight / 2) as int / total_weight as int <= 255) by (nonlinear_arith)
            requires
                weighted_alpha <= 255 * total_weight,
                total_weight > 0,
        ;
    }
    let a = ((weighted_alpha + total_weight / 2) / total_weight) as u8;
    Color::new(r, g, b, a)
}

/// The alpha that mixing `t` of the way from `o` to `p` gives.
pub open spec fn mixed_alpha(o: Color, p: Color, t: int) -> int {
    (o.a * (255 - t) + p.a * t) / 255
}

/// One channel mixed `t` of the way from `from` to `to`, weighted by the
/// colors' alphas and divided back out by the mixed alpha.
pub open spec fn mixed_channel(from: int, to: int, o: Color, p: Color, t: int) -> int {
    let premultiplied = from * o.a * (255 - t) + to * p.a * t;
    let alpha = mixed_alpha(o, p, t);
    let q = (premultiplied / 255 + alpha / 2) / alpha;
    if q < 255 {
        q
    } else {
        255
    }
}

/// `t` of the way from `o` (at 0) to `p` (at `FULL_STRENGTH`).
pub open spec fn mixed(o: Color, p: Color, t: int) -> Color {
    if t <= 0 {
        o
    } else if t >= FULL_STRENGTH {
        p
    } else if mixed_alpha(o, p, t) == 0 {
        transparent()
    } else {
        Color {
            r: mixed_channel(o.r as int, p.r as int, o, p, t) as u8,
            g: mixed_channel(o.g as int, p.g as int, o, p, t) as u8,
            b: mixed_channel(o.b as int, p.b as int, o, p, t) as u8,
            a: mixed_alpha(o, p, t) as u8,
        }
    }
}

/// Whether `v` lies between `a` and `b`, whichever is larger.
pub open spec fn between(v: int, a: int, b: int) -> bool {
    a <= v <= b || b <= v <= a
}

/// One channel of two opaque colors blended stays between the values that
/// channel has in the two colors.
proof fn lemma_opaque_channel(from: int, to: int, o: Color, p: Color, t: int)
    requires
        o.a == 255,
        p.a == 255,
        0 < t < 255,
        0 <= from <= 255,
        0 <= to <= 255,
    ensures
        between(mixed_channel(from, to, o, p, t), from, to),
{
    let s = from * (255 - t) + to * t;
    assert(mixed_alpha(o, p, t) == 255) by {
        assert(o.a * (255 - t) + p.a * t == 255 * 255);
    }
    assert(from * o.a * (255 - t) + to * p.a * t == 255 * s) by (nonlinear_arith)
        requires
            o.a == 255,
            p.a == 255,
            s == from * (255 - t) + to * t,
    ;
    let lo = if from <= to { from } else { to };
    let hi = if from <= to { to } else { from };
    assert(255 * lo <= s <= 255 * hi) by (nonlinear_arith)
        requires
            s == from * (255 - t) + to * t,
            0 < t < 255,
            lo <= from <= hi,
            lo <= to <= hi,
    ;
    assert((255 * s) / 255 == s) by (nonlinear_arith);
    vstd::arithmetic::div_mod::lemma_div_is_ordered(255 * lo + 127, s + 127, 255);
    vstd::arithmetic::div_mod::lemma_div_is_ordered(s + 127, 255 * hi + 127, 255);
    vstd::arithmetic::div_mod::lemma_fundamental_div_mod_converse(255 * lo + 127, 255, lo, 127);
    vstd::arithmetic::div_mod::lemma_fundamental_div_mod_converse(255 * hi + 127, 255, hi, 127);
}

/// Blending two opaque colors keeps them opaque, and gives each channel a
/// value between the ones that same channel has in the two colors; where a
/// channel is the same in both, it keeps that value.
pub proof fn lemma_opaque_mix_stays_between(o: Color, p: Color, t: int)
    requires
        o.a == 255,
        p.a == 255,
    ensures
        mixed(o, p, t).a == 255,
        between(mixed(o, p, t).r as int, o.r as int, p.r as int),
        between(mixed(o, p, t).g as int, o.g as int, p.g as int),
        between(mixed(o, p, t).b as int, o.b as int, p.b as int),
{
    if 0 < t < FULL_STRENGTH {
        assert(mixed_alpha(o, p, t) == 255) by {
            assert(o.a * (255 - t) + p.a * t == 255 * 255);
        }
        lemma_opaque_channel(o.r as int, p.r as int, o, p, t);
        lemma_opaque_channel(o.g as int, p.g as int, o, p, t);
        lemma_opaque_channel(o.b as int, p.b as int, o, p, t);
    }
}

/// Blends between two colors, `t` running from all of `original` to all of
/// `other`. Colors are weighted by their alpha and the result divided back
/// out, so mixing towards a transparent color fades rather than darkens.
pub fn mix(original: Color, other: Color, t: i32) -> (c: Color)
    ensures
        c == mixed(original, other, t as int),
{
    if t <= 0 {
        return original;
    }
    if t >= FULL_STRENGTH {
        return other;
    }
    let tt = t as u32;
    let inverse = (FULL_STRENGTH - t) as u32;
    let from_alpha = original.a as u32;
    let to_alpha = other.a as u32;
    proof {
        assert(from_alpha * inverse + to_alpha * tt <= 255 * 255) by (nonlinear_arith)
            requires
                from_alpha <= 255,
                to_alpha <= 255,
                inverse + tt == 255,
        ;
    }
    let alpha = (from_alpha * inverse + to_alpha * tt) / 255;
    if alpha == 0 {
        return Color::transparent();
    }
    let channel = |from: u8, to: u8| -> (r: u8)
        requires
            alpha > 0,
            alpha == (from_alpha * inverse + to_alpha * tt) / 255,
            from_alpha <= 255,
            to_alpha <= 255,
            inverse + tt == 255,
        ensures
            r as int == mixed_channel(from as int, to as int, original, other, t as int),
        {
            proof {
                assert((from as u32) * from_alpha <= 255 * 255) by (nonlinear_arith)
                    requires
                        from <= 255,
                        from_alpha <= 255,
                ;
                assert((to as u32) * to_alpha <= 255 * 255) by (nonlinear_arith)
                    requires
                        to <= 255,
                        to_alpha <= 255,
                ;
                assert((from as u32) * from_alpha * inverse <= 255 * 255 * 255) by (nonlinear_arith)
                    requires
                        from <= 255,
                        from_alpha <= 255,
                        inverse <= 255,
                ;
                assert((to as u32) * to_alpha * tt <= 255 * 255 * 255) by (nonlinear_arith)
                    requires
                        to <= 255,
                        to_alpha <= 255,
                        tt <= 255,
                ;
            }
            let premultiplied = (from as u32) * from_alpha * inverse + (to as u32) * to_alpha * tt;
            let q = (premultiplied / 255 + alpha / 2) / alpha;
            if q < 255 {
                q as u8
            } else {
                255
            }
        };
    let r = channel(original.r, other.r);
    let g = channel(original.g, other.g);
    let b = channel(original.b, other.b);
    Color::new(r, g, b, alpha as u8)
}

/// A value one of a filter's settings can hold.
#[derive(Clone, Copy, Debug, PartialEq, Eq, Structural)]
pub enum Value {
    Int(i32),
    Color(Color),
    Bool(bool),
}

/// What a setting means, and so what control to offer for it.
#[derive(Clone, Copy, Debug, PartialEq, Eq, Structural)]
pub enum ParamKind {
    /// A number within a range.
    Int { min: i32, max: i32 },
    /// A number from none to full, shown as a percentage.
    Ratio,
    Color,
    Bool,
}

/// One of a filter's settings: what it is called, what it holds, and what
/// it starts as.
#[derive(Clone, Copy, Debug)]
pub struct ParamSpec {
    /// Stable across versions: this is what ends up in saved projects.
    pub id: &'static str,
    /// Shown next to the control.
    pub label: &'static str,
    pub kind: ParamKind,
    pub default: Value,
    /// Shown when hovering the control.
    pub help: &'static str,
}

/// Whether two texts are the same.
pub fn same_text(a: &str, b: &str) -> (r: bool)
    ensures
        r == (a@ == b@),
{
    let x = crate::text::chars_of(a);
    let y = crate::text::chars_of(b);
    if x.len() != y.len() {
        return false;
    }
    let mut i: usize = 0;
    while i < x.len()
        invariant
            x@ == a@,
            y@ == b@,
            x@.len() == y@.len(),
            0 <= i <= x@.len(),
            forall|j: int| 0 <= j < i ==> x@[j] == y@[j],
        decreases x@.len() - i,
    {
        if x[i] != y[i] {
            return false;
        }
        i = i + 1;
    }
    assert(x@ =~= y@);
    true
}

/// The value stored under `id`: the first entry with that id.
pub open spec fn param_get(s: Seq<(Seq<char>, Value)>, id: Seq<char>) -> Option<Value>
    decreases s.len(),
{
    if s.len() == 0 {
        None
    } else if s[0].0 == id {
        Some(s[0].1)
    } else {
        param_get(s.drop_first(), id)
    }
}

/// Where the first entry with `id` stands, if there is one.
pub open spec fn param_index(s: Seq<(Seq<char>, Value)>, id: Seq<char>) -> int
    decreases s.len(),
{
    if s.len() == 0 {
        -1
    } else if s[0].0 == id {
        0
    } else if param_index(s.drop_first(), id) < 0 {
        -1
    } else {
        param_index(s.drop_first(), id) + 1
    }
}

/// The settings once `id` holds `v`: the first entry with that id changed,
/// or a new entry at the end.
pub open spec fn param_set(s: Seq<(Seq<char>, Value)>, id: Seq<char>, v: Value) -> Seq<
    (Seq<char>, Value),
> {
    let i = param_index(s, id);
    if i < 0 {
        s.push((id, v))
    } else {
        s.update(i, (id, v))
    }
}

/// The number under `id`, or `fallback` where there is none.
pub open spec fn param_int(s: Seq<(Seq<char>, Value)>, id: Seq<char>, fallback: i32) -> i32 {
    match param_get(s, id) {
        Some(Value::Int(v)) => v,
        _ => fallback,
    }
}

/// The color under `id`, or `fallback` where there is none.
pub open spec fn param_color(s: Seq<(Seq<char>, Value)>, id: Seq<char>, fallback: Color) -> Color {
    match param_get(s, id) {
        Some(Value::Color(c)) => c,
        _ => fallback,
    }
}

/// The switch under `id`, or `fallback` where there is none.
pub open spec fn param_bool(s: Seq<(Seq<char>, Value)>, id: Seq<char>, fallback: bool) -> bool {
    match param_get(s, id) {
        Some(Value::Bool(b)) => b,
        _ => fallback,
    }
}

proof fn lemma_param_index(s: Seq<(Seq<char>, Value)>, id: Seq<char>)
    ensures
        -1 <= param_index(s, id) < s.len(),
        param_index(s, id) >= 0 ==> s[param_index(s, id)].0 == id && param_get(s, id) == Some(
            s[param_index(s, id)].1,
        ),
        param_index(s, id) < 0 ==> param_get(s, id) is None,
        forall|j: int| 0 <= j < param_index(s, id) ==> #[trigger] s[j].0 != id,
        param_index(s, id) < 0 ==> forall|j: int| 0 <= j < s.len() ==> #[trigger] s[j].0 != id,
    decreases s.len(),
{
    if s.len() > 0 && s[0].0 != id {
        lemma_param_index(s.drop_first(), id);
        assert forall|j: int| 0 < j < s.len() implies s[j] == s.drop_first()[j - 1] by {}
    }
}

/// The settings a filter was given, by id. A setting that is not here
/// falls back to its default, so a filter that gains one keeps working on
/// projects saved before it existed.
#[derive(Debug)]
pub struct Params {
    entries: Vec<(String, Value)>,
}

impl View for Params {
    type V = Seq<(Seq<char>, Value)>;

    closed spec fn view(&self) -> Seq<(Seq<char>, Value)> {
        self.entries@.map_values(|e: (String, Value)| (e.0@, e.1))
    }
}

impl Params {
    /// No settings: every one at its default.
    pub fn new() -> (p: Params)
        ensures
            p@ == Seq::<(Seq<char>, Value)>::empty(),
    {
        let p = Params { entries: Vec::new() };
        assert(p@ =~= Seq::<(Seq<char>, Value)>::empty());
        p
    }

    /// The settings a kind starts with: each of its settings at its
    /// default.
    pub fn defaults(specs: &[ParamSpec]) -> (p: Params)
        ensures
            p@ == specs@.map_values(|s: ParamSpec| (s.id@, s.default)),
    {
        let mut entries: Vec<(String, Value)> = Vec::new();
        let mut i: usize = 0;
        while i < specs.len()
            invariant
                0 <= i <= specs@.len(),
                entries@.map_values(|e: (String, Value)| (e.0@, e.1)) == specs@.subrange(
                    0,
                    i as int,
                ).map_values(|s: ParamSpec| (s.id@, s.default)),
            decreases specs@.len() - i,
        {
            let spec = specs[i];
            let ghost before = entries@;
            entries.push((spec.id.to_owned(), spec.default));
            proof {
                assert(entries@.map_values(|e: (String, Value)| (e.0@, e.1)) =~= before.map_values(
                    |e: (String, Value)| (e.0@, e.1),
                ).push((spec.id@, spec.default)));
                assert(specs@.subrange(0, i + 1).map_values(|s: ParamSpec| (s.id@, s.default))
                    =~= specs@.subrange(0, i as int).map_values(
                    |s: ParamSpec| (s.id@, s.default),
                ).push((spec.id@, spec.default)));
            }
            i = i + 1;
        }
        proof {
            assert(specs@.subrange(0, specs@.len() as int) =~= specs@);
        }
        Params { entries }
    }

    fn find(&self, id: &str) -> (i: Option<usize>)
        ensures
            match i {
                Some(k) => k == param_index(self@, id@),
                None => param_index(self@, id@) < 0,
            },
    {
        proof {
            lemma_param_index(self@, id@);
        }
        let mut k: usize = 0;
        while k < self.entries.len()
            invariant
                0 <= k <= self.entries@.len(),
                self@ == self.entries@.map_values(|e: (String, Value)| (e.0@, e.1)),
                forall|j: int| 0 <= j < k ==> #[trigger] self@[j].0 != id@,
                -1 <= param_index(self@, id@) < self@.len(),
                param_index(self@, id@) >= 0 ==> self@[param_index(self@, id@)].0 == id@,
                forall|j: int| 0 <= j < param_index(self@, id@) ==> #[trigger] self@[j].0 != id@,
                param_index(self@, id@) < 0 ==> forall|j: int|
                    0 <= j < self@.len() ==> #[trigger] self@[j].0 != id@,
            decreases self.entries@.len() - k,
        {
            if same_text(self.entries[k].0.as_str(), id) {
                proof {
                    assert(self@[k as int].0 == id@);
                }
                return Some(k);
            }
            proof {
                assert(self@[k as int].0 != id@);
            }
            k = k + 1;
        }
        None
    }

    /// The value stored under `id`, if any.
    pub fn get(&self, id: &str) -> (v: Option<Value>)
        ensures
            v == param_get(self@, id@),
    {
        proof {
            lemma_param_index(self@, id@);
        }
        match self.find(id) {
            Some(k) => {
                proof {
                    assert(self@[k as int].1 == self.entries@[k as int].1);
                }
                Some(self.entries[k].1)
            },
            None => None,
        }
    }

    /// Stores `value` under `id`, replacing what was there.
    pub fn set(&mut self, id: &str, value: Value)
        ensures
            final(self)@ == param_set(old(self)@, id@, value),
    {
        match self.find(id) {
            Some(k) => {
                proof {
                    lemma_param_index(self@, id@);
                }
                let ghost before = self.entries@;
                let mut entries = Vec::new();
                std::mem::swap(&mut entries, &mut self.entries);
                entries.set(k, (id.to_owned(), value));
                self.entries = entries;
                proof {
                    assert(self@ =~= param_set(old(self)@, id@, value));
                }
            },
            None => {
                self.entries.push((id.to_owned(), value));
                proof {
                    assert(self@ =~= param_set(old(self)@, id@, value));
                }
            },
        }
    }

    /// The number under `id`, or `fallback`.
    pub fn integer(&self, id: &str, fallback: i32) -> (v: i32)
        ensures
            v == param_int(self@, id@, fallback),
    {
        match self.get(id) {
            Some(Value::Int(v)) => v,
            _ => fallback,
        }
    }

    /// The color under `id`, or `fallback`.
    pub fn color(&self, id: &str, fallback: Color) -> (c: Color)
        ensures
            c == param_color(self@, id@, fallback),
    {
        match self.get(id) {
            Some(Value::Color(c)) => c,
            _ => fallback,
        }
    }

    /// The switch under `id`, or `fallback`.
    pub fn bool(&self, id: &str, fallback: bool) -> (b: bool)
        ensures
            b == param_bool(self@, id@, fallback),
    {
        match self.get(id) {
            Some(Value::Bool(b)) => b,
            _ => fallback,
        }
    }
}

/// Reading back a setting gives what was last stored under its id, and
/// storing under one id leaves every other id as it was.
pub proof fn lemma_param_set_get(s: Seq<(Seq<char>, Value)>, id: Seq<char>, v: Value, other: Seq<char>)
    ensures
        param_get(param_set(s, id, v), id) == Some(v),
        other != id ==> param_get(param_set(s, id, v), other) == param_get(s, other),
{
    lemma_param_index(s, id);
    lemma_get_after(s, id, v, id);
    if other != id {
        lemma_get_after(s, id, v, other);
    }
}

proof fn lemma_get_after(s: Seq<(Seq<char>, Value)>, id: Seq<char>, v: Value, q: Seq<char>)
    ensures
        param_get(param_set(s, id, v), q) == if q == id {
            Some(v)
        } else {
            param_get(s, q)
        },
    decreases s.len(),
{
    lemma_param_index(s, id);
    let ps = param_set(s, id, v);
    if s.len() == 0 {
        assert(ps =~= seq![(id, v)]);
        assert(ps.drop_first() =~= Seq::<(Seq<char>, Value)>::empty());
        assert(ps[0] == (id, v));
        assert(param_get(ps.drop_first(), q) is None);
        assert(param_get(ps, q) == if q == id { Some(v) } else { param_get(s, q) });
    } else if s[0].0 == id {
        assert(param_index(s, id) == 0);
        assert(ps[0] == (id, v));
        assert(ps.drop_first() =~= s.drop_first());
        assert(param_get(ps, q) == if q == id { Some(v) } else { param_get(s, q) });
    } else {
        lemma_get_after(s.drop_first(), id, v, q);
        lemma_param_index(s.drop_first(), id);
        assert(ps[0] == s[0]);
        assert(ps.drop_first() =~= param_set(s.drop_first(), id, v));
        assert(param_get(ps, q) == if q == id { Some(v) } else { param_get(s, q) });
    }
}

pub open spec fn clamp(v: int, lo: int, hi: int) -> int {
    if v < lo {
        lo
    } else if v > hi {
        hi
    } else {
        v
    }
}

fn clamp_i32(v: i32, lo: i32, hi: i32) -> (r: i32)
    requires
        lo <= hi,
    ensures
        r == clamp(v as int, lo as int, hi as int),
{
    if v < lo {
        lo
    } else if v > hi {
        hi
    } else {
        v
    }
}

/// One smoothing pass: every pixel mixed `strength` of the way towards
/// its smoothed color, all read from the image as it was before the pass.
pub open spec fn smooth_pass(v: ImageView, strength: int) -> ImageView {
    ImageView::from_fn(v.w, v.h, |x: int, y: int| mixed(v.at(x, y), smoothed(v, x, y), strength))
}

pub open spec fn smooth_passes(v: ImageView, strength: int, n: nat) -> ImageView
    decreases n,
{
    if n == 0 {
        v
    } else {
        smooth_pass(smooth_passes(v, strength, (n - 1) as nat), strength)
    }
}

/// How much of the smoothed result a smoothing filter mixes in.
pub open spec fn smooth_strength(p: Seq<(Seq<char>, Value)>) -> int {
    clamp(param_int(p, "strength"@, FULL_STRENGTH) as int, 0, FULL_STRENGTH as int)
}

/// How many times a smoothing filter runs.
pub open spec fn smooth_count(p: Seq<(Seq<char>, Value)>) -> int {
    clamp(param_int(p, "passes"@, 1) as int, 1, MAX_PASSES as int)
}

/// The image a smoothing filter with the given settings makes of `v`.
pub open spec fn smooth_result(v: ImageView, p: Seq<(Seq<char>, Value)>) -> ImageView {
    if smooth_strength(p) == 0 {
        v
    } else {
        smooth_passes(v, smooth_strength(p), smooth_count(p) as nat)
    }
}

/// The color a silhouette fills with.
pub open spec fn silhouette_fill(p: Seq<(Seq<char>, Value)>) -> Color {
    param_color(p, "color"@, black())
}

/// How opaque a pixel must be to be filled.
pub open spec fn silhouette_threshold(p: Seq<(Seq<char>, Value)>) -> int {
    clamp(param_int(p, "threshold"@, 128) as int, 0, 255)
}

/// The image a silhouette filter with the given settings makes of `v`:
/// every pixel at least as opaque as the threshold filled.
pub open spec fn silhouette_result(v: ImageView, p: Seq<(Seq<char>, Value)>) -> ImageView {
    ImageView::from_fn(
        v.w,
        v.h,
        |x: int, y: int|
            if v.at(x, y).a >= silhouette_threshold(p) {
                silhouette_fill(p)
            } else {
                v.at(x, y)
            },
    )
}

fn smooth_once(image: &mut Image, strength: i32)
    requires
        old(image)@.w < i32::MAX,
        old(image)@.h < i32::MAX,
    ensures
        final(image)@ == smooth_pass(old(image)@, strength as int),
{
    let source = image.clone();
    let ghost v = source@;
    let ghost target = smooth_pass(v, strength as int);
    proof {
        use_type_invariant(&source);
        lemma_from_fn(
            v.w,
            v.h,
            |x: int, y: int| mixed(v.at(x, y), smoothed(v, x, y), strength as int),
        );
    }
    let w = source.width();
    let h = source.height();
    let mut x: i32 = 0;
    while x < w
        invariant
            v == source@,
            v.wf(),
            w == v.w,
            h == v.h,
            v.w < i32::MAX,
            v.h < i32::MAX,
            target == smooth_pass(v, strength as int),
            target.wf(),
            target.w == v.w && target.h == v.h,
            forall|i: int, j: int|
                v.in_bounds(i, j) ==> #[trigger] target.at(i, j) == mixed(
                    v.at(i, j),
                    smoothed(v, i, j),
                    strength as int,
                ),
            image@.wf(),
            image@.w == v.w && image@.h == v.h,
            0 <= x <= w,
            forall|i: int, j: int|
                image@.in_bounds(i, j) ==> #[trigger] image@.at(i, j) == if i < x {
                    target.at(i, j)
                } else {
                    v.at(i, j)
                },
        decreases w - x,
    {
        let mut y: i32 = 0;
        while y < h
            invariant
                v == source@,
                v.wf(),
                w == v.w,
                h == v.h,
                v.w < i32::MAX,
                v.h < i32::MAX,
                target == smooth_pass(v, strength as int),
                target.wf(),
                target.w == v.w && target.h == v.h,
                forall|i: int, j: int|
                    v.in_bounds(i, j) ==> #[trigger] target.at(i, j) == mixed(
                        v.at(i, j),
                        smoothed(v, i, j),
                        strength as int,
                    ),
                image@.wf(),
                image@.w == v.w && image@.h == v.h,
                0 <= x < w,
                0 <= y <= h,
                forall|i: int, j: int|
                    image@.in_bounds(i, j) ==> #[trigger] image@.at(i, j) == if i < x || (i == x
                        && j < y) {
                        target.at(i, j)
                    } else {
                        v.at(i, j)
                    },
            decreases h - y,
        {
            let p = Point::new(x, y);
            let c = mix(source.pixel(p), smoothed_pixel(&source, p), strength);
            proof {
                lemma_set(image@, x as int, y as int, c);
            }
            image.set_pixel(p, c);
            y = y + 1;
        }
        x = x + 1;
    }
    proof {
        lemma_ext(image@, target);
    }
}

fn fill_silhouette(image: &mut Image, fill: Color, threshold: u8)
    ensures
        final(image)@ == ImageView::from_fn(
            old(image)@.w,
            old(image)@.h,
            |x: int, y: int|
                if old(image)@.at(x, y).a >= threshold {
                    fill
                } else {
                    old(image)@.at(x, y)
                },
        ),
{
    let ghost v = image@;
    let ghost target = ImageView::from_fn(
        v.w,
        v.h,
        |x: int, y: int|
            if v.at(x, y).a >= threshold {
                fill
            } else {
                v.at(x, y)
            },
    );
    proof {
        use_type_invariant(&*image);
        lemma_from_fn(
            v.w,
            v.h,
            |x: int, y: int|
                if v.at(x, y).a >= threshold {
                    fill
                } else {
                    v.at(x, y)
                },
        );
    }
    let w = image.width();
    let h = image.height();
    let mut x: i32 = 0;
    while x < w
        invariant
            v.wf(),
            w == v.w,
            h == v.h,
            target.wf(),
            target.w == v.w && target.h == v.h,
            forall|i: int, j: int|
                v.in_bounds(i, j) ==> #[trigger] target.at(i, j) == if v.at(i, j).a >= threshold {
                    fill
                } else {
                    v.at(i, j)
                },
            image@.wf(),
            image@.w == v.w && image@.h == v.h,
            0 <= x <= w,
            forall|i: int, j: int|
                image@.in_bounds(i, j) ==> #[trigger] image@.at(i, j) == if i < x {
                    target.at(i, j)
                } else {
                    v.at(i, j)
                },
        decreases w - x,
    {
        let mut y: i32 = 0;
        while y < h
            invariant
                v.wf(),
                w == v.w,
                h == v.h,
                target.wf(),
                target.w == v.w && target.h == v.h,
                forall|i: int, j: int|
                    v.in_bounds(i, j) ==> #[trigger] target.at(i, j) == if v.at(i, j).a
                        >= threshold {
                        fill
                    } else {
                        v.at(i, j)
                    },
                image@.wf(),
                image@.w == v.w && image@.h == v.h,
                0 <= x < w,
                0 <= y <= h,
                forall|i: int, j: int|
                    image@.in_bounds(i, j) ==> #[trigger] image@.at(i, j) == if i < x || (i == x
                        && j < y) {
                        target.at(i, j)
                    } else {
                        v.at(i, j)
                    },
            decreases h - y,
        {
            let p = Point::new(x, y);
            if image.pixel(p).a >= threshold {
                proof {
                    lemma_set(image@, x as int, y as int, fill);
                }
                image.set_pixel(p, fill);
            }
            y = y + 1;
        }
        x = x + 1;
    }
    proof {
        lemma_ext(image@, target);
    }
}

/// The smoothing filter: softens the steps between neighbouring colors.
pub struct Smooth;

/// The filter that snaps every color to the nearest one of the palette.
pub struct ApplyPalette;

/// The filter that fills whatever is opaque enough with one color.
pub struct Silhouette;

pub open spec fn smooth_params() -> Seq<(Seq<char>, Value)> {
    seq![("strength"@, Value::Int(FULL_STRENGTH)), ("passes"@, Value::Int(1))]
}

pub open spec fn silhouette_params() -> Seq<(Seq<char>, Value)> {
    seq![("color"@, Value::Color(black())), ("threshold"@, Value::Int(128))]
}

impl Smooth {
    /// Identifies this kind in saved projects.
    pub fn id(&self) -> (s: &'static str)
        ensures
            s@ == "smooth"@,
    {
        "smooth"
    }

    pub fn name(&self) -> (s: &'static str)
        ensures
            s@ == "Smooth"@,
    {
        "Smooth"
    }

    /// The settings it takes, in the order they are shown.
    pub fn params(&self) -> (p: Vec<ParamSpec>)
        ensures
            p@.map_values(|s: ParamSpec| (s.id@, s.default)) == smooth_params(),
            p@[0].kind == ParamKind::Ratio,
            p@[1].kind == (ParamKind::Int { min: 1, max: MAX_PASSES }),
    {
        let p = vec![
            ParamSpec {
                id: "strength",
                label: "strength",
                kind: ParamKind::Ratio,
                default: Value::Int(FULL_STRENGTH),
                help: "how much of the softened result to mix in",
            },
            ParamSpec {
                id: "passes",
                label: "passes",
                kind: ParamKind::Int { min: 1, max: MAX_PASSES },
                default: Value::Int(1),
                help: "run more than once for a wider blur",
            },
        ];
        assert(p@.map_values(|s: ParamSpec| (s.id@, s.default)) =~= smooth_params());
        p
    }

    pub fn uses_palette(&self) -> (b: bool)
        ensures
            !b,
    {
        false
    }

    /// Mixes each pixel towards its smoothed color, as many times as the
    /// settings say, each pass reading the image as the last one left it.
    pub fn apply(&self, image: &mut Image, params: &Params, palette: &[Color])
        requires
            old(image)@.w < i32::MAX,
            old(image)@.h < i32::MAX,
        ensures
            final(image)@ == smooth_result(old(image)@, params@),
    {
        let strength = clamp_i32(params.integer("strength", FULL_STRENGTH), 0, FULL_STRENGTH);
        let passes = clamp_i32(params.integer("passes", 1), 1, MAX_PASSES);
        if strength == 0 {
            return;
        }
        let ghost v = image@;
        let mut k: i32 = 0;
        while k < passes
            invariant
                0 <= k <= passes,
                image@ == smooth_passes(v, strength as int, k as nat),
                image@.w == v.w,
                image@.h == v.h,
                v.w < i32::MAX,
                v.h < i32::MAX,
            decreases passes - k,
        {
            smooth_once(image, strength);
            k = k + 1;
            proof {
                let prev = smooth_passes(v, strength as int, (k - 1) as nat);
                assert(image@ == smooth_pass(prev, strength as int));
            }
        }
    }
}

impl ApplyPalette {
    /// Identifies this kind in saved projects.
    pub fn id(&self) -> (s: &'static str)
        ensures
            s@ == "apply_palette"@,
    {
        "apply_palette"
    }

    pub fn name(&self) -> (s: &'static str)
        ensures
            s@ == "Apply palette"@,
    {
        "Apply palette"
    }

    /// It takes no settings.
    pub fn params(&self) -> (p: Vec<ParamSpec>)
        ensures
            p@.len() == 0,
    {
        Vec::new()
    }

    /// Its result depends on the palette.
    pub fn uses_palette(&self) -> (b: bool)
        ensures
            b,
    {
        true
    }
}

impl Silhouette {
    /// Identifies this kind in saved projects.
    pub fn id(&self) -> (s: &'static str)
        ensures
            s@ == "silhouette"@,
    {
        "silhouette"
    }

    pub fn name(&self) -> (s: &'static str)
        ensures
            s@ == "Silhouette"@,
    {
        "Silhouette"
    }

    /// The settings it takes, in the order they are shown.
    pub fn params(&self) -> (p: Vec<ParamSpec>)
        ensures
            p@.map_values(|s: ParamSpec| (s.id@, s.default)) == silhouette_params(),
            p@[0].kind == ParamKind::Color,
            p@[1].kind == (ParamKind::Int { min: 1, max: 255 }),
    {
        let p = vec![
            ParamSpec {
                id: "color",
                label: "color",
                kind: ParamKind::Color,
                default: Value::Color(Color::black()),
                help: "what to fill with",
            },
            ParamSpec {
                id: "threshold",
                label: "threshold",
                kind: ParamKind::Int { min: 1, max: 255 },
                default: Value::Int(128),
                help: "how opaque a pixel must be to be filled",
            },
        ];
        assert(p@.map_values(|s: ParamSpec| (s.id@, s.default)) =~= silhouette_params());
        p
    }

    pub fn uses_palette(&self) -> (b: bool)
        ensures
            !b,
    {
        false
    }

    /// Fills every pixel at least as opaque as the threshold with the fill
    /// color.
    pub fn apply(&self, image: &mut Image, params: &Params, palette: &[Color])
        ensures
            final(image)@ == silhouette_result(old(image)@, params@),
    {
        let fill = params.color("color", Color::black());
        let threshold = clamp_i32(params.integer("threshold", 128), 0, 255) as u8;
        fill_silhouette(image, fill, threshold);
    }
}

/// A filter as a layer holds it: which kind, by id, and the settings to run
/// it with.
#[derive(Debug)]
pub struct Filter {
    pub id: String,
    pub params: Params,
}

impl Filter {
    /// A smoothing filter at its default settings.
    pub fn smooth() -> (f: Filter)
        ensures
            f.id@ == "smooth"@,
            f.params@ == smooth_params(),
    {
        let kind = Smooth;
        let specs = kind.params();
        Filter { id: kind.id().to_owned(), params: Params::defaults(specs.as_slice()) }
    }

    /// A palette filter; it has no settings.
    pub fn apply_palette() -> (f: Filter)
        ensures
            f.id@ == "apply_palette"@,
            f.params@ == Seq::<(Seq<char>, Value)>::empty(),
    {
        let kind = ApplyPalette;
        Filter { id: kind.id().to_owned(), params: Params::new() }
    }

    /// A silhouette filter at its default settings.
    pub fn silhouette() -> (f: Filter)
        ensures
            f.id@ == "silhouette"@,
            f.params@ == silhouette_params(),
    {
        let kind = Silhouette;
        let specs = kind.params();
        Filter { id: kind.id().to_owned(), params: Params::defaults(specs.as_slice()) }
    }
}

} // verus!
