//! Reshaping an image on its way out: trimming, padding, scaling and sizing to
//! a power of two.

use crate::color::{transparent, Color};
use crate::geom::{Point, Rect, Size};
use crate::image::{lemma_from_fn, lemma_ext, lemma_index, lemma_set, Image, ImageView};
use vstd::prelude::*;

verus! {

/// Dimensions an image can have: they fit an `i32`, and the pixels fit in
/// memory.
pub open spec fn fits(w: int, h: int) -> bool {
    0 <= w <= i32::MAX && 0 <= h <= i32::MAX && w * h <= usize::MAX
}

/// How much bigger or smaller to make an exported image, as a ratio.
///
/// Kept as a ratio rather than a fraction so the result lands on whole
/// pixels: scaling up replicates each pixel `up` times, and scaling down
/// folds each `down` by `down` block into one.
#[derive(Clone, Copy, Debug, PartialEq, Eq, Structural)]
pub struct Scale {
    pub up: u32,
    pub down: u32,
}

impl Default for Scale {
    fn default() -> (s: Scale)
        ensures
            s == (Scale { up: 1, down: 1 }),
    {
        Scale { up: 1, down: 1 }
    }
}

impl Scale {
    /// A ratio of `up` to `down`, where zero counts as one.
    pub fn new(up: u32, down: u32) -> (s: Scale)
        ensures
            s.up == if up == 0 {
                1
            } else {
                up
            },
            s.down == if down == 0 {
                1
            } else {
                down
            },
    {
        Scale { up: if up == 0 { 1 } else { up }, down: if down == 0 { 1 } else { down } }
    }

    /// Whether the ratio is one to one.
    pub fn is_identity(&self) -> (b: bool)
        ensures
            b == (self.up == self.down),
    {
        self.up == self.down
    }
}

/// What to do to an image before writing it out.
///
/// Applied in the order the fields are listed, which is the only order that
/// holds together: trimming changes the size, so padding has to follow it;
/// scaling changes it again, so sizing to a power of two has to come last or
/// the result wouldn't be one.
#[derive(Clone, Copy, Debug, PartialEq, Eq, Structural)]
pub struct ExportOptions {
    /// Trim fully transparent rows and columns from the edges
    pub crop: bool,
    /// Add this many pixels on every side
    pub padding: u32,
    /// Scale by a whole ratio
    pub scale: Scale,
    /// Grow the width and height to the next power of two
    pub power_of_two: bool,
}

impl Default for ExportOptions {
    fn default() -> (o: ExportOptions)
        ensures
            o == (ExportOptions {
                crop: false,
                padding: 0,
                scale: Scale { up: 1, down: 1 },
                power_of_two: false,
            }),
    {
        ExportOptions { crop: false, padding: 0, scale: Scale { up: 1, down: 1 }, power_of_two: false }
    }
}

impl ExportOptions {
    /// Whether these options would leave an image exactly as it is
    pub fn is_identity(&self) -> (b: bool)
        ensures
            b == (!self.crop && self.padding == 0 && self.scale.up == self.scale.down
                && !self.power_of_two),
    {
        !self.crop && self.padding == 0 && self.scale.is_identity() && !self.power_of_two
    }
}

// ---------------------------------------------------------------------------
// Content bounds.
// ---------------------------------------------------------------------------

/// Whether the pixel at `(x, y)` is drawn on, that is not fully transparent.
pub open spec fn drawn(v: ImageView, x: int, y: int) -> bool {
    v.in_bounds(x, y) && v.at(x, y).a != 0
}

pub open spec fn has_content(v: ImageView) -> bool {
    exists|x: int, y: int| drawn(v, x, y)
}

/// `r` is the smallest rectangle holding every pixel for which `inside`
/// holds: each such pixel lies in it, and each of its four edges passes
/// through one.
pub open spec fn is_bounding_box(r: Rect, inside: spec_fn(int, int) -> bool) -> bool {
    &&& r.w >= 1
    &&& r.h >= 1
    &&& forall|x: int, y: int|
        #[trigger] inside(x, y) ==> r.x <= x < r.x + r.w && r.y <= y < r.y + r.h
    &&& exists|y: int| #[trigger] inside(r.x as int, y)
    &&& exists|y: int| #[trigger] inside(r.x + r.w - 1, y)
    &&& exists|x: int| #[trigger] inside(x, r.y as int)
    &&& exists|x: int| #[trigger] inside(x, r.y + r.h - 1)
}

/// The smallest rectangle holding every pixel that isn't fully transparent.
///
/// `None` when the image is entirely transparent, since there is nothing to
/// crop to.
pub fn content_bounds(image: &Image) -> (bounds: Option<Rect>)
    ensures
        bounds is None <==> !has_content(image@),
        bounds matches Some(r) ==> is_bounding_box(r, |x: int, y: int| drawn(image@, x, y)),
{
    let ghost v = image@;
    let (w, h) = (image.width(), image.height());
    let (mut left, mut top) = (i32::MAX, i32::MAX);
    let (mut right, mut bottom) = (i32::MIN, i32::MIN);
    let ghost mut wl: (int, int) = (0, 0);
    let ghost mut wr: (int, int) = (0, 0);
    let ghost mut wt: (int, int) = (0, 0);
    let ghost mut wb: (int, int) = (0, 0);
    let mut x: i32 = 0;
    while x < w
        invariant
            v == image@,
            w == v.w,
            h == v.h,
            0 <= h,
            0 <= x <= w,
            left <= right <==> exists|i: int, j: int| i < x && drawn(v, i, j),
            left <= right ==> {
                &&& forall|i: int, j: int|
                    i < x && #[trigger] drawn(v, i, j) ==> left <= i <= right && top <= j <= bottom
                &&& drawn(v, left as int, wl.1) && wl.0 == left
                &&& drawn(v, right as int, wr.1) && wr.0 == right
                &&& drawn(v, wt.0, top as int) && wt.1 == top
                &&& drawn(v, wb.0, bottom as int) && wb.1 == bottom
            },
            left > right ==> left == i32::MAX && right == i32::MIN && top == i32::MAX && bottom
                == i32::MIN,
        decreases w - x,
    {
        let mut y: i32 = 0;
        while y < h
            invariant
                v == image@,
                w == v.w,
                h == v.h,
                0 <= h,
                0 <= x < w,
                0 <= y <= h,
                left <= right <==> exists|i: int, j: int|
                    drawn(v, i, j) && (i < x || (i == x && j < y)),
                left <= right ==> {
                    &&& forall|i: int, j: int|
                        (i < x || (i == x && j < y)) && #[trigger] drawn(v, i, j) ==> left <= i
                            <= right && top <= j <= bottom
                    &&& drawn(v, left as int, wl.1) && wl.0 == left
                    &&& drawn(v, right as int, wr.1) && wr.0 == right
                    &&& drawn(v, wt.0, top as int) && wt.1 == top
                    &&& drawn(v, wb.0, bottom as int) && wb.1 == bottom
                },
                left > right ==> left == i32::MAX && right == i32::MIN && top == i32::MAX
                    && bottom == i32::MIN,
            decreases h - y,
        {
            let ghost before = left <= right;
            let c = image.pixel(Point::new(x, y));
            proof {
                if c.a != 0 {
                    assert(drawn(v, x as int, y as int));
                }
                if before {
                    let (i0, j0) = choose|i: int, j: int|
                        drawn(v, i, j) && (i < x || (i == x && j < y));
                    assert(drawn(v, i0, j0) && (i0 < x || (i0 == x && j0 < y + 1)));
                }
                assert forall|i: int, j: int|
                    drawn(v, i, j) && (i < x || (i == x && j < y + 1)) implies before || c.a != 0 by {
                    if !(i < x || (i == x && j < y)) {
                        assert(i == x && j == y);
                    }
                }
            }
            if c.a != 0 {
                proof {
                    if left > right {
                        wl = (x as int, y as int);
                        wr = (x as int, y as int);
                        wt = (x as int, y as int);
                        wb = (x as int, y as int);
                    } else {
                        if x < left {
                            wl = (x as int, y as int);
                        }
                        if x > right {
                            wr = (x as int, y as int);
                        }
                        if y < top {
                            wt = (x as int, y as int);
                        }
                        if y > bottom {
                            wb = (x as int, y as int);
                        }
                    }
                }
                if x < left {
                    left = x;
                }
                if y < top {
                    top = y;
                }
                if x > right {
                    right = x;
                }
                if y > bottom {
                    bottom = y;
                }
            }
            y = y + 1;
        }
        x = x + 1;
    }
    if left <= right {
        proof {
            assert forall|i: int, j: int| drawn(v, i, j) implies left <= i <= right && top <= j
                <= bottom by {
                assert(i < x);
            }
        }
        let r = Rect::new(left, top, right - left + 1, bottom - top + 1);
        proof {
            let f = |x: int, y: int| drawn(image@, x, y);
            assert(f(left as int, wl.1));
            assert(f(r.x + r.w - 1, wr.1));
            assert(f(wt.0, top as int));
            assert(f(wb.0, r.y + r.h - 1));
        }
        Some(r)
    } else {
        proof {
            assert forall|i: int, j: int| !drawn(v, i, j) by {
                if drawn(v, i, j) {
                    assert(i < x);
                }
            }
        }
        None
    }
}

// ---------------------------------------------------------------------------
// Cropping and padding.
// ---------------------------------------------------------------------------

/// The part of `v` inside `area`, moved to the origin. Anything outside `v`
/// comes out transparent; an empty area gives a single transparent pixel.
pub open spec fn crop_view(v: ImageView, area: Rect) -> ImageView {
    ImageView::from_fn(
        if area.w >= 1 {
            area.w as int
        } else {
            1
        },
        if area.h >= 1 {
            area.h as int
        } else {
            1
        },
        |x: int, y: int|
            if x < area.w && y < area.h && v.in_bounds(area.x + x, area.y + y) {
                v.at(area.x + x, area.y + y)
            } else {
                transparent()
            },
    )
}

/// What [`crop`] needs: the area's far edges are positions an `i32` holds,
/// and the result fits in memory.
pub open spec fn crop_fits(area: Rect) -> bool {
    &&& area.x + area.w - 1 <= i32::MAX
    &&& area.y + area.h - 1 <= i32::MAX
    &&& fits(
        if area.w >= 1 {
            area.w as int
        } else {
            1
        },
        if area.h >= 1 {
            area.h as int
        } else {
            1
        },
    )
}

/// Copies out the part of an image inside a rectangle. Anything outside the
/// image comes out transparent.
pub fn crop(image: &Image, area: Rect) -> (out: Image)
    requires
        crop_fits(area),
    ensures
        out@ == crop_view(image@, area),
{
    let ghost v = image@;
    let rw: i32 = if area.w >= 1 { area.w } else { 1 };
    let rh: i32 = if area.h >= 1 { area.h } else { 1 };
    let mut result = Image::new(Size::new(rw, rh), Color::transparent());
    let ghost target = crop_view(v, area);
    proof {
        lemma_from_fn(rw as int, rh as int, |x: int, y: int| transparent());
        lemma_from_fn(
            rw as int,
            rh as int,
            |x: int, y: int|
                if x < area.w && y < area.h && v.in_bounds(area.x + x, area.y + y) {
                    v.at(area.x + x, area.y + y)
                } else {
                    transparent()
                },
        );
    }
    let mut x: i32 = 0;
    while x < area.w
        invariant
            v == image@,
            target == crop_view(v, area),
            crop_fits(area),
            forall|i: int, j: int|
                target.in_bounds(i, j) ==> #[trigger] target.at(i, j) == if i < area.w && j < area.h
                    && v.in_bounds(area.x + i, area.y + j) {
                    v.at(area.x + i, area.y + j)
                } else {
                    transparent()
                },
            target.wf(),
            result@.wf(),
            result@.w == rw && result@.h == rh,
            rw == target.w && rh == target.h,
            0 <= x,
            area.w >= 1 ==> x <= area.w,
            forall|i: int, j: int|
                result@.in_bounds(i, j) ==> #[trigger] result@.at(i, j) == if i < x {
                    target.at(i, j)
                } else {
                    transparent()
                },
            forall|i: int, j: int|
                result@.in_bounds(i, j) && !(i < area.w && j < area.h) ==> #[trigger] target.at(i, j)
                    == transparent(),
        decreases area.w - x,
    {
        let mut y: i32 = 0;
        while y < area.h
            invariant
                v == image@,
                target == crop_view(v, area),
                crop_fits(area),
                forall|i: int, j: int|
                    target.in_bounds(i, j) ==> #[trigger] target.at(i, j) == if i < area.w && j < area.h
                        && v.in_bounds(area.x + i, area.y + j) {
                        v.at(area.x + i, area.y + j)
                    } else {
                        transparent()
                    },
                target.wf(),
                result@.wf(),
                result@.w == rw && result@.h == rh,
                rw == target.w && rh == target.h,
                0 <= x < area.w,
                0 <= y,
                area.h >= 1 ==> y <= area.h,
                forall|i: int, j: int|
                    result@.in_bounds(i, j) ==> #[trigger] result@.at(i, j) == if i < x || (i == x
                        && j < y) {
                        target.at(i, j)
                    } else {
                        transparent()
                    },
                forall|i: int, j: int|
                    result@.in_bounds(i, j) && !(i < area.w && j < area.h) ==> #[trigger] target.at(
                        i,
                        j,
                    ) == transparent(),
            decreases area.h - y,
        {
            let from = Point::new(area.x + x, area.y + y);
            if !(from.x < 0 || from.y < 0 || from.x >= image.width() || from.y >= image.height()) {
                let c = image.pixel(from);
                proof {
                    lemma_set(result@, x as int, y as int, c);
                }
                result.set_pixel(Point::new(x, y), c);
            }
            y = y + 1;
        }
        x = x + 1;
    }
    proof {
        lemma_ext(result@, target);
    }
    result
}

/// `v` with transparent margins added: `l`, `t`, `r` and `b` pixels on the
/// left, top, right and bottom. A negative margin cuts into the image.
pub open spec fn pad_view(v: ImageView, l: int, t: int, r: int, b: int) -> ImageView {
    if l == 0 && t == 0 && r == 0 && b == 0 {
        v
    } else {
        ImageView::from_fn(
            v.w + l + r,
            v.h + t + b,
            |x: int, y: int|
                if v.in_bounds(x - l, y - t) {
                    v.at(x - l, y - t)
                } else {
                    transparent()
                },
        )
    }
}

/// What [`pad`] needs: every size and position it works out fits an `i32`,
/// and the result fits in memory.
pub open spec fn pad_fits(v: ImageView, l: int, t: int, r: int, b: int) -> bool {
    &&& i32::MIN <= v.w + l <= i32::MAX
    &&& i32::MIN <= v.h + t <= i32::MAX
    &&& fits(v.w + l + r, v.h + t + b)
    &&& v.w - 1 + l <= i32::MAX
    &&& v.h - 1 + t <= i32::MAX
}

/// Adds transparent pixels around an image.
pub fn pad(image: &Image, left: i32, top: i32, right: i32, bottom: i32) -> (out: Image)
    requires
        pad_fits(image@, left as int, top as int, right as int, bottom as int),
    ensures
        out@ == pad_view(image@, left as int, top as int, right as int, bottom as int),
{
    if left == 0 && top == 0 && right == 0 && bottom == 0 {
        return image.clone();
    }
    let ghost v = image@;
    let ghost (l, t) = (left as int, top as int);
    let (w, h) = (image.width(), image.height());
    let size = Size::new(w + left + right, h + top + bottom);
    let mut result = Image::new(size, Color::transparent());
    let ghost target = pad_view(v, left as int, top as int, right as int, bottom as int);
    proof {
        lemma_from_fn(size.x as int, size.y as int, |x: int, y: int| transparent());
        lemma_from_fn(
            size.x as int,
            size.y as int,
            |x: int, y: int|
                if v.in_bounds(x - l, y - t) {
                    v.at(x - l, y - t)
                } else {
                    transparent()
                },
        );
    }
    let mut x: i32 = 0;
    while x < w
        invariant
            v == image@,
            w == v.w,
            h == v.h,
            l == left,
            t == top,
            !(left == 0 && top == 0 && right == 0 && bottom == 0),
            target == pad_view(v, left as int, top as int, right as int, bottom as int),
            pad_fits(v, left as int, top as int, right as int, bottom as int),
            0 <= h,
            forall|i: int, j: int|
                target.in_bounds(i, j) ==> #[trigger] target.at(i, j) == if v.in_bounds(i - l, j - t) {
                    v.at(i - l, j - t)
                } else {
                    transparent()
                },
            target.wf(),
            result@.wf(),
            result@.w == size.x && result@.h == size.y,
            size.x == target.w && size.y == target.h,
            0 <= x <= w,
            forall|i: int, j: int|
                result@.in_bounds(i, j) ==> #[trigger] result@.at(i, j) == if i - l < x {
                    target.at(i, j)
                } else {
                    transparent()
                },
        decreases w - x,
    {
        let mut y: i32 = 0;
        while y < h
            invariant
                v == image@,
                w == v.w,
                h == v.h,
                l == left,
                t == top,
                !(left == 0 && top == 0 && right == 0 && bottom == 0),
                target == pad_view(v, left as int, top as int, right as int, bottom as int),
                pad_fits(v, left as int, top as int, right as int, bottom as int),
                0 <= h,
                forall|i: int, j: int|
                    target.in_bounds(i, j) ==> #[trigger] target.at(i, j) == if v.in_bounds(i - l, j - t) {
                        v.at(i - l, j - t)
                    } else {
                        transparent()
                    },
                target.wf(),
                result@.wf(),
                result@.w == size.x && result@.h == size.y,
                size.x == target.w && size.y == target.h,
                0 <= x < w,
                0 <= y <= h,
                forall|i: int, j: int|
                    result@.in_bounds(i, j) ==> #[trigger] result@.at(i, j) == if i - l < x || (i
                        - l == x && j - t < y) {
                        target.at(i, j)
                    } else {
                        transparent()
                    },
            decreases h - y,
        {
            let to = Point::new(x + left, y + top);
            if !(to.x < 0 || to.y < 0 || to.x >= size.x || to.y >= size.y) {
                let c = image.pixel(Point::new(x, y));
                proof {
                    lemma_set(result@, to.x as int, to.y as int, c);
                }
                result.set_pixel(to, c);
            }
            y = y + 1;
        }
        x = x + 1;
    }
    proof {
        lemma_ext(result@, target);
    }
    result
}

// ---------------------------------------------------------------------------
// Scaling by whole factors.
// ---------------------------------------------------------------------------

/// `v` with every pixel repeated into an `f` by `f` block.
pub open spec fn enlarge_view(v: ImageView, f: int) -> ImageView {
    if f <= 1 {
        v
    } else {
        ImageView::from_fn(v.w * f, v.h * f, |x: int, y: int| v.at(x / f, y / f))
    }
}

proof fn lemma_div_in_range(x: int, f: int, n: int)
    requires
        f > 0,
        0 <= x < n * f,
    ensures
        0 <= x / f < n,
{
    vstd::arithmetic::div_mod::lemma_fundamental_div_mod(x, f);
    vstd::arithmetic::div_mod::lemma_div_pos_is_pos(x, f);
    let q = x / f;
    assert(q < n) by (nonlinear_arith)
        requires
            x == f * q + x % f,
            0 <= x % f,
            x < n * f,
            f > 0,
    ;
}

fn enlarge(image: &Image, factor: i32) -> (out: Image)
    requires
        factor <= 1 || fits(image@.w * factor, image@.h * factor),
    ensures
        out@ == enlarge_view(image@, factor as int),
{
    if factor <= 1 {
        return image.clone();
    }
    let ghost v = image@;
    let ghost f = factor as int;
    let (w, h) = (image.width(), image.height());
    let size = Size::new(w * factor, h * factor);
    let mut result = Image::new(size, Color::transparent());
    let ghost target = enlarge_view(v, f);
    proof {
        lemma_from_fn(size.x as int, size.y as int, |x: int, y: int| transparent());
        lemma_from_fn(size.x as int, size.y as int, |x: int, y: int| v.at(x / f, y / f));
    }
    let mut x: i32 = 0;
    while x < size.x
        invariant
            v == image@,
            f == factor,
            f > 1,
            w == v.w,
            h == v.h,
            size.x == w * f,
            size.y == h * f,
            0 <= size.y,
            target == enlarge_view(v, f),
            target.wf(),
            result@.wf(),
            result@.w == size.x && result@.h == size.y,
            target.w == size.x && target.h == size.y,
            forall|i: int, j: int|
                target.in_bounds(i, j) ==> #[trigger] target.at(i, j) == v.at(i / f, j / f),
            0 <= x <= size.x,
            forall|i: int, j: int|
                result@.in_bounds(i, j) ==> #[trigger] result@.at(i, j) == if i < x {
                    target.at(i, j)
                } else {
                    transparent()
                },
        decreases size.x - x,
    {
        let mut y: i32 = 0;
        while y < size.y
            invariant
                v == image@,
                f == factor,
                f > 1,
                w == v.w,
                h == v.h,
                size.x == w * f,
                size.y == h * f,
                target == enlarge_view(v, f),
                target.wf(),
                result@.wf(),
                result@.w == size.x && result@.h == size.y,
                target.w == size.x && target.h == size.y,
                forall|i: int, j: int|
                    target.in_bounds(i, j) ==> #[trigger] target.at(i, j) == v.at(i / f, j / f),
                0 <= x < size.x,
                0 <= y <= size.y,
                forall|i: int, j: int|
                    result@.in_bounds(i, j) ==> #[trigger] result@.at(i, j) == if i < x || (i == x
                        && j < y) {
                        target.at(i, j)
                    } else {
                        transparent()
                    },
            decreases size.y - y,
        {
            proof {
                lemma_div_in_range(x as int, f, w as int);
                lemma_div_in_range(y as int, f, h as int);
            }
            let c = image.pixel(Point::new(x / factor, y / factor));
            proof {
                lemma_set(result@, x as int, y as int, c);
            }
            result.set_pixel(Point::new(x, y), c);
            y = y + 1;
        }
        x = x + 1;
    }
    proof {
        lemma_ext(result@, target);
    }
    result
}

/// How much to add to `value` to reach the next whole multiple of `factor`.
pub open spec fn remainder_to_spec(value: int, factor: int) -> int {
    if value % factor == 0 {
        0
    } else {
        factor - value % factor
    }
}

/// How much to add to reach the next whole multiple of `factor`.
fn remainder_to(value: i32, factor: i32) -> (r: i32)
    requires
        value >= 0,
        factor > 0,
    ensures
        r == remainder_to_spec(value as int, factor as int),
        0 <= r < factor,
        (value + r) % (factor as int) == 0,
{
    let left_over = value % factor;
    proof {
        vstd::arithmetic::div_mod::lemma_fundamental_div_mod(value as int, factor as int);
        if left_over != 0 {
            let q = value / factor;
            assert(value + (factor - left_over) == factor * (q + 1)) by (nonlinear_arith)
                requires
                    value == factor * q + left_over,
            ;
            vstd::arithmetic::div_mod::lemma_mod_multiples_basic(q + 1, factor as int);
            assert((q + 1) * factor == factor * (q + 1)) by (nonlinear_arith);
        }
    }
    if left_over == 0 {
        0
    } else {
        factor - left_over
    }
}

/// One of the color channels weighted by alpha: red, green or blue.
pub open spec fn channel(c: Color, ch: int) -> int {
    if ch == 0 {
        c.r as int
    } else if ch == 1 {
        c.g as int
    } else {
        c.b as int
    }
}

/// The `j`th pixel of the `f` by `f` block at block position `(bx, by)`,
/// column by column.
pub open spec fn block_pixel(p: ImageView, f: int, bx: int, by: int, j: int) -> Color {
    p.at(bx * f + j / f, by * f + j % f)
}

/// The alpha of the first `k` pixels of a block, summed.
pub open spec fn block_alpha(p: ImageView, f: int, bx: int, by: int, k: int) -> int
    decreases k,
{
    if k <= 0 {
        0
    } else {
        block_alpha(p, f, bx, by, k - 1) + block_pixel(p, f, bx, by, k - 1).a
    }
}

/// A channel times alpha over the first `k` pixels of a block, summed.
pub open spec fn block_weighted(p: ImageView, f: int, bx: int, by: int, k: int, ch: int) -> int
    decreases k,
{
    if k <= 0 {
        0
    } else {
        block_weighted(p, f, bx, by, k - 1, ch) + channel(block_pixel(p, f, bx, by, k - 1), ch)
            * block_pixel(p, f, bx, by, k - 1).a
    }
}

/// A summed channel divided back out by the summed alpha, rounded to
/// nearest and capped at 255.
pub open spec fn unweight(sum: int, alpha: int) -> u8 {
    (if (sum + alpha / 2) / alpha < 255 {
        (sum + alpha / 2) / alpha
    } else {
        255
    }) as u8
}

/// The color a block folds into: its colors averaged by alpha, so fading
/// into transparency doesn't darken it, and its alpha averaged plainly.
pub open spec fn block_color(p: ImageView, f: int, bx: int, by: int) -> Color {
    let count = f * f;
    let alpha = block_alpha(p, f, bx, by, count);
    if alpha == 0 {
        transparent()
    } else {
        Color {
            r: unweight(block_weighted(p, f, bx, by, count, 0), alpha),
            g: unweight(block_weighted(p, f, bx, by, count, 1), alpha),
            b: unweight(block_weighted(p, f, bx, by, count, 2), alpha),
            a: ((alpha + count / 2) / count) as u8,
        }
    }
}

/// `v` padded on the right and bottom to whole multiples of `f`.
pub open spec fn block_padded(v: ImageView, f: int) -> ImageView {
    pad_view(v, 0, 0, remainder_to_spec(v.w, f), remainder_to_spec(v.h, f))
}

/// `v` with every `f` by `f` block folded into one pixel, after padding it
/// out to whole blocks.
pub open spec fn reduce_view(v: ImageView, f: int) -> ImageView {
    if f <= 1 {
        v
    } else {
        let p = block_padded(v, f);
        ImageView::from_fn(p.w / f, p.h / f, |x: int, y: int| block_color(p, f, x, y))
    }
}

/// The sums a block is folded with stay within a `u32`.
pub open spec fn block_sums_fit(p: ImageView, f: int) -> bool {
    forall|bx: int, by: int|
        0 <= bx < p.w / f && 0 <= by < p.h / f ==> {
            let alpha = #[trigger] block_alpha(p, f, bx, by, f * f);
            &&& alpha + (f * f) / 2 <= u32::MAX
            &&& block_weighted(p, f, bx, by, f * f, 0) + alpha / 2 <= u32::MAX
            &&& block_weighted(p, f, bx, by, f * f, 1) + alpha / 2 <= u32::MAX
            &&& block_weighted(p, f, bx, by, f * f, 2) + alpha / 2 <= u32::MAX
        }
}

/// What [`reduce`] needs: the block size squared fits an `i32`, the padded
/// image fits, and no block's sums overflow a `u32`.
pub open spec fn reduce_fits(v: ImageView, f: int) -> bool {
    f <= 1 || {
        &&& f * f <= i32::MAX
        &&& pad_fits(v, 0, 0, remainder_to_spec(v.w, f), remainder_to_spec(v.h, f))
        &&& block_sums_fit(block_padded(v, f), f)
    }
}

proof fn lemma_block_sums_bounded(p: ImageView, f: int, bx: int, by: int, k: int)
    requires
        k >= 0,
    ensures
        0 <= block_alpha(p, f, bx, by, k) <= 255 * k,
        forall|ch: int| 0 <= #[trigger] block_weighted(p, f, bx, by, k, ch) <= 65025 * k,
    decreases k,
{
    if k > 0 {
        lemma_block_sums_bounded(p, f, bx, by, k - 1);
        let c = block_pixel(p, f, bx, by, k - 1);
        assert forall|ch: int| 0 <= #[trigger] block_weighted(p, f, bx, by, k, ch) <= 65025 * k by {
            assert(0 <= channel(c, ch) * c.a <= 65025) by (nonlinear_arith)
                requires
                    0 <= channel(c, ch) <= 255,
                    0 <= c.a <= 255,
            ;
            assert(block_weighted(p, f, bx, by, k, ch) == block_weighted(p, f, bx, by, k - 1, ch)
                + channel(c, ch) * c.a);
        }
    }
}

fn reduce(image: &Image, factor: i32) -> (out: Image)
    requires
        reduce_fits(image@, factor as int),
    ensures
        out@ == reduce_view(image@, factor as int),
{
    if factor <= 1 {
        return image.clone();
    }
    let ghost v = image@;
    let ghost f = factor as int;
    let padded = pad(
        image,
        0,
        0,
        remainder_to(image.width(), factor),
        remainder_to(image.height(), factor),
    );
    let ghost p = padded@;
    assert(p == block_padded(v, f));
    let (pw, ph) = (padded.width(), padded.height());
    proof {
        if !(remainder_to_spec(v.w, f) == 0 && remainder_to_spec(v.h, f) == 0) {
            lemma_from_fn(
                p.w,
                p.h,
                |x: int, y: int|
                    if v.in_bounds(x, y) {
                        v.at(x, y)
                    } else {
                        transparent()
                    },
            );
        }
        vstd::arithmetic::div_mod::lemma_fundamental_div_mod(pw as int, f);
        vstd::arithmetic::div_mod::lemma_fundamental_div_mod(ph as int, f);
        vstd::arithmetic::div_mod::lemma_div_pos_is_pos(pw as int, f);
        vstd::arithmetic::div_mod::lemma_div_pos_is_pos(ph as int, f);
    }
    let size = Size::new(pw / factor, ph / factor);
    proof {
        vstd::arithmetic::div_mod::lemma_div_is_ordered_by_denominator(pw as int, 1, f);
        vstd::arithmetic::div_mod::lemma_div_is_ordered_by_denominator(ph as int, 1, f);
        assert(size.x * size.y <= pw * ph) by (nonlinear_arith)
            requires
                0 <= size.x <= pw,
                0 <= size.y <= ph,
        ;
    }
    let mut result = Image::new(size, Color::transparent());
    let ghost target = reduce_view(v, f);
    let count: u64 = (factor * factor) as u64;
    proof {
        lemma_from_fn(size.x as int, size.y as int, |x: int, y: int| transparent());
        lemma_from_fn(size.x as int, size.y as int, |x: int, y: int| block_color(p, f, x, y));
        assert(pw == f * size.x && ph == f * size.y);
    }
    let mut x: i32 = 0;
    while x < size.x
        invariant
            v == image@,
            p == padded@,
            f == factor,
            f > 1,
            count == f * f,
            f * f <= i32::MAX,
            pw == p.w,
            ph == p.h,
            pw == f * size.x,
            ph == f * size.y,
            0 <= size.y,
            block_sums_fit(p, f),
            target == reduce_view(v, f),
            target.wf(),
            result@.wf(),
            result@.w == size.x && result@.h == size.y,
            target.w == size.x && target.h == size.y,
            forall|i: int, j: int|
                target.in_bounds(i, j) ==> #[trigger] target.at(i, j) == block_color(p, f, i, j),
            0 <= x <= size.x,
            forall|i: int, j: int|
                result@.in_bounds(i, j) ==> #[trigger] result@.at(i, j) == if i < x {
                    target.at(i, j)
                } else {
                    transparent()
                },
        decreases size.x - x,
    {
        let mut y: i32 = 0;
        while y < size.y
            invariant
                v == image@,
                p == padded@,
                f == factor,
                f > 1,
                count == f * f,
                f * f <= i32::MAX,
                pw == p.w,
                ph == p.h,
                pw == f * size.x,
                ph == f * size.y,
                block_sums_fit(p, f),
                target == reduce_view(v, f),
                target.wf(),
                result@.wf(),
                result@.w == size.x && result@.h == size.y,
                target.w == size.x && target.h == size.y,
                forall|i: int, j: int|
                    target.in_bounds(i, j) ==> #[trigger] target.at(i, j) == block_color(
                        p,
                        f,
                        i,
                        j,
                    ),
                0 <= x < size.x,
                0 <= y <= size.y,
                forall|i: int, j: int|
                    result@.in_bounds(i, j) ==> #[trigger] result@.at(i, j) == if i < x || (i == x
                        && j < y) {
                        target.at(i, j)
                    } else {
                        transparent()
                    },
            decreases size.y - y,
        {
            let mut premultiplied: [u64; 3] = [0, 0, 0];
            let mut alpha: u64 = 0;
            let mut dx: i32 = 0;
            proof {
                assert(f * x + f <= pw) by (nonlinear_arith)
                    requires
                        0 <= x < size.x,
                        pw == f * size.x,
                        f > 0,
                ;
                assert(f * y + f <= ph) by (nonlinear_arith)
                    requires
                        0 <= y < size.y,
                        ph == f * size.y,
                        f > 0,
                ;
            }
            while dx < factor
                invariant
                    p == padded@,
                    f == factor,
                    f > 1,
                    f * f <= i32::MAX,
                    pw == p.w,
                    ph == p.h,
                    0 <= x,
                    0 <= y,
                    f * x + f <= pw,
                    f * y + f <= ph,
                    0 <= dx <= f,
                    alpha == block_alpha(p, f, x as int, y as int, dx * f),
                    forall|ch: int|
                        0 <= ch < 3 ==> premultiplied[ch] == block_weighted(
                            p,
                            f,
                            x as int,
                            y as int,
                            dx * f,
                            ch,
                        ),
                decreases f - dx,
            {
                let mut dy: i32 = 0;
                while dy < factor
                    invariant
                        p == padded@,
                        f == factor,
                        f > 1,
                        f * f <= i32::MAX,
                        pw == p.w,
                        ph == p.h,
                        0 <= x,
                        0 <= y,
                        f * x + f <= pw,
                        f * y + f <= ph,
                        0 <= dx < f,
                        0 <= dy <= f,
                        alpha == block_alpha(p, f, x as int, y as int, dx * f + dy),
                        forall|ch: int|
                            0 <= ch < 3 ==> premultiplied[ch] == block_weighted(
                                p,
                                f,
                                x as int,
                                y as int,
                                dx * f + dy,
                                ch,
                            ),
                    decreases f - dy,
                {
                    let ghost j = dx * f + dy;
                    proof {
                        lemma_index(f, f, dy as int, dx as int);
                        assert(j + 1 <= f * f) by (nonlinear_arith)
                            requires
                                j == dx * f + dy,
                                0 <= dx < f,
                                0 <= dy < f,
                        ;
                        lemma_block_sums_bounded(p, f, x as int, y as int, j);
                        assert(65025 * j <= 65025 * 0x8000_0000) by (nonlinear_arith)
                            requires
                                0 <= j <= 0x8000_0000,
                        ;
                        assert(f * x + dx < pw && f * y + dy < ph);
                        assert(x * factor + dx == f * x + dx) by (nonlinear_arith)
                            requires
                                f == factor,
                        ;
                        assert(y * factor + dy == f * y + dy) by (nonlinear_arith)
                            requires
                                f == factor,
                        ;
                    }
                    let color = padded.pixel(Point::new(x * factor + dx, y * factor + dy));
                    let a = color.a as u64;
                    proof {
                        assert(color == block_pixel(p, f, x as int, y as int, j));
                        assert(color.r as u64 * a <= 65025 && color.g as u64 * a <= 65025
                            && color.b as u64 * a <= 65025) by (nonlinear_arith)
                            requires
                                0 <= a <= 255,
                                color.r <= 255,
                                color.g <= 255,
                                color.b <= 255,
                        ;
                    }
                    premultiplied[0] = premultiplied[0] + color.r as u64 * a;
                    premultiplied[1] = premultiplied[1] + color.g as u64 * a;
                    premultiplied[2] = premultiplied[2] + color.b as u64 * a;
                    alpha = alpha + a;
                    proof {
                        assert forall|ch: int| 0 <= ch < 3 implies premultiplied[ch]
                            == block_weighted(p, f, x as int, y as int, j + 1, ch) by {
                            assert(block_weighted(p, f, x as int, y as int, j + 1, ch)
                                == block_weighted(p, f, x as int, y as int, j, ch) + channel(
                                color,
                                ch,
                            ) * color.a);
                        }
                    }
                    dy = dy + 1;
                }
                proof {
                    assert(dx * f + f == (dx + 1) * f) by (nonlinear_arith);
                }
                dx = dx + 1;
            }
            proof {
                assert(f * f == factor * factor);
                assert(0 <= x < size.x && 0 <= y < size.y);
                assert(x < p.w / f && y < p.h / f) by (nonlinear_arith)
                    requires
                        pw == f * size.x,
                        ph == f * size.y,
                        x < size.x,
                        y < size.y,
                        f > 0,
                        pw == p.w,
                        ph == p.h,
                {
                    vstd::arithmetic::div_mod::lemma_div_multiples_vanish(size.x as int, f);
                    vstd::arithmetic::div_mod::lemma_div_multiples_vanish(size.y as int, f);
                }
            }
            let color = if alpha == 0 {
                Color::transparent()
            } else {
                let unweigh = |sum: u64| -> (c: u8)
                    requires
                        alpha > 0,
                        sum + alpha / 2 <= u32::MAX,
                    ensures
                        c == unweight(sum as int, alpha as int),
                    {
                        let v = (sum + alpha / 2) / alpha;
                        if v < 255 {
                            v as u8
                        } else {
                            255
                        }
                    };
                Color::new(
                    unweigh(premultiplied[0]),
                    unweigh(premultiplied[1]),
                    unweigh(premultiplied[2]),
                    ((alpha + count / 2) / count) as u8,
                )
            };
            proof {
                assert(color == block_color(p, f, x as int, y as int));
                lemma_set(result@, x as int, y as int, color);
            }
            result.set_pixel(Point::new(x, y), color);
            y = y + 1;
        }
        x = x + 1;
    }
    proof {
        lemma_ext(result@, target);
    }
    result
}

/// `v` scaled by the ratio `s`: enlarged by `s.up`, then reduced by
/// `s.down`.
pub open spec fn scale_view(v: ImageView, s: Scale) -> ImageView {
    reduce_view(enlarge_view(v, s.up as i32 as int), s.down as i32 as int)
}

/// What [`scale`] needs at each of its two steps.
pub open spec fn scale_fits(v: ImageView, s: Scale) -> bool {
    let up = s.up as i32 as int;
    &&& (up <= 1 || fits(v.w * up, v.h * up))
    &&& reduce_fits(enlarge_view(v, up), s.down as i32 as int)
}

/// Scales by a whole ratio, without ever landing between pixels.
///
/// Scaling up repeats each pixel. Scaling down averages each block into one,
/// weighting colors by their alpha so that fading into transparency doesn't
/// darken the result, and padding first if the size doesn't divide evenly,
/// so no block is ever partial.
pub fn scale(image: &Image, ratio: Scale) -> (out: Image)
    requires
        scale_fits(image@, ratio),
    ensures
        out@ == scale_view(image@, ratio),
{
    let enlarged = enlarge(image, ratio.up as i32);
    reduce(&enlarged, ratio.down as i32)
}

// ---------------------------------------------------------------------------
// Powers of two.
// ---------------------------------------------------------------------------

pub open spec fn is_power_of_two(n: int) -> bool
    decreases n,
{
    if n <= 0 {
        false
    } else if n == 1 {
        true
    } else {
        n % 2 == 0 && is_power_of_two(n / 2)
    }
}

/// Doubling `p` until it reaches `v`.
pub open spec fn double_until(p: int, v: int) -> int
    decreases (if p >= 1 && p < v {
        v - p
    } else {
        0
    }),
{
    if p >= 1 && p < v {
        double_until(2 * p, v)
    } else {
        p
    }
}

/// The smallest power of two at or above `value`, and one for a value of
/// one or less.
pub open spec fn next_power_of_two_spec(value: int) -> int {
    if value <= 1 {
        1
    } else {
        double_until(1, value)
    }
}

pub proof fn lemma_double_until(p: int, v: int)
    requires
        is_power_of_two(p),
        p < 2 * v,
        v >= 1,
    ensures
        is_power_of_two(double_until(p, v)),
        v <= double_until(p, v) < 2 * v,
    decreases (if p >= 1 && p < v {
        v - p
    } else {
        0
    }),
{
    if p < v {
        assert((2 * p) / 2 == p);
        lemma_double_until(2 * p, v);
    }
}

/// The next power of two at or above `value`, never below one. Above
/// `2^30` that power would not fit an `i32`, so such values are not taken.
pub fn next_power_of_two(value: i32) -> (r: i32)
    requires
        value <= 0x4000_0000,
    ensures
        r == next_power_of_two_spec(value as int),
        r >= 1,
        value <= 1 ==> r == 1,
        1 < value ==> is_power_of_two(r as int) && value <= r < 2 * value,
{
    if value <= 1 {
        return 1;
    }
    proof {
        lemma_double_until(1, value as int);
    }
    let mut p: i32 = 1;
    while p < value
        invariant
            1 < value <= 0x4000_0000,
            1 <= p < 2 * value,
            double_until(p as int, value as int) == double_until(1, value as int),
        decreases 2 * value - p,
    {
        p = p * 2;
    }
    p
}

/// `v` grown on the right and bottom so both sides are powers of two.
pub open spec fn fit_view(v: ImageView) -> ImageView {
    pad_view(
        v,
        0,
        0,
        next_power_of_two_spec(v.w) - v.w,
        next_power_of_two_spec(v.h) - v.h,
    )
}

/// What [`fit_to_power_of_two`] needs: both sides at most `2^30`, and the
/// grown image fits in memory.
pub open spec fn fit_fits(v: ImageView) -> bool {
    &&& v.w <= 0x4000_0000
    &&& v.h <= 0x4000_0000
    &&& fits(next_power_of_two_spec(v.w), next_power_of_two_spec(v.h))
}

/// Grows an image so both sides are powers of two, adding to the right and
/// bottom so what is already drawn keeps its position.
pub fn fit_to_power_of_two(image: &Image) -> (out: Image)
    requires
        fit_fits(image@),
    ensures
        out@ == fit_view(image@),
{
    let width = next_power_of_two(image.width());
    let height = next_power_of_two(image.height());
    pad(image, 0, 0, width - image.width(), height - image.height())
}

// ---------------------------------------------------------------------------
// Bounds shared by several images, and the whole export pipeline.
// ---------------------------------------------------------------------------

/// There is only one smallest rectangle around a set of pixels.
pub proof fn lemma_bounding_box_unique(r1: Rect, r2: Rect, inside: spec_fn(int, int) -> bool)
    requires
        is_bounding_box(r1, inside),
        is_bounding_box(r2, inside),
    ensures
        r1 == r2,
{
    let y1 = choose|y: int| #[trigger] inside(r1.x as int, y);
    let y2 = choose|y: int| #[trigger] inside(r2.x as int, y);
    let y3 = choose|y: int| #[trigger] inside(r1.x + r1.w - 1, y);
    let y4 = choose|y: int| #[trigger] inside(r2.x + r2.w - 1, y);
    let x1 = choose|x: int| #[trigger] inside(x, r1.y as int);
    let x2 = choose|x: int| #[trigger] inside(x, r2.y as int);
    let x3 = choose|x: int| #[trigger] inside(x, r1.y + r1.h - 1);
    let x4 = choose|x: int| #[trigger] inside(x, r2.y + r2.h - 1);
    assert(inside(r1.x as int, y1));
    assert(inside(r2.x as int, y2));
    assert(inside(r1.x + r1.w - 1, y3));
    assert(inside(r2.x + r2.w - 1, y4));
    assert(inside(x1, r1.y as int));
    assert(inside(x2, r2.y as int));
    assert(inside(x3, r1.y + r1.h - 1));
    assert(inside(x4, r2.y + r2.h - 1));
}

/// `r` is the smallest rectangle around everything drawn in `v`.
pub open spec fn is_content_box(v: ImageView, r: Rect) -> bool {
    is_bounding_box(r, |x: int, y: int| drawn(v, x, y))
}

/// The smallest rectangle around everything drawn in `v`.
pub open spec fn content_box(v: ImageView) -> Rect {
    choose|r: Rect| #[trigger] is_content_box(v, r)
}

/// The first number from `lo` below `hi` for which `f` holds; `hi` where
/// there is none.
pub open spec fn first_true(f: spec_fn(int) -> bool, lo: int, hi: int) -> int
    decreases (if lo < hi {
        hi - lo
    } else {
        0
    }),
{
    if lo >= hi {
        hi
    } else if f(lo) {
        lo
    } else {
        first_true(f, lo + 1, hi)
    }
}

/// The last number from `x` down to `lo` for which `f` holds; `lo - 1`
/// where there is none.
pub open spec fn last_true(f: spec_fn(int) -> bool, lo: int, x: int) -> int
    decreases (if x >= lo {
        x - lo + 1
    } else {
        0
    }),
{
    if x < lo {
        lo - 1
    } else if f(x) {
        x
    } else {
        last_true(f, lo, x - 1)
    }
}

proof fn lemma_first_true(f: spec_fn(int) -> bool, lo: int, hi: int, x0: int)
    requires
        lo <= x0 < hi,
        f(x0),
    ensures
        lo <= first_true(f, lo, hi) <= x0,
        f(first_true(f, lo, hi)),
        forall|z: int| lo <= z < first_true(f, lo, hi) ==> !#[trigger] f(z),
    decreases hi - lo,
{
    if !f(lo) {
        lemma_first_true(f, lo + 1, hi, x0);
    }
}

proof fn lemma_last_true(f: spec_fn(int) -> bool, lo: int, x: int, x0: int)
    requires
        lo <= x0 <= x,
        f(x0),
    ensures
        x0 <= last_true(f, lo, x) <= x,
        f(last_true(f, lo, x)),
        forall|z: int| last_true(f, lo, x) < z <= x ==> !#[trigger] f(z),
    decreases x - lo,
{
    if !f(x) {
        lemma_last_true(f, lo, x - 1, x0);
    }
}

/// An image with something drawn on it has a content box, and the box lies
/// within the image.
pub proof fn lemma_content_box_exists(v: ImageView)
    requires
        v.wf(),
        has_content(v),
    ensures
        is_content_box(v, content_box(v)),
        0 <= content_box(v).x,
        0 <= content_box(v).y,
        content_box(v).x + content_box(v).w <= v.w,
        content_box(v).y + content_box(v).h <= v.h,
{
    let inside = |x: int, y: int| drawn(v, x, y);
    let col = |x: int| exists|y: int| #[trigger] drawn(v, x, y);
    let row = |y: int| exists|x: int| #[trigger] drawn(v, x, y);
    let (x0, y0) = choose|x: int, y: int| drawn(v, x, y);
    assert(col(x0));
    assert(row(y0));
    lemma_first_true(col, 0, v.w, x0);
    lemma_last_true(col, 0, v.w - 1, x0);
    lemma_first_true(row, 0, v.h, y0);
    lemma_last_true(row, 0, v.h - 1, y0);
    let l = first_true(col, 0, v.w);
    let rr = last_true(col, 0, v.w - 1);
    let t = first_true(row, 0, v.h);
    let b = last_true(row, 0, v.h - 1);
    let r = Rect { x: l as i32, y: t as i32, w: (rr - l + 1) as i32, h: (b - t + 1) as i32 };
    assert forall|x: int, y: int| #[trigger] inside(x, y) implies r.x <= x < r.x + r.w && r.y <= y
        < r.y + r.h by {
        assert(col(x));
        assert(row(y));
    }
    let yl = choose|y: int| #[trigger] drawn(v, l, y);
    assert(inside(r.x as int, yl));
    let yr = choose|y: int| #[trigger] drawn(v, rr, y);
    assert(inside(r.x + r.w - 1, yr));
    let xt = choose|x: int| #[trigger] drawn(v, x, t);
    assert(inside(xt, r.y as int));
    let xb = choose|x: int| #[trigger] drawn(v, x, b);
    assert(inside(xb, r.y + r.h - 1));
    assert(is_content_box(v, r));
    let c = content_box(v);
    assert(is_content_box(v, c));
    let f = |x: int, y: int| drawn(v, x, y);
    let cy0 = choose|y: int| #[trigger] f(c.x as int, y);
    assert(f(c.x as int, cy0));
    let cy1 = choose|y: int| #[trigger] f(c.x + c.w - 1, y);
    assert(f(c.x + c.w - 1, cy1));
    let cx0 = choose|x: int| #[trigger] f(x, c.y as int);
    assert(f(cx0, c.y as int));
    let cx1 = choose|x: int| #[trigger] f(x, c.y + c.h - 1);
    assert(f(cx1, c.y + c.h - 1));
}

/// Whether `(x, y)` is drawn on in any of the first `n` images.
pub open spec fn drawn_in_any(images: Seq<Image>, n: int, x: int, y: int) -> bool {
    exists|k: int| 0 <= k < n && #[trigger] drawn(images[k]@, x, y)
}

/// The rectangle that bounds what any of the images draws holds the
/// content box of each of them, and each of its edges touches something an
/// image draws, so that image's content box shares that edge: no smaller
/// rectangle holds them all.
pub proof fn lemma_shared_box_holds_each_content_box(images: Seq<Image>, r: Rect)
    requires
        is_bounding_box(r, |x: int, y: int| drawn_in_any(images, images.len() as int, x, y)),
    ensures
        forall|k: int, b: Rect|
            0 <= k < images.len() && #[trigger] is_content_box(images[k]@, b) ==> r.x <= b.x && b.x
                + b.w <= r.x + r.w && r.y <= b.y && b.y + b.h <= r.y + r.h,
        exists|k: int, y: int| 0 <= k < images.len() && #[trigger] drawn(images[k]@, r.x as int, y),
        exists|k: int, y: int| 0 <= k < images.len() && #[trigger] drawn(images[k]@, r.x + r.w - 1, y),
        exists|k: int, x: int| 0 <= k < images.len() && #[trigger] drawn(images[k]@, x, r.y as int),
        exists|k: int, x: int| 0 <= k < images.len() && #[trigger] drawn(images[k]@, x, r.y + r.h - 1),
{
    let n = images.len() as int;
    let inside = |x: int, y: int| drawn_in_any(images, n, x, y);
    assert forall|k: int, b: Rect|
        0 <= k < images.len() && #[trigger] is_content_box(images[k]@, b) implies r.x <= b.x && b.x
            + b.w <= r.x + r.w && r.y <= b.y && b.y + b.h <= r.y + r.h by {
        let v = images[k]@;
        let y0 = choose|y: int| #[trigger] drawn(v, b.x as int, y);
        let y1 = choose|y: int| #[trigger] drawn(v, b.x + b.w - 1, y);
        let x0 = choose|x: int| #[trigger] drawn(v, x, b.y as int);
        let x1 = choose|x: int| #[trigger] drawn(v, x, b.y + b.h - 1);
        assert(drawn(v, b.x as int, y0));
        assert(drawn(v, b.x + b.w - 1, y1));
        assert(drawn(v, x0, b.y as int));
        assert(drawn(v, x1, b.y + b.h - 1));
        assert(inside(b.x as int, y0));
        assert(inside(b.x + b.w - 1, y1));
        assert(inside(x0, b.y as int));
        assert(inside(x1, b.y + b.h - 1));
    }
    let ly = choose|y: int| #[trigger] inside(r.x as int, y);
    assert(inside(r.x as int, ly));
    let ry = choose|y: int| #[trigger] inside(r.x + r.w - 1, y);
    assert(inside(r.x + r.w - 1, ry));
    let tx = choose|x: int| #[trigger] inside(x, r.y as int);
    assert(inside(tx, r.y as int));
    let bx = choose|x: int| #[trigger] inside(x, r.y + r.h - 1);
    assert(inside(bx, r.y + r.h - 1));
}

/// The union of what several images cover, for trimming a set of them to a
/// common rectangle so they stay aligned with each other.
pub fn shared_bounds(images: &[Image]) -> (bounds: Option<Rect>)
    ensures
        bounds is None <==> forall|k: int| 0 <= k < images@.len() ==> !has_content(#[trigger] images@[k]@),
        bounds matches Some(r) ==> is_bounding_box(
            r,
            |x: int, y: int| drawn_in_any(images@, images@.len() as int, x, y),
        ),
{
    let ghost imgs = images@;
    let mut acc: Option<Rect> = None;
    let mut i: usize = 0;
    while i < images.len()
        invariant
            imgs == images@,
            0 <= i <= imgs.len(),
            acc is None <==> forall|k: int| 0 <= k < i ==> !has_content(#[trigger] imgs[k]@),
            acc matches Some(r) ==> {
                &&& is_bounding_box(r, |x: int, y: int| drawn_in_any(imgs, i as int, x, y))
                &&& 0 <= r.x
                &&& 0 <= r.y
                &&& r.x + r.w <= i32::MAX
                &&& r.y + r.h <= i32::MAX
            },
        decreases imgs.len() - i,
    {
        let ghost n = i as int;
        let ghost any_before = |x: int, y: int| drawn_in_any(imgs, n, x, y);
        let ghost any_after = |x: int, y: int| drawn_in_any(imgs, n + 1, x, y);
        let ghost cur = |x: int, y: int| drawn(imgs[n]@, x, y);
        let cb = content_bounds(&images[i]);
        let (iw, ih) = (images[i].width(), images[i].height());
        proof {
            assert forall|x: int, y: int| #[trigger] any_after(x, y) <==> any_before(x, y) || cur(x, y) by {
                if any_after(x, y) {
                    let k = choose|k: int| 0 <= k < n + 1 && #[trigger] drawn(imgs[k]@, x, y);
                    if k < n {
                        assert(drawn_in_any(imgs, n, x, y));
                    }
                }
                if any_before(x, y) {
                    let k = choose|k: int| 0 <= k < n && #[trigger] drawn(imgs[k]@, x, y);
                    assert(drawn_in_any(imgs, n + 1, x, y));
                }
                if cur(x, y) {
                    assert(drawn(imgs[n]@, x, y));
                }
            }
        }
        match cb {
            None => {
                proof {
                    assert forall|x: int, y: int| #[trigger] any_after(x, y) == any_before(x, y) by {
                        if cur(x, y) {
                            assert(has_content(imgs[n]@));
                        }
                    }
                    assert(any_after =~= any_before);
                }
            },
            Some(b) => {
                proof {
                    let yb = choose|y: int| #[trigger] cur(b.x as int, y);
                    let yr = choose|y: int| #[trigger] cur(b.x + b.w - 1, y);
                    let xb = choose|x: int| #[trigger] cur(x, b.y as int);
                    let xr = choose|x: int| #[trigger] cur(x, b.y + b.h - 1);
                    assert(cur(b.x as int, yb));
                    assert(cur(b.x + b.w - 1, yr));
                    assert(cur(xb, b.y as int));
                    assert(cur(xr, b.y + b.h - 1));
                    assert(0 <= b.x && b.x + b.w <= iw && 0 <= b.y && b.y + b.h <= ih);
                }
                match acc {
                    None => {
                        proof {
                            assert forall|x: int, y: int| #[trigger] any_after(x, y) == cur(x, y) by {
                                if any_before(x, y) {
                                    let k = choose|k: int|
                                        0 <= k < n && #[trigger] drawn(imgs[k]@, x, y);
                                    assert(has_content(imgs[k]@));
                                }
                            }
                            assert(any_after =~= cur);
                        }
                        acc = Some(b);
                    },
                    Some(a) => {
                        let (left, top) = (
                            if a.x < b.x { a.x } else { b.x },
                            if a.y < b.y { a.y } else { b.y },
                        );
                        let right = if a.x + a.w > b.x + b.w { a.x + a.w } else { b.x + b.w };
                        let bottom = if a.y + a.h > b.y + b.h { a.y + a.h } else { b.y + b.h };
                        let merged = Rect::new(left, top, right - left, bottom - top);
                        proof {
                            assert forall|x: int, y: int| #[trigger] any_after(x, y) implies merged.x
                                <= x < merged.x + merged.w && merged.y <= y < merged.y + merged.h by {
                                if any_before(x, y) {
                                    assert(a.x <= x < a.x + a.w && a.y <= y < a.y + a.h);
                                } else {
                                    assert(cur(x, y));
                                    assert(b.x <= x < b.x + b.w && b.y <= y < b.y + b.h);
                                }
                            }
                            let ya = choose|y: int| #[trigger] any_before(a.x as int, y);
                            let yra = choose|y: int| #[trigger] any_before(a.x + a.w - 1, y);
                            let xa = choose|x: int| #[trigger] any_before(x, a.y as int);
                            let xra = choose|x: int| #[trigger] any_before(x, a.y + a.h - 1);
                            assert(any_before(a.x as int, ya));
                            assert(any_before(a.x + a.w - 1, yra));
                            assert(any_before(xa, a.y as int));
                            assert(any_before(xra, a.y + a.h - 1));
                            let yb = choose|y: int| #[trigger] cur(b.x as int, y);
                            let yr = choose|y: int| #[trigger] cur(b.x + b.w - 1, y);
                            let xb = choose|x: int| #[trigger] cur(x, b.y as int);
                            let xr = choose|x: int| #[trigger] cur(x, b.y + b.h - 1);
                            if a.x < b.x {
                                assert(any_after(a.x as int, ya));
                            } else {
                                assert(any_after(b.x as int, yb));
                            }
                            if a.x + a.w > b.x + b.w {
                                assert(any_after(a.x + a.w - 1, yra));
                            } else {
                                assert(any_after(b.x + b.w - 1, yr));
                            }
                            if a.y < b.y {
                                assert(any_after(xa, a.y as int));
                            } else {
                                assert(any_after(xb, b.y as int));
                            }
                            if a.y + a.h > b.y + b.h {
                                assert(any_after(xra, a.y + a.h - 1));
                            } else {
                                assert(any_after(xr, b.y + b.h - 1));
                            }
                        }
                        acc = Some(merged);
                    },
                }
            },
        }
        i = i + 1;
    }
    proof {
        assert(i == imgs.len());
    }
    acc
}

/// The image after the cropping step of [`prepare`].
pub open spec fn cropped_view(v: ImageView, options: ExportOptions, bounds: Option<Rect>) -> ImageView {
    if options.crop {
        match bounds {
            Some(area) => crop_view(v, area),
            None => if has_content(v) {
                crop_view(v, content_box(v))
            } else {
                v
            },
        }
    } else {
        v
    }
}

/// The image after the padding step of [`prepare`].
pub open spec fn padded_view(v: ImageView, options: ExportOptions) -> ImageView {
    let p = options.padding as i32 as int;
    if options.padding > 0 {
        pad_view(v, p, p, p, p)
    } else {
        v
    }
}

/// The image after the scaling step of [`prepare`].
pub open spec fn scaled_view(v: ImageView, options: ExportOptions) -> ImageView {
    if options.scale.up != options.scale.down {
        scale_view(v, options.scale)
    } else {
        v
    }
}

/// `v` reshaped for export: cropped, padded, scaled and sized to a power of
/// two, each as `options` asks, in that order.
pub open spec fn prepare_view(v: ImageView, options: ExportOptions, bounds: Option<Rect>) -> ImageView {
    let s = scaled_view(padded_view(cropped_view(v, options, bounds), options), options);
    if options.power_of_two {
        fit_view(s)
    } else {
        s
    }
}

/// What [`prepare`] needs at each of its steps.
pub open spec fn prepare_fits(v: ImageView, options: ExportOptions, bounds: Option<Rect>) -> bool {
    let c = cropped_view(v, options, bounds);
    let p = padded_view(c, options);
    let s = scaled_view(p, options);
    let pd = options.padding as i32 as int;
    &&& options.crop ==> match bounds {
        Some(area) => crop_fits(area),
        None => true,
    }
    &&& options.padding > 0 ==> pad_fits(c, pd, pd, pd, pd)
    &&& options.scale.up != options.scale.down ==> scale_fits(p, options.scale)
    &&& options.power_of_two ==> fit_fits(s)
}

/// Reshapes an image for export.
///
/// `bounds` overrides what cropping trims to, for exporting several images
/// that have to stay aligned with one another. With nothing drawn and no
/// bounds given, trimming would leave an empty file, so the image is left as
/// it is.
pub fn prepare(image: &Image, options: &ExportOptions, bounds: Option<Rect>) -> (out: Image)
    requires
        prepare_fits(image@, *options, bounds),
    ensures
        out@ == prepare_view(image@, *options, bounds),
{
    let ghost v = image@;
    proof {
        use_type_invariant(image);
    }
    let mut result = if options.crop {
        let area = match bounds {
            Some(area) => Some(area),
            None => content_bounds(image),
        };
        match area {
            Some(area) => {
                proof {
                    if bounds is None {
                        let r = content_box(v);
                        assert(is_content_box(v, area));
                        assert(is_content_box(v, r));
                        lemma_bounding_box_unique(area, r, |x: int, y: int| drawn(v, x, y));
                        assert(crop_fits(area)) by {
                            let f = |x: int, y: int| drawn(v, x, y);
                            let y1 = choose|y: int| #[trigger] f(area.x + area.w - 1, y);
                            let x1 = choose|x: int| #[trigger] f(x, area.y + area.h - 1);
                            assert(f(area.x + area.w - 1, y1));
                            assert(f(x1, area.y + area.h - 1));
                            let y0 = choose|y: int| #[trigger] f(area.x as int, y);
                            let x0 = choose|x: int| #[trigger] f(x, area.y as int);
                            assert(f(area.x as int, y0));
                            assert(f(x0, area.y as int));
                            assert(area.w <= v.w && area.h <= v.h);
                            assert(area.w * area.h <= v.w * v.h) by (nonlinear_arith)
                                requires
                                    1 <= area.w <= v.w,
                                    1 <= area.h <= v.h,
                            ;
                        }
                    }
                }
                crop(image, area)
            },
            None => image.clone(),
        }
    } else {
        image.clone()
    };
    if options.padding > 0 {
        let padding = options.padding as i32;
        result = pad(&result, padding, padding, padding, padding);
    }
    if !options.scale.is_identity() {
        result = scale(&result, options.scale);
    }
    if options.power_of_two {
        result = fit_to_power_of_two(&result);
    }
    result
}

/// Options that [`ExportOptions::is_identity`] accepts leave every image
/// exactly as it is.
pub proof fn lemma_identity_options_keep_the_image(
    v: ImageView,
    options: ExportOptions,
    bounds: Option<Rect>,
)
    requires
        !options.crop && options.padding == 0 && options.scale.up == options.scale.down
            && !options.power_of_two,
    ensures
        prepare_view(v, options, bounds) == v,
{
}

/// Sums over a block whose first `k` pixels are all `c`.
proof fn lemma_uniform_block_sums(p: ImageView, f: int, bx: int, by: int, k: int, c: Color)
    requires
        k >= 0,
        forall|j: int| 0 <= j < k ==> #[trigger] block_pixel(p, f, bx, by, j) == c,
    ensures
        block_alpha(p, f, bx, by, k) == k * c.a,
        forall|ch: int| #[trigger] block_weighted(p, f, bx, by, k, ch) == k * (channel(c, ch) * c.a),
    decreases k,
{
    if k > 0 {
        lemma_uniform_block_sums(p, f, bx, by, k - 1, c);
        assert(block_pixel(p, f, bx, by, k - 1) == c);
        assert((k - 1) * c.a + c.a == k * c.a) by (nonlinear_arith);
        assert forall|ch: int| #[trigger] block_weighted(p, f, bx, by, k, ch) == k * (channel(c, ch)
            * c.a) by {
            let t = channel(c, ch) * c.a;
            assert(block_weighted(p, f, bx, by, k - 1, ch) == (k - 1) * t);
            assert(block_weighted(p, f, bx, by, k, ch) == block_weighted(p, f, bx, by, k - 1, ch)
                + t);
            assert((k - 1) * t + t == k * t) by (nonlinear_arith);
        }
    }
}

/// Dividing `n · q + n / 2` by `n` gives `q` back.
proof fn lemma_rounded_division(q: int, n: int)
    requires
        n > 0,
        q >= 0,
    ensures
        (n * q + n / 2) / n == q,
{
    assert(n * q == q * n) by (nonlinear_arith);
    vstd::arithmetic::div_mod::lemma_fundamental_div_mod_converse(n * q + n / 2, n, q, n / 2);
}

/// Scaling an image up by a whole factor and back down by the same factor
/// gives the original back, for any image whose fully transparent pixels
/// are transparent black (as everything erased or never drawn is). Every
/// block is one solid color, so averaging it is exact.
pub proof fn lemma_scale_up_then_down_restores(v: ImageView, k: u32)
    requires
        v.wf(),
        1 <= k <= i32::MAX,
        fits(v.w * k, v.h * k),
        forall|x: int, y: int| v.in_bounds(x, y) && v.at(x, y).a == 0 ==> #[trigger] v.at(x, y)
            == transparent(),
    ensures
        scale_view(scale_view(v, Scale { up: k, down: 1 }), Scale { up: 1, down: k }) == v,
{
    let f = k as int;
    assert(k as i32 as int == f);
    assert(1u32 as i32 as int == 1);
    if f == 1 {
        return;
    }
    let e = enlarge_view(v, f);
    assert(scale_view(v, Scale { up: k, down: 1 }) == e);
    assert(scale_view(e, Scale { up: 1, down: k }) == reduce_view(e, f));
    lemma_from_fn(v.w * f, v.h * f, |x: int, y: int| v.at(x / f, y / f));
    vstd::arithmetic::div_mod::lemma_mod_multiples_basic(v.w, f);
    vstd::arithmetic::div_mod::lemma_mod_multiples_basic(v.h, f);
    assert(v.w * f == f * v.w && v.h * f == f * v.h) by (nonlinear_arith);
    assert(remainder_to_spec(e.w, f) == 0 && remainder_to_spec(e.h, f) == 0);
    assert(block_padded(e, f) == e);
    vstd::arithmetic::div_mod::lemma_div_multiples_vanish(v.w, f);
    vstd::arithmetic::div_mod::lemma_div_multiples_vanish(v.h, f);
    let r = reduce_view(e, f);
    assert(r.w == v.w && r.h == v.h);
    lemma_from_fn(v.w, v.h, |x: int, y: int| block_color(e, f, x, y));
    assert forall|x: int, y: int| v.in_bounds(x, y) implies #[trigger] r.at(x, y) == v.at(x, y) by {
        let c = v.at(x, y);
        assert forall|j: int| 0 <= j < f * f implies #[trigger] block_pixel(e, f, x, y, j) == c by {
            vstd::arithmetic::div_mod::lemma_fundamental_div_mod(j, f);
            vstd::arithmetic::div_mod::lemma_div_pos_is_pos(j, f);
            assert(j / f < f) by {
                crate::image::lemma_unindex(f, f, j);
            }
            let (ex, ey) = (x * f + j / f, y * f + j % f);
            assert(0 <= ex < v.w * f && 0 <= ey < v.h * f) by (nonlinear_arith)
                requires
                    0 <= x < v.w,
                    0 <= y < v.h,
                    0 <= j / f < f,
                    0 <= j % f < f,
                    ex == x * f + j / f,
                    ey == y * f + j % f,
            ;
            vstd::arithmetic::div_mod::lemma_fundamental_div_mod_converse(ex, f, x, j / f);
            vstd::arithmetic::div_mod::lemma_fundamental_div_mod_converse(ey, f, y, j % f);
            assert(x * f == f * x && y * f == f * y) by (nonlinear_arith);
        }
        lemma_uniform_block_sums(e, f, x, y, f * f, c);
        let n = f * f;
        assert(n > 0) by (nonlinear_arith)
            requires
                f > 1,
                n == f * f,
        ;
        if c.a != 0 {
            assert(block_alpha(e, f, x, y, n) != 0) by (nonlinear_arith)
                requires
                    block_alpha(e, f, x, y, n) == n * c.a,
                    n > 0,
                    c.a > 0,
            ;
            let alpha = n * c.a;
            assert(alpha / 2 == (n * c.a) / 2);
            assert forall|ch: int| 0 <= ch < 3 implies unweight(
                #[trigger] block_weighted(e, f, x, y, n, ch),
                alpha,
            ) == channel(c, ch) by {
                let q = channel(c, ch);
                assert(n * (q * c.a) == alpha * q) by (nonlinear_arith)
                    requires
                        alpha == n * c.a,
                ;
                assert(alpha > 0) by (nonlinear_arith)
                    requires
                        alpha == n * c.a,
                        n > 0,
                        c.a > 0,
                ;
                lemma_rounded_division(q, alpha);
                assert(alpha * q == alpha * q);
            }
            assert(unweight(block_weighted(e, f, x, y, n, 0), alpha) == c.r);
            assert(unweight(block_weighted(e, f, x, y, n, 1), alpha) == c.g);
            assert(unweight(block_weighted(e, f, x, y, n, 2), alpha) == c.b);
            lemma_rounded_division(c.a as int, n);
            assert(n * c.a == alpha);
        } else {
            assert(block_alpha(e, f, x, y, n) == 0) by (nonlinear_arith)
                requires
                    block_alpha(e, f, x, y, n) == n * c.a,
                    c.a == 0,
            ;
        }
    }
    lemma_ext(r, v);
}

} // verus!
