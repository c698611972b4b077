//! The canvas: the image a layer draws on, and the drawing operations, each
//! of which reports how to undo what it changed.

use vstd::prelude::*;
use crate::color::{transparent, Color};
use crate::geom::{Point, Rect, Size};
use crate::graphics::{
    brush, brush_offsets, capped_radius, delta_fits, in_disc, is_brush, lemma_brush_unique, line,
    line_points, rectangle, rectangle_points, room_for_brush, shifted, stamp, thicken, thickened,
};
use crate::image::{lemma_ext, lemma_from_fn, lemma_index, lemma_set, Image, ImageView};

verus! {

/// What certain actions do to the canvas.
#[derive(Clone, Copy, Debug, PartialEq, Eq, Structural)]
pub enum CanvasEffect {
    /// The canvas is not affected at all.
    Unaffected,
    /// The canvas needs to be drawn again.
    Update,
    /// The canvas needs to be made anew.
    New,
    /// The layers need to be drawn again.
    Layer,
}

/// The image after painting the points of `pts` in order with `c`, those
/// outside the image left out.
pub open spec fn painted(v: ImageView, pts: Seq<Point>, c: Color) -> ImageView
    decreases pts.len(),
{
    if pts.len() == 0 {
        v
    } else {
        let w = painted(v, pts.drop_last(), c);
        let p = pts.last();
        if w.in_bounds(p.x as int, p.y as int) {
            w.set(p.x as int, p.y as int, c)
        } else {
            w
        }
    }
}

/// What undoes painting `pts` with `c` over `v`: each pixel that changed,
/// once, with the color it had, in the order it was first painted.
pub open spec fn reversals(v: ImageView, pts: Seq<Point>, c: Color) -> Seq<(Point, Color)>
    decreases pts.len(),
{
    if pts.len() == 0 {
        seq![]
    } else {
        let w = painted(v, pts.drop_last(), c);
        let r = reversals(v, pts.drop_last(), c);
        let p = pts.last();
        if w.in_bounds(p.x as int, p.y as int) && w.at(p.x as int, p.y as int) != c {
            r.push((p, w.at(p.x as int, p.y as int)))
        } else {
            r
        }
    }
}

/// The image after setting the pixels of `revs` as undoing does: from the
/// last to the first.
pub open spec fn undone(v: ImageView, revs: Seq<(Point, Color)>) -> ImageView
    decreases revs.len(),
{
    if revs.len() == 0 {
        v
    } else {
        let (p, c) = revs.last();
        let w = if v.in_bounds(p.x as int, p.y as int) {
            v.set(p.x as int, p.y as int, c)
        } else {
            v
        };
        undone(w, revs.drop_last())
    }
}

proof fn lemma_painted_wf(v: ImageView, pts: Seq<Point>, c: Color)
    requires
        v.wf(),
    ensures
        painted(v, pts, c).wf(),
        painted(v, pts, c).w == v.w,
        painted(v, pts, c).h == v.h,
    decreases pts.len(),
{
    if pts.len() > 0 {
        lemma_painted_wf(v, pts.drop_last(), c);
        let w = painted(v, pts.drop_last(), c);
        let p = pts.last();
        if w.in_bounds(p.x as int, p.y as int) {
            lemma_set(w, p.x as int, p.y as int, c);
        }
    }
}

/// Setting a pixel and then setting it back to the color it had gives the
/// image back.
pub proof fn lemma_set_back(v: ImageView, x: int, y: int, c: Color)
    requires
        v.wf(),
        v.in_bounds(x, y),
    ensures
        v.set(x, y, c).set(x, y, v.at(x, y)) == v,
{
    lemma_set(v, x, y, c);
    let w = v.set(x, y, c);
    lemma_set(w, x, y, v.at(x, y));
    lemma_ext(w.set(x, y, v.at(x, y)), v);
}

/// Setting a pixel to the color it has changes nothing.
pub proof fn lemma_set_same(v: ImageView, x: int, y: int)
    requires
        v.wf(),
        v.in_bounds(x, y),
    ensures
        v.set(x, y, v.at(x, y)) == v,
{
    lemma_set(v, x, y, v.at(x, y));
    lemma_ext(v.set(x, y, v.at(x, y)), v);
}

/// Undoing what painting reports gives back the image painted over: each
/// drawing operation can be taken back exactly.
pub proof fn lemma_undo_painting(v: ImageView, pts: Seq<Point>, c: Color)
    requires
        v.wf(),
    ensures
        undone(painted(v, pts, c), reversals(v, pts, c)) == v,
    decreases pts.len(),
{
    if pts.len() > 0 {
        let rest = pts.drop_last();
        lemma_undo_painting(v, rest, c);
        lemma_painted_wf(v, rest, c);
        let w = painted(v, rest, c);
        let r = reversals(v, rest, c);
        let p = pts.last();
        let (x, y) = (p.x as int, p.y as int);
        if w.in_bounds(x, y) {
            if w.at(x, y) != c {
                let old = w.at(x, y);
                lemma_set(w, x, y, c);
                lemma_set_back(w, x, y, c);
                assert(r.push((p, old)).drop_last() =~= r);
                assert(undone(w.set(x, y, c), r.push((p, old))) == undone(
                    w.set(x, y, c).set(x, y, old),
                    r,
                ));
            } else {
                lemma_set_same(w, x, y);
            }
        }
    }
}

/// The image `v` would show with `img` set over it as large as `size`:
/// what lies in both kept, new pixels transparent.
pub open spec fn resized(v: ImageView, w: int, h: int) -> ImageView {
    ImageView::from_fn(w, h, |x: int, y: int| if v.in_bounds(x, y) {
        v.at(x, y)
    } else {
        transparent()
    })
}

/// The part of `v` inside `area`, at the origin; what lies beyond the
/// right or bottom edge of `v` transparent.
pub open spec fn area_view(v: ImageView, area: Rect) -> ImageView {
    ImageView::from_fn(
        area.w as int,
        area.h as int,
        |i: int, j: int|
            if area.x + i < v.w && area.y + j < v.h {
                v.at(area.x + i, area.y + j)
            } else {
                transparent()
            },
    )
}

/// The points of `area`, column by column.
pub open spec fn area_points(area: Rect) -> Seq<Point> {
    let h = if area.h > 0 {
        area.h as int
    } else {
        0
    };
    let w = if area.w > 0 {
        area.w as int
    } else {
        0
    };
    Seq::new(
        (w * h) as nat,
        |k: int| Point { x: (k / h + area.x) as i32, y: (k % h + area.y) as i32 },
    )
}

/// The area where drawing takes place: each layer has a canvas, which holds
/// the image drawn on it.
#[derive(Debug)]
pub struct Canvas {
    inner: Image,
}

impl View for Canvas {
    type V = ImageView;

    closed spec fn view(&self) -> ImageView {
        self.inner@
    }
}

impl Canvas {
    /// A blank canvas of the given size.
    pub fn new(size: Size) -> (c: Canvas)
        requires
            size.x >= 0,
            size.y >= 0,
            size.x * size.y <= usize::MAX,
        ensures
            c@ == ImageView::filled(size.x as int, size.y as int, transparent()),
    {
        Canvas { inner: Image::new(size, Color::transparent()) }
    }

    /// The image held by this canvas.
    pub fn inner(&self) -> (img: &Image)
        ensures
            img@ == self@,
    {
        &self.inner
    }

    /// The size of the canvas in pixels.
    pub fn size(&self) -> (s: Size)
        ensures
            s.x == self@.w,
            s.y == self@.h,
            self@.wf(),
    {
        proof {
            use_type_invariant(&self.inner);
        }
        self.inner.size()
    }

    pub fn width(&self) -> (w: i32)
        ensures
            w == self@.w,
            w >= 0,
    {
        self.inner.width()
    }

    pub fn height(&self) -> (h: i32)
        ensures
            h == self@.h,
            h >= 0,
    {
        self.inner.height()
    }

    /// The canvas as a rectangle from the origin.
    pub fn rect(&self) -> (r: Rect)
        ensures
            r == (Rect { x: 0, y: 0, w: self@.w as i32, h: self@.h as i32 }),
    {
        Rect::new(0, 0, self.width(), self.height())
    }

    /// The pixels as RGBA bytes, row by row.
    pub fn bytes(&self) -> (b: Vec<u8>)
        ensures
            b@ == crate::image::rgba_bytes(self@.px),
    {
        self.inner.bytes()
    }

    /// Whether a point is inside the canvas.
    pub fn is_in_bounds(&self, p: Point) -> (b: bool)
        ensures
            b == self@.in_bounds(p.x as int, p.y as int),
    {
        p.x >= 0 && p.y >= 0 && p.x < self.width() && p.y < self.height()
    }

    /// Replaces the image of the canvas.
    pub fn set_img(&mut self, img: Image)
        ensures
            final(self)@ == img@,
    {
        self.inner = img;
    }

    /// Takes the image out, leaving an empty one.
    pub fn take_inner(&mut self) -> (img: Image)
        ensures
            img@ == old(self)@,
            final(self)@ == ImageView::filled(0, 0, transparent()),
    {
        let mut other = Image::new(Size::new(0, 0), Color::transparent());
        std::mem::swap(&mut other, &mut self.inner);
        other
    }

    /// Makes every pixel transparent, and gives back the image as it was.
    pub fn clear(&mut self) -> (img: Image)
        ensures
            img@ == old(self)@,
            final(self)@ == ImageView::filled(old(self)@.w, old(self)@.h, transparent()),
    {
        proof {
            use_type_invariant(&self.inner);
        }
        let size = self.size();
        let mut other = Image::new(size, Color::transparent());
        std::mem::swap(&mut other, &mut self.inner);
        other
    }

    /// Resizes the canvas, keeping what stays in bounds and making new
    /// pixels transparent. Gives back the image as it was.
    pub fn resize(&mut self, size: Size) -> (img: Image)
        requires
            size.x >= 0,
            size.y >= 0,
            size.x * size.y <= usize::MAX,
        ensures
            img@ == old(self)@,
            final(self)@ == resized(old(self)@, size.x as int, size.y as int),
    {
        let old_img = self.take_inner();
        let ghost v = old_img@;
        let mut next = Image::new(size, Color::transparent());
        let ghost target = resized(v, size.x as int, size.y as int);
        proof {
            lemma_from_fn(
                size.x as int,
                size.y as int,
                |x: int, y: int| if v.in_bounds(x, y) {
                    v.at(x, y)
                } else {
                    transparent()
                },
            );
            lemma_from_fn(size.x as int, size.y as int, |x: int, y: int| transparent());
        }
        let w = if old_img.width() < size.x { old_img.width() } else { size.x };
        let h = if old_img.height() < size.y { old_img.height() } else { size.y };
        let mut x: i32 = 0;
        while x < w
            invariant
                v == old_img@,
                0 <= w <= size.x,
                0 <= h <= size.y,
                w <= v.w,
                h <= v.h,
                w == v.w || w == size.x,
                h == v.h || h == size.y,
                target == resized(v, size.x as int, size.y as int),
                forall|i: int, j: int|
                    0 <= i < size.x && 0 <= j < size.y ==> #[trigger] target.at(i, j) == if v.in_bounds(
                        i,
                        j,
                    ) {
                        v.at(i, j)
                    } else {
                        transparent()
                    },
                target.wf(),
                target.w == size.x && target.h == size.y,
                next@.wf(),
                next@.w == size.x && next@.h == size.y,
                0 <= x <= w,
                forall|i: int, j: int|
                    next@.in_bounds(i, j) ==> #[trigger] next@.at(i, j) == if i < x && j < h {
                        v.at(i, j)
                    } else {
                        transparent()
                    },
            decreases w - x,
        {
            let mut y: i32 = 0;
            while y < h
                invariant
                    v == old_img@,
                    0 <= w <= size.x,
                    0 <= h <= size.y,
                    w <= v.w,
                    h <= v.h,
                    next@.wf(),
                    next@.w == size.x && next@.h == size.y,
                    0 <= x < w,
                    0 <= y <= h,
                    forall|i: int, j: int|
                        next@.in_bounds(i, j) ==> #[trigger] next@.at(i, j) == if (i < x && j < h) || (
                        i == x && j < y) {
                            v.at(i, j)
                        } else {
                            transparent()
                        },
                decreases h - y,
            {
                let p = Point::new(x, y);
                let c = old_img.pixel(p);
                proof {
                    lemma_set(next@, x as int, y as int, c);
                }
                next.set_pixel(p, c);
                y = y + 1;
            }
            x = x + 1;
        }
        proof {
            assert forall|i: int, j: int| next@.in_bounds(i, j) implies #[trigger] next@.at(i, j)
                == target.at(i, j) by {
                if v.in_bounds(i, j) {
                    assert(i < w && j < h);
                }
            }
            lemma_ext(next@, target);
        }
        self.inner = next;
        old_img
    }

    /// The color at a point inside the canvas.
    pub fn pixel(&self, p: Point) -> (c: Color)
        requires
            self@.in_bounds(p.x as int, p.y as int),
        ensures
            c == self@.at(p.x as int, p.y as int),
    {
        self.inner.pixel(p)
    }

    /// Sets the color at a point. Where that changed anything, gives back
    /// what undoes it: the point and the color it had.
    pub fn set_pixel(&mut self, p: Point, color: Color) -> (r: Option<(Point, Color)>)
        ensures
            final(self)@ == if old(self)@.in_bounds(p.x as int, p.y as int) {
                old(self)@.set(p.x as int, p.y as int, color)
            } else {
                old(self)@
            },
            r == if old(self)@.in_bounds(p.x as int, p.y as int) && old(self)@.at(p.x as int, p.y as int)
                != color {
                Some((p, old(self)@.at(p.x as int, p.y as int)))
            } else {
                None
            },
    {
        if self.is_in_bounds(p) {
            let old = self.inner.pixel(p);
            if color == old {
                proof {
                    use_type_invariant(&self.inner);
                    lemma_set_same(self@, p.x as int, p.y as int);
                }
                return None;
            }
            self.inner.set_pixel(p, color);
            return Some((p, old));
        }
        None
    }

    /// Paints the points in order, and gives back what undoes it.
    pub fn paint_points(&mut self, pts: &Vec<Point>, color: Color) -> (r: Vec<(Point, Color)>)
        ensures
            final(self)@ == painted(old(self)@, pts@, color),
            r@ == reversals(old(self)@, pts@, color),
    {
        let ghost v = self@;
        let mut revs: Vec<(Point, Color)> = Vec::new();
        let mut i: usize = 0;
        while i < pts.len()
            invariant
                0 <= i <= pts@.len(),
                self@ == painted(v, pts@.subrange(0, i as int), color),
                revs@ == reversals(v, pts@.subrange(0, i as int), color),
            decreases pts@.len() - i,
        {
            let ghost before = self@;
            let p = pts[i];
            let step = self.set_pixel(p, color);
            proof {
                let s = pts@.subrange(0, i + 1);
                assert(s.drop_last() =~= pts@.subrange(0, i as int));
                assert(s.last() == p);
            }
            if let Some(rev) = step {
                revs.push(rev);
            }
            i = i + 1;
        }
        proof {
            assert(pts@.subrange(0, pts@.len() as int) =~= pts@);
        }
        revs
    }

    /// Draws a line from one point to another.
    pub fn line(&mut self, p1: Point, p2: Point, color: Color) -> (r: Vec<(Point, Color)>)
        requires
            delta_fits(p1, p2),
        ensures
            final(self)@ == painted(old(self)@, line_points(p1, p2), color),
            r@ == reversals(old(self)@, line_points(p1, p2), color),
    {
        let pts = line(p1, p2);
        self.paint_points(&pts, color)
    }

    /// Draws the outline of a rectangle between two corners.
    pub fn rectangle(&mut self, p1: Point, p2: Point, color: Color) -> (r: Vec<(Point, Color)>)
        requires
            delta_fits(p1, p2),
        ensures
            final(self)@ == painted(old(self)@, rectangle_points(p1, p2), color),
            r@ == reversals(old(self)@, rectangle_points(p1, p2), color),
    {
        let pts = rectangle(p1, p2);
        self.paint_points(&pts, color)
    }

    /// Stamps a brush of the given radius centred on a point.
    pub fn brush(&mut self, p: Point, color: Color, radius: u8) -> (r: Vec<(Point, Color)>)
        requires
            room_for_brush(seq![p], radius),
        ensures
            final(self)@ == painted(old(self)@, stamp(p, brush(radius)), color),
            r@ == reversals(old(self)@, stamp(p, brush(radius)), color),
    {
        let offsets = brush_offsets(radius);
        proof {
            lemma_brush_unique(offsets@, radius);
            assert(seq![p][0] == p);
        }
        let mut pts: Vec<Point> = Vec::new();
        let mut i: usize = 0;
        while i < offsets.len()
            invariant
                0 <= i <= offsets@.len(),
                is_brush(offsets@, radius),
                offsets@ == brush(radius),
                room_for_brush(seq![p], radius),
                pts@ == stamp(p, offsets@.subrange(0, i as int)),
            decreases offsets@.len() - i,
        {
            let o = offsets[i];
            proof {
                assert(in_disc(capped_radius(radius), offsets@[i as int]));
                crate::graphics::lemma_disc_bounds(capped_radius(radius), o);
                assert(seq![p][0] == p);
            }
            pts.push(Point::new(p.x + o.x, p.y + o.y));
            proof {
                assert(pts@ =~= stamp(p, offsets@.subrange(0, i + 1)));
            }
            i = i + 1;
        }
        proof {
            assert(offsets@.subrange(0, offsets@.len() as int) =~= offsets@);
        }
        self.paint_points(&pts, color)
    }

    /// Drags a brush of the given radius from one point to another,
    /// stamping along the line; each pixel is painted once, so that undoing
    /// never restores a color from the same stroke.
    pub fn brush_line(&mut self, p1: Point, p2: Point, color: Color, radius: u8) -> (r: Vec<
        (Point, Color),
    >)
        requires
            delta_fits(p1, p2),
            room_for_brush(line_points(p1, p2), radius),
        ensures
            radius == 0 ==> final(self)@ == painted(old(self)@, line_points(p1, p2), color) && r@
                == reversals(old(self)@, line_points(p1, p2), color),
            radius != 0 ==> final(self)@ == painted(old(self)@, thickened(line_points(p1, p2), radius), color)
                && r@ == reversals(old(self)@, thickened(line_points(p1, p2), radius), color),
    {
        if radius == 0 {
            return self.line(p1, p2, color);
        }
        let centres = line(p1, p2);
        let pts = thicken(centres, radius);
        self.paint_points(&pts, color)
    }

    /// Sets every point of an area to a color.
    pub fn set_area(&mut self, area: Rect, color: Color) -> (r: Vec<(Point, Color)>)
        requires
            area.w > 0 ==> area.x + area.w - 1 <= i32::MAX,
            area.h > 0 ==> area.y + area.h - 1 <= i32::MAX,
            area.w * area.h <= usize::MAX,
        ensures
            final(self)@ == painted(old(self)@, area_points(area), color),
            r@ == reversals(old(self)@, area_points(area), color),
    {
        let ghost all = area_points(area);
        let ghost hh: int = if area.h > 0 {
            area.h as int
        } else {
            0
        };
        let mut pts: Vec<Point> = Vec::new();
        let mut i: i32 = 0;
        while i < area.w
            invariant
                0 <= i,
                area.w > 0 ==> i <= area.w,
                area.w <= 0 ==> i == 0,
                area.w > 0 ==> area.x + area.w - 1 <= i32::MAX,
                area.h > 0 ==> area.y + area.h - 1 <= i32::MAX,
                area.w * area.h <= usize::MAX,
                all == area_points(area),
                hh == (if area.h > 0 {
                    area.h as int
                } else {
                    0
                }),
                pts@.len() == i * hh,
                forall|k: int| 0 <= k < pts@.len() ==> #[trigger] pts@[k] == all[k],
            decreases area.w - i,
        {
            let mut j: i32 = 0;
            while j < area.h
                invariant
                    0 <= i < area.w,
                    0 <= j,
                    area.h > 0 ==> j <= area.h,
                    area.h <= 0 ==> j == 0,
                    area.x + area.w - 1 <= i32::MAX,
                    area.h > 0 ==> area.y + area.h - 1 <= i32::MAX,
                    area.w * area.h <= usize::MAX,
                    all == area_points(area),
                    hh == (if area.h > 0 {
                        area.h as int
                    } else {
                        0
                    }),
                    pts@.len() == i * hh + j,
                    forall|k: int| 0 <= k < pts@.len() ==> #[trigger] pts@[k] == all[k],
                decreases area.h - j,
            {
                proof {
                    lemma_index(hh, area.w as int, j as int, i as int);
                    assert((i + 1) * hh <= area.w * hh) by (nonlinear_arith)
                        requires
                            i + 1 <= area.w,
                            hh >= 0,
                    ;
                    assert(i * hh + j < (i + 1) * hh) by (nonlinear_arith)
                        requires
                            j < hh,
                    ;
                    assert(area.w * hh == area.w * area.h);
                }
                pts.push(Point::new(i + area.x, j + area.y));
                j = j + 1;
            }
            proof {
                if area.h <= 0 {
                    assert(j == 0 && hh == 0);
                }
                assert((i + 1) * hh == i * hh + hh) by (nonlinear_arith);
            }
            i = i + 1;
        }
        proof {
            if area.w > 0 {
                assert(i == area.w);
                assert(all.len() == area.w * hh) by (nonlinear_arith)
                    requires
                        area.w > 0,
                        hh >= 0,
                        all.len() == (area.w * hh) as nat,
                ;
                assert(pts@.len() == all.len()) by (nonlinear_arith)
                    requires
                        pts@.len() == i * hh,
                        all.len() == area.w * hh,
                        i == area.w,
                ;
            } else {
                assert(i == 0);
                assert(pts@.len() == 0);
                assert(all.len() == 0);
            }
            assert(pts@ =~= all);
        }
        self.paint_points(&pts, color)
    }

    /// The part of the canvas inside an area, as an image; what lies beyond
    /// the right or bottom edge comes out transparent.
    pub fn img_from_area(&self, area: Rect) -> (img: Image)
        requires
            area.x >= 0,
            area.y >= 0,
            area.w >= 0,
            area.h >= 0,
            area.w * area.h <= usize::MAX,
            area.x + area.w <= i32::MAX,
            area.y + area.h <= i32::MAX,
        ensures
            img@ == area_view(self@, area),
    {
        let ghost v = self@;
        proof {
            use_type_invariant(&self.inner);
        }
        let mut img = Image::new(Size::new(area.w, area.h), Color::transparent());
        let ghost target = area_view(v, area);
        proof {
            lemma_from_fn(area.w as int, area.h as int, |i: int, j: int| transparent());
            lemma_from_fn(
                area.w as int,
                area.h as int,
                |i: int, j: int|
                    if area.x + i < v.w && area.y + j < v.h {
                        v.at(area.x + i, area.y + j)
                    } else {
                        transparent()
                    },
            );
        }
        let mut i: i32 = 0;
        while i < area.w
            invariant
                v == self@,
                v.wf(),
                area.x >= 0 && area.y >= 0 && area.w >= 0 && area.h >= 0,
                area.x + area.w <= i32::MAX,
                area.y + area.h <= i32::MAX,
                target == area_view(v, area),
                target.wf(),
                target.w == area.w && target.h == area.h,
                forall|a: int, b: int|
                    0 <= a < area.w && 0 <= b < area.h ==> #[trigger] target.at(a, b) == if area.x
                        + a < v.w && area.y + b < v.h {
                        v.at(area.x + a, area.y + b)
                    } else {
                        transparent()
                    },
                img@.wf(),
                img@.w == area.w && img@.h == area.h,
                0 <= i <= area.w,
                forall|a: int, b: int|
                    img@.in_bounds(a, b) ==> #[trigger] img@.at(a, b) == if a < i {
                        target.at(a, b)
                    } else {
                        transparent()
                    },
            decreases area.w - i,
        {
            let mut j: i32 = 0;
            while j < area.h
                invariant
                    v == self@,
                    v.wf(),
                    area.x >= 0 && area.y >= 0 && area.w >= 0 && area.h >= 0,
                    area.x + area.w <= i32::MAX,
                    area.y + area.h <= i32::MAX,
                    target.wf(),
                    target.w == area.w && target.h == area.h,
                    forall|a: int, b: int|
                        0 <= a < area.w && 0 <= b < area.h ==> #[trigger] target.at(a, b) == if area.x
                            + a < v.w && area.y + b < v.h {
                            v.at(area.x + a, area.y + b)
                        } else {
                            transparent()
                        },
                    img@.wf(),
                    img@.w == area.w && img@.h == area.h,
                    0 <= i < area.w,
                    0 <= j <= area.h,
                    forall|a: int, b: int|
                        img@.in_bounds(a, b) ==> #[trigger] img@.at(a, b) == if a < i || (a == i
                            && b < j) {
                            target.at(a, b)
                        } else {
                            transparent()
                        },
                decreases area.h - j,
            {
                let p = Point::new(area.x + i, area.y + j);
                if p.x < self.width() && p.y < self.height() {
                    let c = self.pixel(p);
                    proof {
                        lemma_set(img@, i as int, j as int, c);
                    }
                    img.set_pixel(Point::new(i, j), c);
                }
                j = j + 1;
            }
            i = i + 1;
        }
        proof {
            lemma_ext(img@, target);
        }
        img
    }
}

} // verus!
