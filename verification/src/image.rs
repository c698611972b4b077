//! A rectangular grid of colors, and its mathematical model.

use crate::color::Color;
use crate::geom::{Point, Size};
use vstd::prelude::*;

verus! {

/// The pixels of an image as a value: its width, height and colors, stored
/// row by row (the pixel at `(x, y)` is `px[y * w + x]`).
pub struct ImageView {
    pub w: int,
    pub h: int,
    pub px: Seq<Color>,
}

impl ImageView {
    /// Dimensions that an `i32` can hold, pixels that fit in memory, and
    /// exactly one color per pixel.
    pub open spec fn wf(self) -> bool {
        &&& 0 <= self.w <= i32::MAX
        &&& 0 <= self.h <= i32::MAX
        &&& self.w * self.h <= usize::MAX
        &&& self.px.len() == self.w * self.h
    }

    pub open spec fn in_bounds(self, x: int, y: int) -> bool {
        0 <= x < self.w && 0 <= y < self.h
    }

    pub open spec fn at(self, x: int, y: int) -> Color {
        self.px[y * self.w + x]
    }

    /// The image whose pixel at `(x, y)` is `f(x, y)`.
    pub open spec fn from_fn(w: int, h: int, f: spec_fn(int, int) -> Color) -> ImageView {
        ImageView { w, h, px: Seq::new((w * h) as nat, |i: int| f(i % w, i / w)) }
    }

    /// A `w` by `h` image of one color.
    pub open spec fn filled(w: int, h: int, c: Color) -> ImageView {
        ImageView::from_fn(w, h, |x: int, y: int| c)
    }

    /// This image with one pixel changed.
    pub open spec fn set(self, x: int, y: int, c: Color) -> ImageView {
        ImageView { w: self.w, h: self.h, px: self.px.update(y * self.w + x, c) }
    }

    /// Same dimensions and the same color at every pixel.
    pub open spec fn same(self, other: ImageView) -> bool {
        &&& self.w == other.w
        &&& self.h == other.h
        &&& forall|x: int, y: int| self.in_bounds(x, y) ==> #[trigger] self.at(x, y) == other.at(x, y)
    }
}

/// Row-major indexing stays in range and can be undone by division.
pub proof fn lemma_index(w: int, h: int, x: int, y: int)
    requires
        0 <= x < w,
        0 <= y < h,
    ensures
        0 <= y * w + x < w * h,
        (y * w + x) % w == x,
        (y * w + x) / w == y,
{
    assert(0 <= y * w) by (nonlinear_arith)
        requires
            0 <= y,
            0 < w,
    ;
    assert(y * w + x < w * h) by (nonlinear_arith)
        requires
            0 <= x < w,
            0 <= y < h,
    ;
    vstd::arithmetic::div_mod::lemma_fundamental_div_mod_converse(y * w + x, w, y, x);
}

/// Every index below `w * h` is the row-major index of a pixel.
pub proof fn lemma_unindex(w: int, h: int, i: int)
    requires
        0 <= w,
        0 <= h,
        0 <= i < w * h,
    ensures
        w > 0,
        0 <= i % w < w,
        0 <= i / w < h,
        i == (i / w) * w + i % w,
{
    if w == 0 {
        assert(w * h == 0);
    }
    vstd::arithmetic::div_mod::lemma_fundamental_div_mod(i, w);
    vstd::arithmetic::div_mod::lemma_div_pos_is_pos(i, w);
    let q = i / w;
    let r = i % w;
    assert(q * w == w * q) by (nonlinear_arith);
    assert(q < h) by (nonlinear_arith)
        requires
            i == w * q + r,
            0 <= r < w,
            i < w * h,
            w > 0,
    ;
}

/// An image built from a function shows that function at every pixel.
pub proof fn lemma_from_fn(w: int, h: int, f: spec_fn(int, int) -> Color)
    requires
        0 <= w <= i32::MAX,
        0 <= h <= i32::MAX,
        w * h <= usize::MAX,
    ensures
        ImageView::from_fn(w, h, f).wf(),
        forall|x: int, y: int|
            0 <= x < w && 0 <= y < h ==> #[trigger] ImageView::from_fn(w, h, f).at(x, y) == f(x, y),
{
    assert(w * h >= 0) by (nonlinear_arith)
        requires
            w >= 0,
            h >= 0,
    ;
    assert forall|x: int, y: int| 0 <= x < w && 0 <= y < h implies #[trigger] ImageView::from_fn(
        w,
        h,
        f,
    ).at(x, y) == f(x, y) by {
        lemma_index(w, h, x, y);
    }
}

/// Changing one pixel leaves the others as they were.
pub proof fn lemma_set(v: ImageView, x: int, y: int, c: Color)
    requires
        v.wf(),
        v.in_bounds(x, y),
    ensures
        v.set(x, y, c).wf(),
        forall|i: int, j: int|
            v.in_bounds(i, j) ==> #[trigger] v.set(x, y, c).at(i, j) == if i == x && j == y {
                c
            } else {
                v.at(i, j)
            },
{
    lemma_index(v.w, v.h, x, y);
    assert forall|i: int, j: int| v.in_bounds(i, j) implies #[trigger] v.set(x, y, c).at(i, j) == if i
        == x && j == y {
        c
    } else {
        v.at(i, j)
    } by {
        lemma_index(v.w, v.h, i, j);
        if !(i == x && j == y) {
            if j * v.w + i == y * v.w + x {
                assert((j * v.w + i) / v.w == j);
                assert((y * v.w + x) / v.w == y);
                assert((j * v.w + i) % v.w == i);
                assert((y * v.w + x) % v.w == x);
            }
        }
    }
}

/// Two well-formed images with the same dimensions and pixels are equal.
pub proof fn lemma_ext(a: ImageView, b: ImageView)
    requires
        a.wf(),
        b.wf(),
        a.same(b),
    ensures
        a == b,
{
    assert forall|i: int| 0 <= i < a.px.len() implies a.px[i] == b.px[i] by {
        lemma_unindex(a.w, a.h, i);
        let x = i % a.w;
        let y = i / a.w;
        assert(a.in_bounds(x, y));
        assert(a.at(x, y) == b.at(x, y));
        assert(y * a.w + x == i) by (nonlinear_arith)
            requires
                i == y * a.w + x,
        ;
    }
    assert(a.px =~= b.px);
}

/// An image: a width, a height and a color for every pixel.
#[derive(Debug)]
pub struct Image {
    width: i32,
    height: i32,
    pixels: Vec<Color>,
}

impl Image {
    #[verifier::type_invariant]
    pub open spec fn inv(self) -> bool {
        self.view_of().wf()
    }

    /// The model of this image.
    pub closed spec fn view_of(self) -> ImageView {
        ImageView { w: self.width as int, h: self.height as int, px: self.pixels@ }
    }
}

impl View for Image {
    type V = ImageView;

    open spec fn view(&self) -> ImageView {
        self.view_of()
    }
}

impl Image {
    /// A new image of the given size, every pixel set to `color`.
    pub fn new(size: Size, color: Color) -> (img: Image)
        requires
            size.x >= 0,
            size.y >= 0,
            size.x * size.y <= usize::MAX,
        ensures
            img@ == ImageView::filled(size.x as int, size.y as int, color),
    {
        let n = (size.x as usize) * (size.y as usize);
        let pixels = vec![color; n];
        proof {
            lemma_from_fn(size.x as int, size.y as int, |x: int, y: int| color);
            assert(pixels@ =~= ImageView::filled(size.x as int, size.y as int, color).px);
        }
        Image { width: size.x, height: size.y, pixels }
    }

    pub fn width(&self) -> (w: i32)
        ensures
            w == self@.w,
            w >= 0,
    {
        proof {
            use_type_invariant(self);
        }
        self.width
    }

    pub fn height(&self) -> (h: i32)
        ensures
            h == self@.h,
            h >= 0,
    {
        proof {
            use_type_invariant(self);
        }
        self.height
    }

    pub fn size(&self) -> (s: Size)
        ensures
            s.x == self@.w,
            s.y == self@.h,
    {
        Size::new(self.width, self.height)
    }

    /// The color at a position inside the image.
    pub fn pixel(&self, p: Point) -> (c: Color)
        requires
            self@.in_bounds(p.x as int, p.y as int),
        ensures
            c == self@.at(p.x as int, p.y as int),
    {
        proof {
            use_type_invariant(self);
            lemma_index(self@.w, self@.h, p.x as int, p.y as int);
        }
        let n = self.pixels.len();
        let (y, w, x) = (p.y as usize, self.width as usize, p.x as usize);
        assert(y * w + x < n);
        let i = y * w + x;
        self.pixels[i]
    }

    /// Changes the color at a position inside the image.
    pub fn set_pixel(&mut self, p: Point, color: Color)
        requires
            old(self)@.in_bounds(p.x as int, p.y as int),
        ensures
            final(self)@ == old(self)@.set(p.x as int, p.y as int, color),
    {
        proof {
            use_type_invariant(&*self);
            lemma_index(self@.w, self@.h, p.x as int, p.y as int);
        }
        let n = self.pixels.len();
        let (y, w, x) = (p.y as usize, self.width as usize, p.x as usize);
        assert(y * w + x < n);
        let i = y * w + x;
        let mut taken = Image { width: 0, height: 0, pixels: Vec::new() };
        std::mem::swap(&mut taken, self);
        let Image { width, height, mut pixels } = taken;
        pixels.set(i, color);
        *self = Image { width, height, pixels };
    }
}

/// The red, green, blue and alpha bytes of each color in turn.
pub open spec fn rgba_bytes(px: Seq<Color>) -> Seq<u8>
    decreases px.len(),
{
    if px.len() == 0 {
        seq![]
    } else {
        let c = px.last();
        rgba_bytes(px.drop_last()) + seq![c.r, c.g, c.b, c.a]
    }
}

impl Image {
    /// The pixels as RGBA bytes, row by row.
    pub fn bytes(&self) -> (b: Vec<u8>)
        ensures
            b@ == rgba_bytes(self@.px),
    {
        let mut out: Vec<u8> = Vec::new();
        let mut i: usize = 0;
        while i < self.pixels.len()
            invariant
                0 <= i <= self.pixels@.len(),
                out@ == rgba_bytes(self.pixels@.subrange(0, i as int)),
            decreases self.pixels@.len() - i,
        {
            let c = self.pixels[i];
            out.push(c.r);
            out.push(c.g);
            out.push(c.b);
            out.push(c.a);
            proof {
                let s = self.pixels@.subrange(0, i + 1);
                assert(s.drop_last() =~= self.pixels@.subrange(0, i as int));
                assert(s.last() == c);
                assert(out@ =~= rgba_bytes(s));
            }
            i = i + 1;
        }
        proof {
            assert(self.pixels@.subrange(0, self.pixels@.len() as int) =~= self.pixels@);
        }
        out
    }

    /// The colors of the pixels, row by row.
    pub fn pixels(&self) -> (px: Vec<Color>)
        ensures
            px@ == self@.px,
    {
        self.clone().pixels
    }
}

impl Clone for Image {
    fn clone(&self) -> (img: Image)
        ensures
            img@ == self@,
    {
        proof {
            use_type_invariant(self);
        }
        Image { width: self.width, height: self.height, pixels: self.pixels.clone() }
    }
}

} // verus!
