//! Bucket filling: painting the area of one color around a point, as far
//! as it reaches through the four neighbours of each pixel.

use vstd::prelude::*;
use crate::canvas::{undone, Canvas};
use crate::color::Color;
use crate::geom::Point;
use crate::image::{lemma_ext, lemma_from_fn, lemma_index, ImageView};

verus! {

/// The point at `(x, y)`.
pub open spec fn pt(x: int, y: int) -> Point {
    Point { x: x as i32, y: y as i32 }
}

/// Whether two points are next to each other across an edge.
pub open spec fn adjacent(p: Point, q: Point) -> bool {
    ||| p.x == q.x && (p.y - q.y == 1 || q.y - p.y == 1)
    ||| p.y == q.y && (p.x - q.x == 1 || q.x - p.x == 1)
}

/// A walk through the image from neighbour to neighbour over pixels of
/// color `c`.
pub open spec fn is_path(v: ImageView, c: Color, path: Seq<Point>) -> bool {
    &&& path.len() >= 1
    &&& forall|i: int|
        0 <= i < path.len() ==> v.in_bounds((#[trigger] path[i]).x as int, path[i].y as int)
            && v.at(path[i].x as int, path[i].y as int) == c
    &&& forall|i: int| 0 <= i < path.len() - 1 ==> adjacent(#[trigger] path[i], path[i + 1])
}

/// Whether `q` can be reached from `p` over pixels of the color of `p`.
pub open spec fn in_region(v: ImageView, p: Point, q: Point) -> bool {
    exists|path: Seq<Point>|
        is_path(v, v.at(p.x as int, p.y as int), path) && path[0] == p && path.last() == q
}

/// The image with the region around `p` painted with `c`.
pub open spec fn filled_region(v: ImageView, p: Point, c: Color) -> ImageView {
    ImageView::from_fn(
        v.w,
        v.h,
        |x: int, y: int|
            if in_region(v, p, pt(x, y)) {
                c
            } else {
                v.at(x, y)
            },
    )
}

/// A point inside the image is in its own region.
pub proof fn lemma_region_start(v: ImageView, p: Point)
    requires
        v.in_bounds(p.x as int, p.y as int),
    ensures
        in_region(v, p, p),
{
    let path = seq![p];
    assert(is_path(v, v.at(p.x as int, p.y as int), path) && path[0] == p && path.last() == p);
}

/// The region reaches on to a neighbour of the region's color.
pub proof fn lemma_region_step(v: ImageView, p: Point, q: Point, n: Point)
    requires
        in_region(v, p, q),
        adjacent(q, n),
        v.in_bounds(n.x as int, n.y as int),
        v.at(n.x as int, n.y as int) == v.at(p.x as int, p.y as int),
    ensures
        in_region(v, p, n),
{
    let c = v.at(p.x as int, p.y as int);
    let path = choose|path: Seq<Point>| is_path(v, c, path) && path[0] == p && path.last() == q;
    let longer = path.push(n);
    assert forall|i: int| 0 <= i < longer.len() - 1 implies adjacent(#[trigger] longer[i], longer[i + 1]) by {
        if i < path.len() - 1 {
            assert(longer[i] == path[i] && longer[i + 1] == path[i + 1]);
        } else {
            assert(longer[i] == q);
        }
    }
    assert forall|i: int| 0 <= i < longer.len() implies v.in_bounds((#[trigger] longer[i]).x as int, longer[i].y as int)
        && v.at(longer[i].x as int, longer[i].y as int) == c by {
        if i < path.len() {
            assert(longer[i] == path[i]);
        }
    }
    assert(is_path(v, c, longer) && longer[0] == p && longer.last() == n);
}

/// Every point of the region is inside the image and has the color of `p`.
pub proof fn lemma_region_color(v: ImageView, p: Point, q: Point)
    requires
        in_region(v, p, q),
    ensures
        v.in_bounds(q.x as int, q.y as int),
        v.at(q.x as int, q.y as int) == v.at(p.x as int, p.y as int),
{
    let c = v.at(p.x as int, p.y as int);
    let path = choose|path: Seq<Point>| is_path(v, c, path) && path[0] == p && path.last() == q;
    assert(path[path.len() - 1] == q);
}

/// A set that holds `p` and takes in every neighbour of the region's color
/// of each of its points holds the whole region.
pub proof fn lemma_region_closed(v: ImageView, p: Point, s: Set<Point>, q: Point)
    requires
        s.contains(p),
        forall|a: Point, b: Point|
            s.contains(a) && adjacent(a, b) && v.in_bounds(b.x as int, b.y as int) && v.at(
                b.x as int,
                b.y as int,
            ) == v.at(p.x as int, p.y as int) ==> #[trigger] s.contains(b) || !#[trigger] adjacent(a, b),
        in_region(v, p, q),
    ensures
        s.contains(q),
{
    let c = v.at(p.x as int, p.y as int);
    let path = choose|path: Seq<Point>| is_path(v, c, path) && path[0] == p && path.last() == q;
    lemma_path_in(v, p, s, path, path.len() - 1);
}

proof fn lemma_path_in(v: ImageView, p: Point, s: Set<Point>, path: Seq<Point>, i: int)
    requires
        s.contains(p),
        forall|a: Point, b: Point|
            s.contains(a) && adjacent(a, b) && v.in_bounds(b.x as int, b.y as int) && v.at(
                b.x as int,
                b.y as int,
            ) == v.at(p.x as int, p.y as int) ==> #[trigger] s.contains(b) || !#[trigger] adjacent(a, b),
        is_path(v, v.at(p.x as int, p.y as int), path),
        path[0] == p,
        0 <= i < path.len(),
    ensures
        s.contains(path[i]),
    decreases i,
{
    if i > 0 {
        lemma_path_in(v, p, s, path, i - 1);
        assert(adjacent(path[i - 1], path[i]));
        assert(v.in_bounds(path[i].x as int, path[i].y as int));
    }
}

/// Undoing changes recorded with the colors the image had, each point once,
/// gives back that image.
pub proof fn lemma_undo_changes(v: ImageView, w: ImageView, revs: Seq<(Point, Color)>)
    requires
        v.wf(),
        w.wf(),
        w.w == v.w,
        w.h == v.h,
        forall|i: int, j: int| 0 <= i < j < revs.len() ==> revs[i].0 != revs[j].0,
        forall|k: int|
            0 <= k < revs.len() ==> v.in_bounds((#[trigger] revs[k]).0.x as int, revs[k].0.y as int)
                && revs[k].1 == v.at(revs[k].0.x as int, revs[k].0.y as int),
        forall|x: int, y: int|
            v.in_bounds(x, y) && w.at(x, y) != v.at(x, y) ==> exists|k: int|
                0 <= k < revs.len() && #[trigger] revs[k].0 == pt(x, y),
    ensures
        undone(w, revs) == v,
    decreases revs.len(),
{
    if revs.len() == 0 {
        assert forall|x: int, y: int| v.in_bounds(x, y) implies #[trigger] v.at(x, y) == w.at(x, y) by {
            if w.at(x, y) != v.at(x, y) {
                let k = choose|k: int| 0 <= k < revs.len() && #[trigger] revs[k].0 == pt(x, y);
            }
        }
        lemma_ext(w, v);
    } else {
        let (q, c) = revs.last();
        let (qx, qy) = (q.x as int, q.y as int);
        crate::image::lemma_set(w, qx, qy, c);
        let w2 = w.set(qx, qy, c);
        let rest = revs.drop_last();
        assert forall|x: int, y: int| v.in_bounds(x, y) && w2.at(x, y) != v.at(x, y) implies exists|k: int|
            0 <= k < rest.len() && #[trigger] rest[k].0 == pt(x, y) by {
            let k = choose|k: int| 0 <= k < revs.len() && #[trigger] revs[k].0 == pt(x, y);
            if k == revs.len() - 1 {
                assert(x == qx && y == qy);
            } else {
                assert(rest[k] == revs[k]);
            }
        }
        assert forall|i: int, j: int| 0 <= i < j < rest.len() implies rest[i].0 != rest[j].0 by {
            assert(rest[i] == revs[i] && rest[j] == revs[j]);
        }
        assert forall|k: int| 0 <= k < rest.len() implies v.in_bounds((#[trigger] rest[k]).0.x as int, rest[k].0.y as int)
            && rest[k].1 == v.at(rest[k].0.x as int, rest[k].0.y as int) by {
            assert(rest[k] == revs[k]);
        }
        lemma_undo_changes(v, w2, rest);
    }
}

/// How many entries of `s` are false.
pub open spec fn count_false(s: Seq<bool>) -> nat
    decreases s.len(),
{
    if s.len() == 0 {
        0
    } else {
        count_false(s.drop_last()) + if s.last() {
            0nat
        } else {
            1nat
        }
    }
}

proof fn lemma_count_false_update(s: Seq<bool>, i: int)
    requires
        0 <= i < s.len(),
        !s[i],
    ensures
        count_false(s.update(i, true)) + 1 == count_false(s),
    decreases s.len(),
{
    let t = s.update(i, true);
    if i == s.len() - 1 {
        assert(t.drop_last() =~= s.drop_last());
    } else {
        assert(t.drop_last() =~= s.drop_last().update(i, true));
        lemma_count_false_update(s.drop_last(), i);
    }
}

/// Whether the grid cell of `(x, y)` is marked, in a row-major grid `w`
/// wide.
pub open spec fn marked_at(m: Seq<bool>, w: int, x: int, y: int) -> bool {
    m[y * w + x]
}

/// Marking one cell leaves every other cell as it was.
proof fn lemma_mark_one(m: Seq<bool>, w: int, h: int, x: int, y: int)
    requires
        0 <= x < w,
        0 <= y < h,
        m.len() == w * h,
    ensures
        forall|a: int, b: int|
            0 <= a < w && 0 <= b < h ==> #[trigger] marked_at(m.update(y * w + x, true), w, a, b) == (
            marked_at(m, w, a, b) || (a == x && b == y)),
{
    lemma_index(w, h, x, y);
    assert forall|a: int, b: int| 0 <= a < w && 0 <= b < h implies #[trigger] marked_at(
        m.update(y * w + x, true),
        w,
        a,
        b,
    ) == (marked_at(m, w, a, b) || (a == x && b == y)) by {
        lemma_index(w, h, a, b);
        if b * w + a == y * w + x {
            assert(a == x && b == y);
        }
    }
}

impl Canvas {
    /// The neighbours of a pixel inside the canvas: right, left, below and
    /// above, each where it is inside too.
    fn neighbors(&self, x: i32, y: i32) -> (r: [Option<(i32, i32)>; 4])
        requires
            self@.in_bounds(x as int, y as int),
        ensures
            r@.len() == 4,
            r@[0] == if x + 1 < self@.w {
                Some(((x + 1) as i32, y))
            } else {
                None
            },
            r@[1] == if x > 0 {
                Some(((x - 1) as i32, y))
            } else {
                None
            },
            r@[2] == if y + 1 < self@.h {
                Some((x, (y + 1) as i32))
            } else {
                None
            },
            r@[3] == if y > 0 {
                Some((x, (y - 1) as i32))
            } else {
                None
            },
    {
        let w = self.width();
        let h = self.height();
        let right = if x + 1 < w {
            Some((x + 1, y))
        } else {
            None
        };
        let left = if x > 0 {
            Some((x - 1, y))
        } else {
            None
        };
        let below = if y + 1 < h {
            Some((x, y + 1))
        } else {
            None
        };
        let above = if y > 0 {
            Some((x, y - 1))
        } else {
            None
        };
        [right, left, below, above]
    }

    /// Queues and marks a pixel of the region's color that is not marked
    /// yet.
    fn consider(
        &self,
        n: (i32, i32),
        old_color: Color,
        w: usize,
        marked: &mut Vec<bool>,
        fresh: &mut Vec<(i32, i32)>,
    )
        requires
            self@.wf(),
            self@.in_bounds(n.0 as int, n.1 as int),
            w == self@.w,
            old(marked)@.len() == self@.w * self@.h,
        ensures
            if self@.at(n.0 as int, n.1 as int) == old_color && !marked_at(
                old(marked)@,
                w as int,
                n.0 as int,
                n.1 as int,
            ) {
                &&& final(fresh)@ == old(fresh)@.push(n)
                &&& final(marked)@ == old(marked)@.update(n.1 * w + n.0, true)
            } else {
                &&& final(fresh)@ == old(fresh)@
                &&& final(marked)@ == old(marked)@
            },
    {
        let (nx, ny) = n;
        proof {
            lemma_index(self@.w, self@.h, nx as int, ny as int);
        }
        let ind = (ny as usize) * w + nx as usize;
        if self.pixel(Point::new(nx, ny)) == old_color && !marked[ind] {
            fresh.push(n);
            marked.set(ind, true);
        }
    }
    /// Queues and marks the neighbours of `(x, y)` that have the region's
    /// color and are not marked yet, right, left, below and above.
    fn queue_neighbors(
        &self,
        x: i32,
        y: i32,
        old_color: Color,
        w: usize,
        marked: &mut Vec<bool>,
        fresh: &mut Vec<(i32, i32)>,
    )
        requires
            self@.wf(),
            self@.in_bounds(x as int, y as int),
            w == self@.w,
            old(marked)@.len() == self@.w * self@.h,
        ensures
            final(marked)@.len() == old(marked)@.len(),
            final(fresh)@.len() >= old(fresh)@.len(),
            final(fresh)@.subrange(0, old(fresh)@.len() as int) == old(fresh)@,
            count_false(final(marked)@) + final(fresh)@.len() == count_false(old(marked)@)
                + old(fresh)@.len(),
            forall|j: int|
                old(fresh)@.len() <= j < final(fresh)@.len() ==> {
                    let n = #[trigger] final(fresh)@[j];
                    &&& self@.in_bounds(n.0 as int, n.1 as int)
                    &&& adjacent(pt(x as int, y as int), pt(n.0 as int, n.1 as int))
                    &&& self@.at(n.0 as int, n.1 as int) == old_color
                    &&& !marked_at(old(marked)@, w as int, n.0 as int, n.1 as int)
                    &&& marked_at(final(marked)@, w as int, n.0 as int, n.1 as int)
                },
            forall|i: int, j: int|
                old(fresh)@.len() <= i < j < final(fresh)@.len() ==> final(fresh)@[i]
                    != final(fresh)@[j],
            forall|a: int, b: int|
                self@.in_bounds(a, b) && #[trigger] marked_at(final(marked)@, w as int, a, b) ==> (
                marked_at(old(marked)@, w as int, a, b) || final(fresh)@.subrange(
                    old(fresh)@.len() as int,
                    final(fresh)@.len() as int,
                ).contains((a as i32, b as i32))),
            forall|a: int, b: int|
                self@.in_bounds(a, b) && marked_at(old(marked)@, w as int, a, b) ==> #[trigger] marked_at(
                    final(marked)@,
                    w as int,
                    a,
                    b,
                ),
            forall|a: int, b: int|
                self@.in_bounds(a, b) && adjacent(pt(x as int, y as int), pt(a, b)) && self@.at(a, b)
                    == old_color ==> #[trigger] marked_at(final(marked)@, w as int, a, b),
    {
        let ghost m0 = marked@;
        let ghost f0 = fresh@;
        let ghost v = self@;
        let ns = self.neighbors(x, y);
        let mut k: usize = 0;
        while k < 4
            invariant
                0 <= k <= 4,
                ns@.len() == 4,
                v == self@,
                v.wf(),
                v.in_bounds(x as int, y as int),
                w == v.w,
                forall|j: int|
                    0 <= j < 4 ==> match #[trigger] ns@[j] {
                        Some(n) => v.in_bounds(n.0 as int, n.1 as int) && adjacent(
                            pt(x as int, y as int),
                            pt(n.0 as int, n.1 as int),
                        ),
                        None => true,
                    },
                m0.len() == v.w * v.h,
                marked@.len() == m0.len(),
                fresh@.len() >= f0.len(),
                fresh@.subrange(0, f0.len() as int) == f0,
                count_false(marked@) + fresh@.len() == count_false(m0) + f0.len(),
                forall|j: int|
                    f0.len() <= j < fresh@.len() ==> {
                        let n = #[trigger] fresh@[j];
                        &&& v.in_bounds(n.0 as int, n.1 as int)
                        &&& adjacent(pt(x as int, y as int), pt(n.0 as int, n.1 as int))
                        &&& v.at(n.0 as int, n.1 as int) == old_color
                        &&& !marked_at(m0, w as int, n.0 as int, n.1 as int)
                        &&& marked_at(marked@, w as int, n.0 as int, n.1 as int)
                    },
                forall|i: int, j: int| f0.len() <= i < j < fresh@.len() ==> fresh@[i] != fresh@[j],
                forall|a: int, b: int|
                    v.in_bounds(a, b) && #[trigger] marked_at(marked@, w as int, a, b) ==> (
                    marked_at(m0, w as int, a, b) || fresh@.subrange(
                        f0.len() as int,
                        fresh@.len() as int,
                    ).contains((a as i32, b as i32))),
                forall|a: int, b: int|
                    v.in_bounds(a, b) && marked_at(m0, w as int, a, b) ==> #[trigger] marked_at(
                        marked@,
                        w as int,
                        a,
                        b,
                    ),
                forall|j: int|
                    0 <= j < k ==> match #[trigger] ns@[j] {
                        Some(n) => v.at(n.0 as int, n.1 as int) == old_color ==> marked_at(
                            marked@,
                            w as int,
                            n.0 as int,
                            n.1 as int,
                        ),
                        None => true,
                    },
            decreases 4 - k,
        {
            match ns[k] {
                Some(n) => {
                    let ghost m1 = marked@;
                    let ghost fr1 = fresh@;
                    self.consider(n, old_color, w, marked, fresh);
                    proof {
                        let (nx, ny) = (n.0 as int, n.1 as int);
                        if v.at(nx, ny) == old_color && !marked_at(m1, w as int, nx, ny) {
                            lemma_mark_one(m1, v.w, v.h, nx, ny);
                            lemma_index(v.w, v.h, nx, ny);
                            lemma_count_false_update(m1, ny * v.w + nx);
                            assert(marked_at(marked@, w as int, nx, ny));
                            assert(fresh@.subrange(0, f0.len() as int) =~= f0);
                            let added = fresh@.subrange(f0.len() as int, fresh@.len() as int);
                            let added1 = fr1.subrange(f0.len() as int, fr1.len() as int);
                            assert(added =~= added1.push(n));
                            assert forall|j: int| f0.len() <= j < fresh@.len() implies {
                                let t = #[trigger] fresh@[j];
                                &&& v.in_bounds(t.0 as int, t.1 as int)
                                &&& adjacent(pt(x as int, y as int), pt(t.0 as int, t.1 as int))
                                &&& v.at(t.0 as int, t.1 as int) == old_color
                                &&& !marked_at(m0, w as int, t.0 as int, t.1 as int)
                                &&& marked_at(marked@, w as int, t.0 as int, t.1 as int)
                            } by {
                                if j < fr1.len() {
                                    assert(fresh@[j] == fr1[j]);
                                } else {
                                    assert(fresh@[j] == n);
                                    if marked_at(m0, w as int, nx, ny) {
                                        assert(marked_at(m1, w as int, nx, ny));
                                    }
                                }
                            }
                            assert forall|i: int, j: int|
                                f0.len() <= i < j < fresh@.len() implies fresh@[i] != fresh@[j] by {
                                if j == fresh@.len() - 1 {
                                    assert(fresh@[j] == n);
                                    assert(fresh@[i] == fr1[i]);
                                    let t = fr1[i];
                                    assert(marked_at(m1, w as int, t.0 as int, t.1 as int));
                                } else {
                                    assert(fresh@[i] == fr1[i] && fresh@[j] == fr1[j]);
                                }
                            }
                            assert forall|a: int, b: int|
                                v.in_bounds(a, b) && #[trigger] marked_at(marked@, w as int, a, b) implies (
                                marked_at(m0, w as int, a, b) || added.contains((a as i32, b as i32))) by {
                                if a == nx && b == ny {
                                    assert(added[added.len() - 1] == n);
                                } else {
                                    assert(marked_at(m1, w as int, a, b));
                                    if !marked_at(m0, w as int, a, b) {
                                        let j = choose|j: int| 0 <= j < added1.len() && added1[j] == (a as i32, b as i32);
                                        assert(added[j] == added1[j]);
                                    }
                                }
                            }
                        } else {
                            assert(fresh@ == fr1);
                        }
                    }
                },
                None => {},
            }
            k = k + 1;
        }
        proof {
            assert forall|a: int, b: int|
                v.in_bounds(a, b) && adjacent(pt(x as int, y as int), pt(a, b)) && v.at(a, b) == old_color
                    implies #[trigger] marked_at(marked@, w as int, a, b) by {
                if a == x + 1 {
                    assert(ns@[0] == Some((a as i32, b as i32)));
                } else if a == x - 1 {
                    assert(ns@[1] == Some((a as i32, b as i32)));
                } else if b == y + 1 {
                    assert(ns@[2] == Some((a as i32, b as i32)));
                } else {
                    assert(ns@[3] == Some((a as i32, b as i32)));
                }
            }
        }
    }
    /// Paints the area of one color around a point, as far as it reaches
    /// through the neighbours of each pixel, with another color, and gives
    /// back what undoes it: each pixel painted, once, with the color it had.
    /// Filling with the color that is there already changes nothing.
    #[verifier::rlimit(40)]
    pub fn bucket(&mut self, p: Point, color: Color) -> (r: Vec<(Point, Color)>)
        requires
            old(self)@.in_bounds(p.x as int, p.y as int),
        ensures
            old(self)@.at(p.x as int, p.y as int) == color ==> r@.len() == 0 && final(self)@ == old(
                self,
            )@,
            old(self)@.at(p.x as int, p.y as int) != color ==> final(self)@ == filled_region(
                old(self)@,
                p,
                color,
            ),
            forall|k: int|
                0 <= k < r@.len() ==> in_region(old(self)@, p, (#[trigger] r@[k]).0) && r@[k].1 == old(
                    self,
                )@.at(p.x as int, p.y as int),
            forall|q: Point|
                old(self)@.at(p.x as int, p.y as int) != color && #[trigger] in_region(old(self)@, p, q)
                    ==> exists|k: int| 0 <= k < r@.len() && r@[k].0 == q,
            forall|i: int, j: int| 0 <= i < j < r@.len() ==> r@[i].0 != r@[j].0,
            undone(final(self)@, r@) == old(self)@,
    {
        let ghost v = self@;
        let size = self.size();
        let old_color = self.pixel(p);
        if color == old_color {
            return Vec::new();
        }
        let w = size.x as usize;
        let h = size.y as usize;
        proof {
            lemma_index(v.w, v.h, p.x as int, p.y as int);
            lemma_region_start(v, p);
        }
        let mut marked = vec![false; w * h];
        let ghost m_init = marked@;
        proof {
            assert forall|i: int| 0 <= i < m_init.len() implies !m_init[i] by {}
            lemma_mark_one(m_init, v.w, v.h, p.x as int, p.y as int);
        }
        marked.set((p.y as usize) * w + p.x as usize, true);
        let mut visit: Vec<(i32, i32)> = vec![(p.x, p.y)];
        assert(marked_at(marked@, w as int, p.x as int, p.y as int));
        let mut reversals: Vec<(Point, Color)> = Vec::new();
        let ghost mut done: Set<Point> = Set::empty();
        proof {
            assert forall|x: int, y: int|
                v.in_bounds(x, y) && #[trigger] marked_at(marked@, w as int, x, y) implies in_region(
                v,
                p,
                pt(x, y),
            ) && (done.contains(pt(x, y)) || visit@.contains((x as i32, y as i32))) by {
                lemma_index(v.w, v.h, x, y);
                assert(x == p.x && y == p.y);
                assert(pt(x, y) == p);
                assert(visit@[0] == (x as i32, y as i32));
            }
        }
        while visit.len() > 0
            invariant
                v.wf(),
                w == v.w,
                h == v.h,
                old_color == v.at(p.x as int, p.y as int),
                color != old_color,
                v.in_bounds(p.x as int, p.y as int),
                marked@.len() == v.w * v.h,
                marked_at(marked@, w as int, p.x as int, p.y as int),
                self@.wf(),
                self@.w == v.w,
                self@.h == v.h,
                forall|x: int, y: int|
                    v.in_bounds(x, y) ==> #[trigger] self@.at(x, y) == if done.contains(pt(x, y)) {
                        color
                    } else {
                        v.at(x, y)
                    },
                forall|k: int|
                    0 <= k < reversals@.len() ==> done.contains((#[trigger] reversals@[k]).0)
                        && reversals@[k].1 == old_color,
                forall|i: int, j: int|
                    0 <= i < j < reversals@.len() ==> reversals@[i].0 != reversals@[j].0,
                forall|q: Point|
                    #[trigger] done.contains(q) ==> exists|k: int|
                        0 <= k < reversals@.len() && reversals@[k].0 == q,
                forall|q: Point|
                    #[trigger] done.contains(q) ==> v.in_bounds(q.x as int, q.y as int) && marked_at(
                        marked@,
                        w as int,
                        q.x as int,
                        q.y as int,
                    ) && in_region(v, p, q),
                forall|x: int, y: int|
                    v.in_bounds(x, y) && #[trigger] marked_at(marked@, w as int, x, y) ==> in_region(
                        v,
                        p,
                        pt(x, y),
                    ) && (done.contains(pt(x, y)) || visit@.contains((x as i32, y as i32))),
                forall|i: int|
                    0 <= i < visit@.len() ==> {
                        let t = #[trigger] visit@[i];
                        &&& v.in_bounds(t.0 as int, t.1 as int)
                        &&& marked_at(marked@, w as int, t.0 as int, t.1 as int)
                        &&& !done.contains(pt(t.0 as int, t.1 as int))
                    },
                forall|i: int, j: int| 0 <= i < j < visit@.len() ==> visit@[i] != visit@[j],
                forall|a: Point, b: Point|
                    #![trigger done.contains(a), adjacent(a, b)]
                    done.contains(a) && adjacent(a, b) && v.in_bounds(b.x as int, b.y as int) && v.at(
                        b.x as int,
                        b.y as int,
                    ) == old_color ==> marked_at(marked@, w as int, b.x as int, b.y as int),
            decreases 2 * count_false(marked@) + visit@.len(),
        {
            let ghost u0 = count_false(marked@);
            let ghost k0 = visit@.len();
            let mut new_visit: Vec<(i32, i32)> = Vec::new();
            while visit.len() > 0
                invariant
                    v.wf(),
                    w == v.w,
                    h == v.h,
                    old_color == v.at(p.x as int, p.y as int),
                    color != old_color,
                    v.in_bounds(p.x as int, p.y as int),
                    marked@.len() == v.w * v.h,
                    marked_at(marked@, w as int, p.x as int, p.y as int),
                    self@.wf(),
                    self@.w == v.w,
                    self@.h == v.h,
                    count_false(marked@) + new_visit@.len() == u0,
                    forall|x: int, y: int|
                        v.in_bounds(x, y) ==> #[trigger] self@.at(x, y) == if done.contains(pt(x, y)) {
                            color
                        } else {
                            v.at(x, y)
                        },
                    forall|k: int|
                        0 <= k < reversals@.len() ==> done.contains((#[trigger] reversals@[k]).0)
                            && reversals@[k].1 == old_color,
                    forall|i: int, j: int|
                        0 <= i < j < reversals@.len() ==> reversals@[i].0 != reversals@[j].0,
                    forall|q: Point|
                        #[trigger] done.contains(q) ==> exists|k: int|
                            0 <= k < reversals@.len() && reversals@[k].0 == q,
                    forall|q: Point|
                        #[trigger] done.contains(q) ==> v.in_bounds(q.x as int, q.y as int)
                            && marked_at(marked@, w as int, q.x as int, q.y as int) && in_region(v, p, q),
                    forall|x: int, y: int|
                        v.in_bounds(x, y) && #[trigger] marked_at(marked@, w as int, x, y) ==> in_region(
                            v,
                            p,
                            pt(x, y),
                        ) && (done.contains(pt(x, y)) || visit@.contains((x as i32, y as i32))
                            || new_visit@.contains((x as i32, y as i32))),
                    forall|i: int|
                        0 <= i < visit@.len() ==> {
                            let t = #[trigger] visit@[i];
                            &&& v.in_bounds(t.0 as int, t.1 as int)
                            &&& marked_at(marked@, w as int, t.0 as int, t.1 as int)
                            &&& !done.contains(pt(t.0 as int, t.1 as int))
                        },
                    forall|i: int|
                        0 <= i < new_visit@.len() ==> {
                            let t = #[trigger] new_visit@[i];
                            &&& v.in_bounds(t.0 as int, t.1 as int)
                            &&& marked_at(marked@, w as int, t.0 as int, t.1 as int)
                            &&& !done.contains(pt(t.0 as int, t.1 as int))
                        },
                    forall|i: int, j: int| 0 <= i < j < visit@.len() ==> visit@[i] != visit@[j],
                    forall|i: int, j: int|
                        0 <= i < j < new_visit@.len() ==> new_visit@[i] != new_visit@[j],
                    forall|i: int, j: int|
                        0 <= i < visit@.len() && 0 <= j < new_visit@.len() ==> visit@[i]
                            != new_visit@[j],
                    forall|a: Point, b: Point|
                        #![trigger done.contains(a), adjacent(a, b)]
                        done.contains(a) && adjacent(a, b) && v.in_bounds(b.x as int, b.y as int)
                            && v.at(b.x as int, b.y as int) == old_color ==> marked_at(
                            marked@,
                            w as int,
                            b.x as int,
                            b.y as int,
                        ),
                decreases visit@.len(),
            {
                let ghost vis = visit@;
                let (vx, vy) = visit.pop().unwrap();
                let q = Point::new(vx, vy);
                let ghost t = (vx, vy);
                proof {
                    assert(visit@ == vis.drop_last());
                    assert(vis[vis.len() - 1] == t);
                    assert(pt(vx as int, vy as int) == q);
                    assert(marked_at(marked@, w as int, vx as int, vy as int));
                    lemma_region_color(v, p, q);
                    assert(self@.at(vx as int, vy as int) == old_color);
                }
                let ghost img0 = self@;
                let ghost revs0 = reversals@;
                let ghost done0 = done;
                match self.set_pixel(q, color) {
                    Some(a) => reversals.push(a),
                    None => {},
                }
                proof {
                    done = done.insert(q);
                    crate::image::lemma_set(img0, vx as int, vy as int, color);
                    assert(reversals@ == revs0.push((q, old_color)));
                    assert forall|x: int, y: int| v.in_bounds(x, y) implies #[trigger] self@.at(x, y)
                        == if done.contains(pt(x, y)) {
                        color
                    } else {
                        v.at(x, y)
                    } by {
                        assert(img0.at(x, y) == if done0.contains(pt(x, y)) {
                            color
                        } else {
                            v.at(x, y)
                        });
                        if x == vx && y == vy {
                            assert(pt(x, y) == q);
                        } else {
                            assert(pt(x, y) != q);
                        }
                    }
                    assert forall|k: int| 0 <= k < reversals@.len() implies done.contains(
                        (#[trigger] reversals@[k]).0,
                    ) && reversals@[k].1 == old_color by {
                        if k < revs0.len() {
                            assert(reversals@[k] == revs0[k]);
                        }
                    }
                    assert forall|i: int, j: int|
                        0 <= i < j < reversals@.len() implies reversals@[i].0 != reversals@[j].0 by {
                        assert(reversals@[i] == revs0[i] || i == revs0.len());
                        if j == revs0.len() {
                            assert(done0.contains(revs0[i].0));
                        } else {
                            assert(reversals@[j] == revs0[j]);
                        }
                    }
                    assert forall|a: Point| #[trigger] done.contains(a) implies exists|k: int|
                        0 <= k < reversals@.len() && reversals@[k].0 == a by {
                        if a == q {
                            assert(reversals@[revs0.len() as int].0 == q);
                        } else {
                            let k = choose|k: int| 0 <= k < revs0.len() && revs0[k].0 == a;
                            assert(reversals@[k] == revs0[k]);
                        }
                    }
                    assert forall|x: int, y: int|
                        v.in_bounds(x, y) && #[trigger] marked_at(marked@, w as int, x, y) implies in_region(
                            v,
                            p,
                            pt(x, y),
                        ) && (done.contains(pt(x, y)) || visit@.contains((x as i32, y as i32))
                            || new_visit@.contains((x as i32, y as i32))) by {
                        if vis.contains((x as i32, y as i32)) && !(x == vx && y == vy) {
                            let i = choose|i: int| 0 <= i < vis.len() && vis[i] == (x as i32, y as i32);
                            assert(i != vis.len() - 1);
                            assert(visit@[i] == vis[i]);
                        }
                        if x == vx && y == vy {
                            assert(pt(x, y) == q);
                        }
                    }
                    assert forall|i: int| 0 <= i < visit@.len() implies {
                        let t2 = #[trigger] visit@[i];
                        &&& v.in_bounds(t2.0 as int, t2.1 as int)
                        &&& marked_at(marked@, w as int, t2.0 as int, t2.1 as int)
                        &&& !done.contains(pt(t2.0 as int, t2.1 as int))
                    } by {
                        assert(visit@[i] == vis[i]);
                        assert(vis[i] != vis[vis.len() - 1]);
                    }
                    assert forall|i: int| 0 <= i < new_visit@.len() implies {
                        let t2 = #[trigger] new_visit@[i];
                        &&& v.in_bounds(t2.0 as int, t2.1 as int)
                        &&& marked_at(marked@, w as int, t2.0 as int, t2.1 as int)
                        &&& !done.contains(pt(t2.0 as int, t2.1 as int))
                    } by {
                        assert(new_visit@[i] != vis[vis.len() - 1]);
                    }
                }
                let ghost m1 = marked@;
                let ghost nv1 = new_visit@;
                self.queue_neighbors(vx, vy, old_color, w, &mut marked, &mut new_visit);
                proof {
                    assert(marked_at(marked@, w as int, p.x as int, p.y as int));
                    let added = new_visit@.subrange(nv1.len() as int, new_visit@.len() as int);
                    assert(new_visit@.subrange(0, nv1.len() as int) == nv1);
                    assert forall|i: int| 0 <= i < nv1.len() implies new_visit@[i] == nv1[i] by {
                        assert(new_visit@.subrange(0, nv1.len() as int)[i] == new_visit@[i]);
                    }
                    assert forall|j: int| nv1.len() <= j < new_visit@.len() implies {
                        let n = #[trigger] new_visit@[j];
                        &&& v.at(n.0 as int, n.1 as int) == old_color
                        &&& in_region(v, p, pt(n.0 as int, n.1 as int))
                        &&& !done.contains(pt(n.0 as int, n.1 as int))
                    } by {
                        let n = new_visit@[j];
                        let np = pt(n.0 as int, n.1 as int);
                        if done.contains(np) {
                            assert(marked_at(m1, w as int, np.x as int, np.y as int));
                        }
                        assert(self@.at(n.0 as int, n.1 as int) == v.at(n.0 as int, n.1 as int));
                        lemma_region_step(v, p, q, np);
                    }
                    assert forall|x: int, y: int|
                        v.in_bounds(x, y) && #[trigger] marked_at(marked@, w as int, x, y) implies in_region(
                            v,
                            p,
                            pt(x, y),
                        ) && (done.contains(pt(x, y)) || visit@.contains((x as i32, y as i32))
                            || new_visit@.contains((x as i32, y as i32))) by {
                        if marked_at(m1, w as int, x, y) {
                            if nv1.contains((x as i32, y as i32)) {
                                let i = choose|i: int| 0 <= i < nv1.len() && nv1[i] == (x as i32, y as i32);
                                assert(new_visit@[i] == nv1[i]);
                            }
                        } else {
                            assert(added.contains((x as i32, y as i32)));
                            let i = choose|i: int| 0 <= i < added.len() && added[i] == (x as i32, y as i32);
                            assert(new_visit@[nv1.len() + i] == added[i]);
                        }
                    }
                    assert forall|i: int| 0 <= i < visit@.len() implies {
                        let t2 = #[trigger] visit@[i];
                        &&& v.in_bounds(t2.0 as int, t2.1 as int)
                        &&& marked_at(marked@, w as int, t2.0 as int, t2.1 as int)
                        &&& !done.contains(pt(t2.0 as int, t2.1 as int))
                    } by {
                        let t2 = visit@[i];
                        assert(marked_at(m1, w as int, t2.0 as int, t2.1 as int));
                    }
                    assert forall|i: int| 0 <= i < new_visit@.len() implies {
                        let t2 = #[trigger] new_visit@[i];
                        &&& v.in_bounds(t2.0 as int, t2.1 as int)
                        &&& marked_at(marked@, w as int, t2.0 as int, t2.1 as int)
                        &&& !done.contains(pt(t2.0 as int, t2.1 as int))
                    } by {
                        if i < nv1.len() {
                            let t2 = nv1[i];
                            assert(new_visit@[i] == t2);
                            assert(marked_at(m1, w as int, t2.0 as int, t2.1 as int));
                        }
                    }
                    assert forall|i: int, j: int|
                        0 <= i < j < new_visit@.len() implies new_visit@[i] != new_visit@[j] by {
                        if i < nv1.len() && j >= nv1.len() {
                            let t2 = nv1[i];
                            assert(new_visit@[i] == t2);
                            assert(marked_at(m1, w as int, t2.0 as int, t2.1 as int));
                        } else if j < nv1.len() {
                            assert(new_visit@[i] == nv1[i] && new_visit@[j] == nv1[j]);
                        }
                    }
                    assert forall|i: int, j: int|
                        0 <= i < visit@.len() && 0 <= j < new_visit@.len() implies visit@[i]
                            != new_visit@[j] by {
                        if j < nv1.len() {
                            assert(new_visit@[j] == nv1[j]);
                        } else {
                            let t2 = visit@[i];
                            assert(marked_at(m1, w as int, t2.0 as int, t2.1 as int));
                        }
                    }
                    assert forall|a: Point, b: Point|
                        #![trigger done.contains(a), adjacent(a, b)]
                        done.contains(a) && adjacent(a, b) && v.in_bounds(b.x as int, b.y as int)
                            && v.at(b.x as int, b.y as int) == old_color implies marked_at(
                            marked@,
                            w as int,
                            b.x as int,
                            b.y as int,
                        ) by {
                        if a == q {
                            assert(pt(vx as int, vy as int) == a);
                            assert(pt(b.x as int, b.y as int) == b);
                            if done.contains(b) {
                                assert(marked_at(m1, w as int, b.x as int, b.y as int));
                            } else {
                                assert(self@.at(b.x as int, b.y as int) == old_color);
                            }
                        } else {
                            assert(done0.contains(a));
                            assert(marked_at(m1, w as int, b.x as int, b.y as int));
                        }
                    }
                }
            }
            let ghost nv = new_visit@;
            visit.append(&mut new_visit);
            proof {
                assert(visit@ =~= nv);
                assert forall|x: int, y: int|
                    v.in_bounds(x, y) && #[trigger] marked_at(marked@, w as int, x, y) implies in_region(
                        v,
                        p,
                        pt(x, y),
                    ) && (done.contains(pt(x, y)) || visit@.contains((x as i32, y as i32))) by {
                    assert(!Seq::<(i32, i32)>::empty().contains((x as i32, y as i32)));
                }
            }
        }
        proof {
            let fin = self@;
            assert forall|a: Point, b: Point|
                done.contains(a) && adjacent(a, b) && v.in_bounds(b.x as int, b.y as int) && v.at(
                    b.x as int,
                    b.y as int,
                ) == v.at(p.x as int, p.y as int) implies #[trigger] done.contains(b) || !#[trigger] adjacent(a, b) by {
                assert(marked_at(marked@, w as int, b.x as int, b.y as int));
                assert(pt(b.x as int, b.y as int) == b);
                assert(!visit@.contains((b.x, b.y)));
            }
            assert(pt(p.x as int, p.y as int) == p);
            assert(!visit@.contains((p.x, p.y)));
            assert(done.contains(p));
            assert forall|a: Point| #[trigger] in_region(v, p, a) implies done.contains(a) by {
                lemma_region_closed(v, p, done, a);
            }
            let target = filled_region(v, p, color);
            lemma_from_fn(
                v.w,
                v.h,
                |x: int, y: int|
                    if in_region(v, p, pt(x, y)) {
                        color
                    } else {
                        v.at(x, y)
                    },
            );
            assert forall|x: int, y: int| fin.in_bounds(x, y) implies #[trigger] fin.at(x, y) == target.at(
                x,
                y,
            ) by {
                if done.contains(pt(x, y)) {
                    assert(in_region(v, p, pt(x, y)));
                }
            }
            lemma_ext(fin, target);
            assert forall|k: int|
                0 <= k < reversals@.len() implies v.in_bounds((#[trigger] reversals@[k]).0.x as int, reversals@[k].0.y as int)
                    && reversals@[k].1 == v.at(reversals@[k].0.x as int, reversals@[k].0.y as int) by {
                lemma_region_color(v, p, reversals@[k].0);
            }
            assert forall|x: int, y: int| v.in_bounds(x, y) && fin.at(x, y) != v.at(x, y) implies exists|k: int|
                0 <= k < reversals@.len() && #[trigger] reversals@[k].0 == pt(x, y) by {
                assert(done.contains(pt(x, y)));
            }
            lemma_undo_changes(v, fin, reversals@);
        }
        reversals
    }
}

} // verus!
