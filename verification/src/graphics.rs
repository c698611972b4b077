//! The pixels that make up lines, rectangles and brush stamps on the grid.

use crate::geom::Point;
use crate::rounding::{
    is_rounding, lemma_rounding, lemma_rounding_monotone, lemma_rounding_unique, rounding,
};
use std::collections::HashSet;
use vstd::prelude::*;

verus! {

/// Largest brush radius on offer. Beyond this a stamp covers most of a
/// typical sprite in one click.
pub const MAX_BRUSH_RADIUS: u8 = 16;

/// The radius a brush of `radius` actually stamps with.
pub open spec fn capped_radius(radius: u8) -> int {
    if radius > MAX_BRUSH_RADIUS {
        MAX_BRUSH_RADIUS as int
    } else {
        radius as int
    }
}

/// Whether an offset lies within `r` of the brush centre.
pub open spec fn in_disc(r: int, p: Point) -> bool {
    p.x * p.x + p.y * p.y <= r * r
}

/// Row-major order: by row, then by column.
pub open spec fn row_major_before(p: Point, q: Point) -> bool {
    p.y < q.y || (p.y == q.y && p.x < q.x)
}

pub proof fn lemma_disc_bounds(r: int, p: Point)
    requires
        r >= 0,
        in_disc(r, p),
    ensures
        -r <= p.x <= r,
        -r <= p.y <= r,
{
    let (x, y) = (p.x as int, p.y as int);
    assert(-r <= x <= r) by (nonlinear_arith)
        requires
            x * x + y * y <= r * r,
            r >= 0,
    ;
    assert(-r <= y <= r) by (nonlinear_arith)
        requires
            x * x + y * y <= r * r,
            r >= 0,
    ;
}

/// Offsets covered by a brush of the given radius, as a filled disc.
///
/// Radius 0 is a single pixel, 1 a plus shape, and so on: an offset belongs
/// to the stamp when it lies within the radius of the middle, so stamps keep
/// the chunky circles of pixel art. Radii above [`MAX_BRUSH_RADIUS`] are
/// capped. The offsets come in row-major order, each once.
pub fn brush_offsets(radius: u8) -> (offsets: Vec<Point>)
    ensures
        forall|i: int|
            0 <= i < offsets.len() ==> in_disc(capped_radius(radius), #[trigger] offsets@[i]),
        forall|p: Point| in_disc(capped_radius(radius), p) ==> offsets@.contains(p),
        forall|i: int, j: int|
            0 <= i < j < offsets.len() ==> row_major_before(
                #[trigger] offsets@[i],
                #[trigger] offsets@[j],
            ),
{
    let radius: i32 = if radius > MAX_BRUSH_RADIUS {
        MAX_BRUSH_RADIUS as i32
    } else {
        radius as i32
    };
    let ghost r = radius as int;
    assert(0 <= radius <= 16);
    assert(radius * radius <= 256) by (nonlinear_arith)
        requires
            0 <= radius <= 16,
    ;
    let limit: i32 = radius * radius;
    let mut offsets: Vec<Point> = Vec::new();
    let mut y: i32 = -radius;
    proof {
        assert forall|q: Point| in_disc(r, q) && q.y < y implies offsets@.contains(q) by {
            lemma_disc_bounds(r, q);
        }
    }
    while y <= radius
        invariant
            r == radius,
            0 <= r <= 16,
            limit == r * r,
            -r <= y <= r + 1,
            forall|i: int|
                0 <= i < offsets.len() ==> in_disc(r, #[trigger] offsets@[i]) && offsets@[i].y < y,
            forall|q: Point| in_disc(r, q) && q.y < y ==> offsets@.contains(q),
            forall|i: int, j: int|
                0 <= i < j < offsets.len() ==> row_major_before(
                    #[trigger] offsets@[i],
                    #[trigger] offsets@[j],
                ),
        decreases r + 1 - y,
    {
        let mut x: i32 = -radius;
        proof {
            assert forall|q: Point|
                in_disc(r, q) && row_major_before(q, Point { x, y }) implies offsets@.contains(q) by {
                lemma_disc_bounds(r, q);
            }
        }
        while x <= radius
            invariant
                r == radius,
                0 <= r <= 16,
                limit == r * r,
                -r <= y <= r,
                -r <= x <= r + 1,
                forall|i: int|
                    0 <= i < offsets.len() ==> in_disc(r, #[trigger] offsets@[i])
                        && row_major_before(offsets@[i], Point { x, y }),
                forall|q: Point|
                    in_disc(r, q) && row_major_before(q, Point { x, y }) ==> offsets@.contains(q),
                forall|i: int, j: int|
                    0 <= i < j < offsets.len() ==> row_major_before(
                        #[trigger] offsets@[i],
                        #[trigger] offsets@[j],
                    ),
            decreases r + 1 - x,
        {
            assert(0 <= x * x <= 289 && 0 <= y * y <= 256) by (nonlinear_arith)
                requires
                    -16 <= x <= 16,
                    -16 <= y <= 16,
            ;
            let p = Point::new(x, y);
            let ghost before = offsets@;
            if x * x + y * y <= limit {
                offsets.push(p);
            }
            proof {
                assert forall|q: Point|
                    in_disc(r, q) && row_major_before(q, Point { x: (x + 1) as i32, y }) implies
                    offsets@.contains(q) by {
                    if q == p {
                        assert(offsets@[offsets.len() - 1] == p);
                    } else {
                        assert(row_major_before(q, Point { x, y }));
                        assert(before.contains(q));
                        let i = choose|i: int| 0 <= i < before.len() && before[i] == q;
                        assert(offsets@[i] == q);
                    }
                }
            }
            x = x + 1;
        }
        proof {
            assert forall|q: Point| in_disc(r, q) && q.y < y + 1 implies offsets@.contains(q) by {
                lemma_disc_bounds(r, q);
                if q.y == y {
                    assert(row_major_before(q, Point { x, y }));
                }
            }
        }
        y = y + 1;
    }
    proof {
        assert forall|q: Point| in_disc(r, q) implies offsets@.contains(q) by {
            lemma_disc_bounds(r, q);
        }
    }
    offsets
}

pub open spec fn abs(v: int) -> int {
    if v < 0 {
        -v
    } else {
        v
    }
}

/// The direction a drag runs along one axis: backwards, or otherwise forwards.
pub open spec fn drag_sign(d: int) -> int {
    if d < 0 {
        -1
    } else {
        1
    }
}

/// Where [`snap_to_square`] moves `p`: the longer side of the drag wins, and
/// each axis keeps the direction it was dragged in (forwards when not dragged).
pub open spec fn square_snap(p0: Point, p: Point) -> (int, int) {
    let dx = p.x - p0.x;
    let dy = p.y - p0.y;
    let side = if abs(dx) >= abs(dy) {
        abs(dx)
    } else {
        abs(dy)
    };
    (p0.x + side * drag_sign(dx), p0.y + side * drag_sign(dy))
}

/// Moves `p` so the box it forms with `p0` is square, keeping the direction of
/// the drag. Turns the rectangle tool into a square and the ellipse into a
/// circle.
pub fn snap_to_square(p0: Point, p: Point) -> (snapped: Point)
    requires
        i32::MIN < p.x - p0.x <= i32::MAX,
        i32::MIN < p.y - p0.y <= i32::MAX,
        i32::MIN <= square_snap(p0, p).0 <= i32::MAX,
        i32::MIN <= square_snap(p0, p).1 <= i32::MAX,
    ensures
        snapped.x == square_snap(p0, p).0,
        snapped.y == square_snap(p0, p).1,
        abs(snapped.x - p0.x) == abs(snapped.y - p0.y),
{
    let dx = p.x - p0.x;
    let dy = p.y - p0.y;
    let (ax, ay) = (if dx < 0 { -dx } else { dx }, if dy < 0 { -dy } else { dy });
    let side = if ax >= ay { ax } else { ay };
    let x = if dx < 0 { p0.x - side } else { p0.x + side };
    let y = if dy < 0 { p0.y - side } else { p0.y + side };
    Point::new(x, y)
}

/// Where [`snap_to_direction`] moves `p`: onto the nearest of the eight rays
/// from `p0` that run along an axis or a diagonal.
///
/// The ray nearest in angle is the one whose 22.5 degree wedge holds the drag;
/// the wedges are told apart exactly, with `tan(22.5°) = √2 - 1`: a drag
/// `(dx, dy)` is within 22.5 degrees of the x axis when
/// `|dy| < (√2 - 1)|dx|`, that is when `(|dx| + |dy|)² < 2dx²`. The cursor is
/// then projected onto the ray. Along an axis that keeps its coordinate on
/// that axis; along a diagonal it moves `(|dx| + |dy|) / 2` on each axis,
/// rounded half away from zero.
pub open spec fn direction_snap(p0: Point, p: Point) -> (int, int) {
    let dx = p.x - p0.x;
    let dy = p.y - p0.y;
    let (ax, ay) = (abs(dx), abs(dy));
    if (ax + ay) * (ax + ay) < 2 * ax * ax {
        (p.x as int, p0.y as int)
    } else if (ax + ay) * (ax + ay) < 2 * ay * ay {
        (p0.x as int, p.y as int)
    } else {
        let reach = (ax + ay + 1) / 2;
        (p0.x + drag_sign(dx) * reach, p0.y + drag_sign(dy) * reach)
    }
}

/// Moves `p` onto the nearest of the eight directions 45 degrees apart from
/// `p0`: the four axes and the four diagonals.
///
/// The angle of the drag is rounded to the nearest step, then the cursor is
/// projected onto that ray, so the end of the line slides along the direction
/// rather than jumping to a fixed length. A diagonal comes out at exactly 45
/// degrees, which is what makes it a clean staircase in pixels.
pub fn snap_to_direction(p0: Point, p: Point) -> (snapped: Point)
    requires
        i32::MIN <= p.x - p0.x <= i32::MAX,
        i32::MIN <= p.y - p0.y <= i32::MAX,
        i32::MIN <= direction_snap(p0, p).0 <= i32::MAX,
        i32::MIN <= direction_snap(p0, p).1 <= i32::MAX,
    ensures
        snapped.x == direction_snap(p0, p).0,
        snapped.y == direction_snap(p0, p).1,
        snapped.x == p0.x || snapped.y == p0.y || abs(snapped.x - p0.x) == abs(snapped.y - p0.y),
{
    let dx = p.x as i64 - p0.x as i64;
    let dy = p.y as i64 - p0.y as i64;
    let ax: i64 = if dx < 0 { -dx } else { dx };
    let ay: i64 = if dy < 0 { -dy } else { dy };
    assert(0 <= ax <= 0x8000_0000 && 0 <= ay <= 0x8000_0000);
    let sum = ax + ay;
    assert(sum * sum <= 0x1_0000_0000 * 0x1_0000_0000 && 2 * ax * ax <= 0x8000_0000_0000_0000
        && 2 * ay * ay <= 0x8000_0000_0000_0000) by (nonlinear_arith)
        requires
            0 <= ax <= 0x8000_0000,
            0 <= ay <= 0x8000_0000,
            sum == ax + ay,
    ;
    let sq = (sum as u128) * (sum as u128);
    let twice_x = 2 * (ax as u128) * (ax as u128);
    let twice_y = 2 * (ay as u128) * (ay as u128);
    let ghost (gx, gy) = (abs(p.x - p0.x), abs(p.y - p0.y));
    assert(ax == gx && ay == gy);
    assert(sq == (gx + gy) * (gx + gy) && twice_x == 2 * gx * gx && twice_y == 2 * gy * gy);
    if sq < twice_x {
        Point::new(p.x, p0.y)
    } else if sq < twice_y {
        Point::new(p0.x, p.y)
    } else {
        let reach = (sum + 1) / 2;
        let x = if dx < 0 { p0.x as i64 - reach } else { p0.x as i64 + reach };
        let y = if dy < 0 { p0.y as i64 - reach } else { p0.y as i64 + reach };
        proof {
            assert(reach == (gx + gy + 1) / 2);
            if dx < 0 {
                assert(drag_sign(p.x - p0.x) * reach == -reach);
            } else {
                assert(drag_sign(p.x - p0.x) * reach == reach);
            }
            if dy < 0 {
                assert(drag_sign(p.y - p0.y) * reach == -reach);
            } else {
                assert(drag_sign(p.y - p0.y) * reach == reach);
            }
            assert(x == direction_snap(p0, p).0);
            assert(y == direction_snap(p0, p).1);
            assert(abs(x - p0.x) == reach && abs(y - p0.y) == reach);
        }
        Point::new(x as i32, y as i32)
    }
}

/// A sequence with every run of repeated points collapsed to one.
pub open spec fn collapse_runs(s: Seq<Point>) -> Seq<Point>
    decreases s.len(),
{
    if s.len() == 0 {
        s
    } else {
        let r = collapse_runs(s.drop_last());
        if r.len() > 0 && r.last() == s.last() {
            r
        } else {
            r.push(s.last())
        }
    }
}

/// The squared length of the segment from `p1` to `p2`.
pub open spec fn squared_length(p1: Point, p2: Point) -> int {
    (p2.x - p1.x) * (p2.x - p1.x) + (p2.y - p1.y) * (p2.y - p1.y)
}

/// How many unit steps a line takes: its length, rounded.
pub open spec fn line_steps(p1: Point, p2: Point) -> int {
    let d = squared_length(p1, p2);
    rounding(4 * d * d, d)
}

/// The pixel reached after `i` unit steps from `p1` towards `p2`: each
/// coordinate is `p1 + i · (p2 - p1) / length`, rounded half away from zero.
pub open spec fn line_point(p1: Point, p2: Point, i: int) -> Point {
    let dx = p2.x - p1.x;
    let dy = p2.y - p1.y;
    let d = squared_length(p1, p2);
    Point {
        x: (p1.x + drag_sign(dx) * rounding(4 * i * i * dx * dx, d)) as i32,
        y: (p1.y + drag_sign(dy) * rounding(4 * i * i * dy * dy, d)) as i32,
    }
}

/// The pixels of the line from `p1` to `p2`: one per unit step along it,
/// from `p1` to `p2` inclusive, with repeats of the same pixel dropped.
pub open spec fn line_points(p1: Point, p2: Point) -> Seq<Point> {
    if squared_length(p1, p2) == 0 {
        seq![p1]
    } else {
        collapse_runs(Seq::new((line_steps(p1, p2) + 1) as nat, |i: int| line_point(p1, p2, i)))
    }
}

/// Whether the difference `p2 - p1` fits in an `i32`, as the line needs.
pub open spec fn delta_fits(p1: Point, p2: Point) -> bool {
    &&& i32::MIN <= p2.x - p1.x <= i32::MAX
    &&& i32::MIN <= p2.y - p1.y <= i32::MAX
}

/// The length of a line, rounded, is a rounding of `√d`.
proof fn lemma_steps_square(n: int, d: int)
    requires
        d > 0,
        n >= 0,
    ensures
        is_rounding(n, 4 * d * d, d) <==> ((n == 0 || (2 * n - 1) * (2 * n - 1) <= 4 * d) && 4 * d < (2
            * n + 1) * (2 * n + 1)),
{
    assert(((2 * n - 1) * (2 * n - 1) * d <= 4 * d * d) <==> ((2 * n - 1) * (2 * n - 1) <= 4 * d))
        by (nonlinear_arith)
        requires
            d > 0,
    ;
    assert((4 * d * d < (2 * n + 1) * (2 * n + 1) * d) <==> (4 * d < (2 * n + 1) * (2 * n + 1)))
        by (nonlinear_arith)
        requires
            d > 0,
    ;
}

/// The last step of a line rounds to no more than the whole run along an
/// axis, so no pixel of it lies beyond `p2`.
proof fn lemma_last_step_within(a: int, b: int, n: int, k: int)
    requires
        a >= 0,
        b >= 0,
        a * a + b * b > 0,
        n == 0 || (2 * n - 1) * (2 * n - 1) <= 4 * (a * a + b * b),
        n >= 0,
        is_rounding(k, 4 * n * n * a * a, a * a + b * b),
    ensures
        k <= a,
{
    let d = a * a + b * b;
    if k >= a + 1 {
        assert((2 * a + 1) * (2 * a + 1) * d <= 4 * n * n * a * a) by (nonlinear_arith)
            requires
                k >= a + 1,
                a >= 0,
                d > 0,
                (2 * k - 1) * (2 * k - 1) * d <= 4 * n * n * a * a,
        ;
        if n == 0 {
            assert(4 * n * n * a * a == 0) by (nonlinear_arith)
                requires
                    n == 0,
            ;
            assert((2 * a + 1) * (2 * a + 1) * d > 0) by (nonlinear_arith)
                requires
                    a >= 0,
                    d > 0,
            ;
        } else {
            let m = 2 * n - 1;
            assert(4 * n * n * a * a == (m + 1) * (m + 1) * (a * a)) by (nonlinear_arith)
                requires
                    m == 2 * n - 1,
            ;
            assert(4 * a * d + d <= 2 * m * a * a + a * a) by (nonlinear_arith)
                requires
                    (2 * a + 1) * (2 * a + 1) * d <= (m + 1) * (m + 1) * (a * a),
                    m * m <= 4 * d,
                    a >= 0,
            ;
            assert(a * a <= d);
            if a == 0 {
                assert(false);
            } else {
                assert(m * a <= 2 * d) by (nonlinear_arith)
                    requires
                        m * m <= 4 * d,
                        a * a <= d,
                        a > 0,
                        m > 0,
                        d > 0,
                ;
                assert(2 * m * a * a <= 4 * a * d) by (nonlinear_arith)
                    requires
                        m * a <= 2 * d,
                        a > 0,
                ;
                assert(d == a * a);
                assert(2 * d <= m * a) by (nonlinear_arith)
                    requires
                        4 * a * d <= 2 * m * a * a,
                        a > 0,
                ;
                assert(m == 2 * a) by (nonlinear_arith)
                    requires
                        m * a == 2 * (a * a),
                        a > 0,
                ;
                assert(false);
            }
        }
    }
}

/// The products a line compares stay well inside a `u128`.
proof fn lemma_line_products(a: int, b: int, n: int, i: int, k: int)
    requires
        0 <= a <= 0x8000_0000,
        0 <= b <= 0x8000_0000,
        a * a + b * b > 0,
        n == 0 || (2 * n - 1) * (2 * n - 1) <= 4 * (a * a + b * b),
        0 <= i <= n,
        0 <= k <= a,
    ensures
        n <= 0x1_0000_0000,
        4 * i * i * a * a <= 0x8000_0002_0000_0000_0000_0000_0000_0000,
        (2 * k + 1) * (2 * k + 1) * (a * a + b * b) <= 0x8000_0002_0000_0000_8000_0000_0000_0000,
        a * a + b * b <= 0x8000_0000_0000_0000,
{
    let d = a * a + b * b;
    assert(a * a <= 0x4000_0000_0000_0000 && b * b <= 0x4000_0000_0000_0000) by (nonlinear_arith)
        requires
            0 <= a <= 0x8000_0000,
            0 <= b <= 0x8000_0000,
    ;
    if n > 0x1_0000_0000 {
        assert((2 * n - 1) * (2 * n - 1) > 4 * d) by (nonlinear_arith)
            requires
                n > 0x1_0000_0000,
                d <= 0x8000_0000_0000_0000,
        ;
    }
    if n > 0 {
        assert(4 * i * i <= 4 * d + 0x4_0000_0001) by (nonlinear_arith)
            requires
                0 <= i <= n,
                n <= 0x1_0000_0000,
                (2 * n - 1) * (2 * n - 1) <= 4 * d,
        ;
        let e = 4 * i * i;
        let sq = a * a;
        assert(4 * i * i * a * a == e * sq) by (nonlinear_arith)
            requires
                e == 4 * i * i,
                sq == a * a,
        ;
        assert(e * sq <= (4 * d + 0x4_0000_0001) * sq) by (nonlinear_arith)
            requires
                e <= 4 * d + 0x4_0000_0001,
                0 <= sq,
        ;
        assert(d * sq <= 0x8000_0000_0000_0000 * 0x4000_0000_0000_0000) by (nonlinear_arith)
            requires
                0 <= sq <= 0x4000_0000_0000_0000,
                0 <= d <= 0x8000_0000_0000_0000,
        ;
        assert(0x4_0000_0001 * sq <= 0x4_0000_0001 * 0x4000_0000_0000_0000) by (nonlinear_arith)
            requires
                0 <= sq <= 0x4000_0000_0000_0000,
        ;
        assert((4 * d + 0x4_0000_0001) * sq == 4 * (d * sq) + 0x4_0000_0001 * sq) by (nonlinear_arith)
        ;
    } else {
        assert(4 * i * i * a * a == 0) by (nonlinear_arith)
            requires
                i == 0,
        ;
    }
    assert((2 * k + 1) * (2 * k + 1) * d <= 0x8000_0002_0000_0000_8000_0000_0000_0000)
        by (nonlinear_arith)
        requires
            0 <= k <= 0x8000_0000,
            0 <= d <= 0x8000_0000_0000_0000,
    ;
}

/// Counts `k` up to the rounding of `√t / √d`.
fn round_up_to(k: u128, t: u128, d: u128, Ghost(limit): Ghost<int>) -> (r: u128)
    requires
        d > 0,
        k == 0 || (2 * k - 1) * (2 * k - 1) * d <= t,
        k <= rounding(t as int, d as int) <= limit,
        (2 * limit + 1) * (2 * limit + 1) * d <= u128::MAX,
        limit >= 0,
    ensures
        r == rounding(t as int, d as int),
{
    proof {
        lemma_rounding(t as int, d as int);
    }
    let ghost goal = rounding(t as int, d as int);
    let mut k = k;
    loop
        invariant
            d > 0,
            k == 0 || (2 * k - 1) * (2 * k - 1) * d <= t,
            k <= goal <= limit,
            goal == rounding(t as int, d as int),
            is_rounding(goal, t as int, d as int),
            (2 * limit + 1) * (2 * limit + 1) * d <= u128::MAX,
        decreases goal - k,
    {
        proof {
            assert((2 * k + 1) * (2 * k + 1) * d <= (2 * limit + 1) * (2 * limit + 1) * d)
                by (nonlinear_arith)
                requires
                    0 <= k <= limit,
                    d > 0,
            ;
        }
        assert(2 * k + 1 <= (2 * k + 1) * (2 * k + 1) * d) by (nonlinear_arith)
            requires
                d >= 1,
                k >= 0,
        ;
        let odd = 2 * k + 1;
        assert(odd * odd <= odd * odd * d) by (nonlinear_arith)
            requires
                d >= 1,
        ;
        let sq = odd * odd;
        let next = sq * d;
        if next > t {
            proof {
                lemma_rounding_unique(k as int, goal, t as int, d as int);
            }
            return k;
        }
        proof {
            if k == goal {
                assert(false);
            }
        }
        k = k + 1;
    }
}

/// Get the set of [`Point`]s needed to draw a line between two points: one
/// pixel per unit step along the line, from `p1` to `p2`, consecutive
/// repeats dropped.
#[verifier::spinoff_prover]
#[verifier::rlimit(30)]
pub fn line(p1: Point, p2: Point) -> (pts: Vec<Point>)
    requires
        delta_fits(p1, p2),
    ensures
        pts@ == line_points(p1, p2),
{
    let dx: i64 = p2.x as i64 - p1.x as i64;
    let dy: i64 = p2.y as i64 - p1.y as i64;
    let ax: u128 = if dx < 0 { (-dx) as u128 } else { dx as u128 };
    let ay: u128 = if dy < 0 { (-dy) as u128 } else { dy as u128 };
    assert(ax * ax <= 0x4000_0000_0000_0000 && ay * ay <= 0x4000_0000_0000_0000) by (nonlinear_arith)
        requires
            0 <= ax <= 0x8000_0000,
            0 <= ay <= 0x8000_0000,
    ;
    let d: u128 = ax * ax + ay * ay;
    let ghost dd = d as int;
    assert(ax * ax == dx * dx && ay * ay == dy * dy) by (nonlinear_arith)
        requires
            ax == dx || ax == -dx,
            ay == dy || ay == -dy,
    ;
    assert(dd == squared_length(p1, p2));
    if d == 0 {
        return vec![p1];
    }
    // The number of unit steps: the length, rounded.

    let mut n: u128 = 0;
    loop
        invariant
            d == dd,
            0 < dd <= 0x8000_0000_0000_0000,
            n == 0 || (2 * n - 1) * (2 * n - 1) <= 4 * dd,
        ensures
            n == 0 || (2 * n - 1) * (2 * n - 1) <= 4 * dd,
            4 * dd < (2 * n + 1) * (2 * n + 1),
        decreases 4 * dd + 1 - n,
    {
        assert(n <= 0x1_0000_0001) by (nonlinear_arith)
            requires
                n == 0 || (2 * n - 1) * (2 * n - 1) <= 4 * dd,
                dd <= 0x8000_0000_0000_0000,
        ;
        assert((2 * n + 1) * (2 * n + 1) <= 0x10_0000_0010_0000_0010) by (nonlinear_arith)
            requires
                0 <= n <= 0x1_0000_0001,
        ;
        if (2 * n + 1) * (2 * n + 1) > 4 * d {
            break;
        }
        assert(n <= 4 * dd) by (nonlinear_arith)
            requires
                (2 * n + 1) * (2 * n + 1) <= 4 * dd,
                n >= 0,
        ;
        n = n + 1;
    }
    proof {
        lemma_steps_square(n as int, dd);
        lemma_rounding(4 * dd * dd, dd);
        lemma_rounding_unique(n as int, line_steps(p1, p2), 4 * dd * dd, dd);
    }
    let ghost a = ax as int;
    let ghost b = ay as int;
    let ghost last_x = rounding(4 * n * n * a * a, dd);
    let ghost last_y = rounding(4 * n * n * b * b, dd);
    proof {
        lemma_rounding(4 * n * n * a * a, dd);
        lemma_rounding(4 * n * n * b * b, dd);
        lemma_last_step_within(a, b, n as int, last_x);
        lemma_last_step_within(b, a, n as int, last_y);
    }
    let ghost f = |j: int| line_point(p1, p2, j);
    let mut pts: Vec<Point> = Vec::new();
    let mut kx: u128 = 0;
    let mut ky: u128 = 0;
    let mut i: u128 = 0;
    proof {
        lemma_rounding(4 * i * i * a * a, dd);
        lemma_rounding(4 * i * i * b * b, dd);
    }
    while i <= n
        invariant
            d == dd,
            dd == a * a + b * b,
            dd == squared_length(p1, p2),
            0 < dd,
            a == ax,
            b == ay,
            0 <= a <= 0x8000_0000,
            0 <= b <= 0x8000_0000,
            dx == p2.x - p1.x,
            dy == p2.y - p1.y,
            a == abs(dx as int),
            b == abs(dy as int),
            n == line_steps(p1, p2),
            n == 0 || (2 * n - 1) * (2 * n - 1) <= 4 * dd,
            last_x == rounding(4 * n * n * a * a, dd),
            last_y == rounding(4 * n * n * b * b, dd),
            is_rounding(last_x, 4 * n * n * a * a, dd),
            is_rounding(last_y, 4 * n * n * b * b, dd),
            last_x <= a,
            last_y <= b,
            i <= n + 1,
            i <= n ==> kx == 0 || (2 * kx - 1) * (2 * kx - 1) * dd <= 4 * i * i * a * a,
            i <= n ==> ky == 0 || (2 * ky - 1) * (2 * ky - 1) * dd <= 4 * i * i * b * b,
            i <= n ==> kx <= rounding(4 * i * i * a * a, dd),
            i <= n ==> ky <= rounding(4 * i * i * b * b, dd),
            f == (|j: int| line_point(p1, p2, j)),
            pts@ == collapse_runs(Seq::new(i as nat, f)),
        decreases n + 1 - i,
    {
        let ghost rx = rounding(4 * i * i * a * a, dd);
        let ghost ry = rounding(4 * i * i * b * b, dd);
        proof {
            lemma_rounding(4 * i * i * a * a, dd);
            lemma_rounding(4 * i * i * b * b, dd);
            assert(4 * i * i * a * a <= 4 * n * n * a * a && 4 * i * i * b * b <= 4 * n * n * b * b)
                by (nonlinear_arith)
                requires
                    0 <= i <= n,
            ;
            lemma_rounding_monotone(rx, 4 * i * i * a * a, last_x, 4 * n * n * a * a, dd);
            lemma_rounding_monotone(ry, 4 * i * i * b * b, last_y, 4 * n * n * b * b, dd);
            lemma_line_products(a, b, n as int, i as int, a);
            lemma_line_products(b, a, n as int, i as int, b);
        }
        assert(2 * i * ax <= 0x2_0000_0002_0000_0000 && 2 * i * ay <= 0x2_0000_0002_0000_0000)
            by (nonlinear_arith)
            requires
                0 <= i <= 0x1_0000_0001,
                0 <= ax <= 0x8000_0000,
                0 <= ay <= 0x8000_0000,
        ;
        let (sx, sy) = (2 * i * ax, 2 * i * ay);
        assert(sx * sx == 4 * i * i * a * a && sy * sy == 4 * i * i * b * b) by (nonlinear_arith)
            requires
                sx == 2 * i * a,
                sy == 2 * i * b,
        ;
        let tx = sx * sx;
        let ty = sy * sy;
        kx = round_up_to(kx, tx, d, Ghost(a));
        ky = round_up_to(ky, ty, d, Ghost(b));
        assert(kx <= a && ky <= b);
        assert(kx as i64 == kx && ky as i64 == ky);
        let x: i64 = if dx < 0 { p1.x as i64 - kx as i64 } else { p1.x as i64 + kx as i64 };
        let y: i64 = if dy < 0 { p1.y as i64 - ky as i64 } else { p1.y as i64 + ky as i64 };
        let p = Point::new(x as i32, y as i32);
        proof {
            assert(4 * i * i * dx * dx == 4 * i * i * a * a && 4 * i * i * dy * dy == 4 * i * i * b * b)
                by (nonlinear_arith)
                requires
                    a == dx || a == -dx,
                    b == dy || b == -dy,
            ;
            assert(kx == rounding(4 * i * i * dx * dx, dd));
            assert(ky == rounding(4 * i * i * dy * dy, dd));
            if dx < 0 {
                assert(drag_sign(dx as int) == -1);
                assert(drag_sign(dx as int) * kx == -kx);
            } else {
                assert(drag_sign(dx as int) == 1);
                assert(drag_sign(dx as int) * kx == kx);
            }
            if dy < 0 {
                assert(drag_sign(dy as int) == -1);
                assert(drag_sign(dy as int) * ky == -ky);
            } else {
                assert(drag_sign(dy as int) == 1);
                assert(drag_sign(dy as int) * ky == ky);
            }
            assert(x == p1.x + drag_sign(dx as int) * kx);
            assert(y == p1.y + drag_sign(dy as int) * ky);
            assert(p.x == (p1.x + drag_sign(dx as int) * rounding(4 * i * i * dx * dx, dd)) as i32);
            assert(p.y == (p1.y + drag_sign(dy as int) * rounding(4 * i * i * dy * dy, dd)) as i32);
            assert(p == line_point(p1, p2, i as int));
            let s = Seq::new((i + 1) as nat, f);
            assert(s.drop_last() =~= Seq::new(i as nat, f));
            assert(s.last() == p);
        }
        if pts.len() == 0 || pts[pts.len() - 1] != p {
            pts.push(p);
        }
        proof {
            if i < n {
                let i1 = (i + 1) as int;
                lemma_rounding(4 * i1 * i1 * a * a, dd);
                lemma_rounding(4 * i1 * i1 * b * b, dd);
                assert(4 * i * i * a * a <= 4 * i1 * i1 * a * a && 4 * i * i * b * b <= 4 * i1 * i1
                    * b * b) by (nonlinear_arith)
                    requires
                        0 <= i,
                        i1 == i + 1,
                ;
                lemma_rounding_monotone(rx, 4 * i * i * a * a, rounding(4 * i1 * i1 * a * a, dd), 4
                    * i1 * i1 * a * a, dd);
                lemma_rounding_monotone(ry, 4 * i * i * b * b, rounding(4 * i1 * i1 * b * b, dd), 4
                    * i1 * i1 * b * b, dd);
            }
        }
        i = i + 1;
    }
    pts
}

/// The pixels of a rectangle's outline from corner `p1` to corner `p2`: its
/// left, top, right and bottom sides in that order, each as a line.
pub open spec fn rectangle_points(p1: Point, p2: Point) -> Seq<Point> {
    let c1 = Point { x: p1.x, y: p2.y };
    let c2 = Point { x: p2.x, y: p1.y };
    line_points(p1, c1) + line_points(p1, c2) + line_points(c2, p2) + line_points(c1, p2)
}

/// `4 i² d` is the square of `2i` times `d`, so it rounds to `i` exactly.
proof fn lemma_rounding_whole(i: int, d: int)
    requires
        i >= 0,
        d > 0,
    ensures
        rounding(4 * i * i * d, d) == i,
{
    assert(is_rounding(i, 4 * i * i * d, d)) by (nonlinear_arith)
        requires
            i >= 0,
            d > 0,
    ;
    lemma_rounding(4 * i * i * d, d);
    lemma_rounding_unique(rounding(4 * i * i * d, d), i, 4 * i * i * d, d);
}

/// Collapsing runs keeps every point of the sequence and adds none.
proof fn lemma_collapse_runs_points(s: Seq<Point>)
    ensures
        forall|q: Point| #[trigger] collapse_runs(s).contains(q) <==> s.contains(q),
    decreases s.len(),
{
    if s.len() > 0 {
        let d = s.drop_last();
        lemma_collapse_runs_points(d);
        let r = collapse_runs(d);
        assert forall|q: Point| #[trigger] collapse_runs(s).contains(q) <==> s.contains(q) by {
            if s.contains(q) {
                let i = choose|i: int| 0 <= i < s.len() && s[i] == q;
                if i < d.len() {
                    assert(d[i] == q);
                    assert(d.contains(q));
                    assert(collapse_runs(d).contains(q));
                    let j = choose|j: int| 0 <= j < r.len() && r[j] == q;
                    if !(r.len() > 0 && r.last() == s.last()) {
                        assert(r.push(s.last())[j] == q);
                    }
                } else {
                    if r.len() > 0 && r.last() == s.last() {
                        assert(r[r.len() - 1] == q);
                    } else {
                        assert(r.push(s.last())[r.len() as int] == q);
                    }
                }
            }
            if collapse_runs(s).contains(q) {
                let j = choose|j: int| 0 <= j < collapse_runs(s).len() && collapse_runs(s)[j] == q;
                if j < r.len() {
                    assert(r[j] == q);
                    assert(r.contains(q));
                    assert(collapse_runs(d).contains(q));
                    let i = choose|i: int| 0 <= i < d.len() && d[i] == q;
                    assert(s[i] == q);
                } else {
                    assert(s[s.len() - 1] == q);
                }
            }
        }
    }
}

/// A line along a row covers exactly the points of that row from one end
/// to the other.
pub proof fn lemma_row_line(a: Point, b: Point)
    requires
        a.y == b.y,
        delta_fits(a, b),
    ensures
        forall|q: Point| #[trigger] line_points(a, b).contains(q) <==> (q.y == a.y && (
            a.x <= q.x <= b.x || b.x <= q.x <= a.x)),
{
    let dx = b.x - a.x;
    if dx == 0 {
        assert(squared_length(a, b) == 0);
        assert forall|q: Point| #[trigger] line_points(a, b).contains(q) <==> (q.y == a.y && (
            a.x <= q.x <= b.x || b.x <= q.x <= a.x)) by {
            if q.y == a.y && q.x == a.x {
                assert(q == a);
                assert(line_points(a, b)[0] == q);
            }
        }
        return;
    }
    let n: int = if dx < 0 { -dx } else { dx };
    let d = squared_length(a, b);
    assert(d == n * n && n * n > 0) by (nonlinear_arith)
        requires
            d == dx * dx + 0 * 0,
            n == dx || n == -dx,
            n > 0,
    ;
    assert(4 * d * d == 4 * n * n * d) by (nonlinear_arith)
        requires
            d == n * n,
    ;
    lemma_rounding_whole(n, d);
    lemma_rounding_whole(0, d);
    assert(line_steps(a, b) == n);
    let pts = Seq::new((n + 1) as nat, |i: int| line_point(a, b, i));
    assert forall|i: int| 0 <= i <= n implies #[trigger] pts[i] == Point {
        x: (a.x + drag_sign(dx) * i) as i32,
        y: a.y,
    } by {
        lemma_rounding_whole(i, d);
        assert(4 * i * i * dx * dx == 4 * i * i * d) by (nonlinear_arith)
            requires
                d == dx * dx,
        ;
        assert(4 * i * i * (b.y - a.y) * (b.y - a.y) == 4 * 0 * 0 * d);
    }
    lemma_collapse_runs_points(pts);
    assert(line_points(a, b) == collapse_runs(pts));
    assert forall|q: Point| #[trigger] line_points(a, b).contains(q) <==> (q.y == a.y && (
        a.x <= q.x <= b.x || b.x <= q.x <= a.x)) by {
        if q.y == a.y && (a.x <= q.x <= b.x || b.x <= q.x <= a.x) {
            let i: int = if dx < 0 { a.x - q.x } else { q.x - a.x };
            assert(pts[i] == q);
            assert(pts.contains(q));
        }
        if line_points(a, b).contains(q) {
            assert(pts.contains(q));
            let i = choose|i: int| 0 <= i < pts.len() && pts[i] == q;
            assert(pts[i] == Point { x: (a.x + drag_sign(dx) * i) as i32, y: a.y });
        }
    }
}

/// A line along a column covers exactly the points of that column from
/// one end to the other.
pub proof fn lemma_column_line(a: Point, b: Point)
    requires
        a.x == b.x,
        delta_fits(a, b),
    ensures
        forall|q: Point| #[trigger] line_points(a, b).contains(q) <==> (q.x == a.x && (
            a.y <= q.y <= b.y || b.y <= q.y <= a.y)),
{
    let dy = b.y - a.y;
    if dy == 0 {
        assert(squared_length(a, b) == 0);
        assert forall|q: Point| #[trigger] line_points(a, b).contains(q) <==> (q.x == a.x && (
            a.y <= q.y <= b.y || b.y <= q.y <= a.y)) by {
            if q.x == a.x && q.y == a.y {
                assert(q == a);
                assert(line_points(a, b)[0] == q);
            }
        }
        return;
    }
    let n: int = if dy < 0 { -dy } else { dy };
    let d = squared_length(a, b);
    assert(d == n * n && n * n > 0) by (nonlinear_arith)
        requires
            d == 0 * 0 + dy * dy,
            n == dy || n == -dy,
            n > 0,
    ;
    assert(4 * d * d == 4 * n * n * d) by (nonlinear_arith)
        requires
            d == n * n,
    ;
    lemma_rounding_whole(n, d);
    lemma_rounding_whole(0, d);
    assert(line_steps(a, b) == n);
    let pts = Seq::new((n + 1) as nat, |i: int| line_point(a, b, i));
    assert forall|i: int| 0 <= i <= n implies #[trigger] pts[i] == Point {
        x: a.x,
        y: (a.y + drag_sign(dy) * i) as i32,
    } by {
        lemma_rounding_whole(i, d);
        assert(4 * i * i * dy * dy == 4 * i * i * d) by (nonlinear_arith)
            requires
                d == dy * dy,
        ;
        assert(4 * i * i * (b.x - a.x) * (b.x - a.x) == 4 * 0 * 0 * d);
    }
    lemma_collapse_runs_points(pts);
    assert(line_points(a, b) == collapse_runs(pts));
    assert forall|q: Point| #[trigger] line_points(a, b).contains(q) <==> (q.x == a.x && (
        a.y <= q.y <= b.y || b.y <= q.y <= a.y)) by {
        if q.x == a.x && (a.y <= q.y <= b.y || b.y <= q.y <= a.y) {
            let i: int = if dy < 0 { a.y - q.y } else { q.y - a.y };
            assert(pts[i] == q);
            assert(pts.contains(q));
        }
        if line_points(a, b).contains(q) {
            assert(pts.contains(q));
            let i = choose|i: int| 0 <= i < pts.len() && pts[i] == q;
            assert(pts[i] == Point { x: a.x, y: (a.y + drag_sign(dy) * i) as i32 });
        }
    }
}

/// Whether `q` lies on the border of the box with corners `p1` and `p2`:
/// on its top or bottom row between its sides, or on its left or right
/// column between its top and bottom.
pub open spec fn on_border(p1: Point, p2: Point, q: Point) -> bool {
    let within_x = (p1.x <= q.x <= p2.x || p2.x <= q.x <= p1.x);
    let within_y = (p1.y <= q.y <= p2.y || p2.y <= q.y <= p1.y);
    ||| within_x && (q.y == p1.y || q.y == p2.y)
    ||| within_y && (q.x == p1.x || q.x == p2.x)
}

/// A rectangle's outline is exactly the border of its box: every point of
/// each of the four sides is drawn, and nothing else is.
pub proof fn lemma_rectangle_is_the_border(p1: Point, p2: Point)
    requires
        delta_fits(p1, p2),
    ensures
        forall|q: Point| #[trigger] rectangle_points(p1, p2).contains(q) <==> on_border(p1, p2, q),
{
    let c1 = Point { x: p1.x, y: p2.y };
    let c2 = Point { x: p2.x, y: p1.y };
    lemma_column_line(p1, c1);
    lemma_row_line(p1, c2);
    lemma_column_line(c2, p2);
    lemma_row_line(c1, p2);
    let s1 = line_points(p1, c1);
    let s2 = line_points(p1, c2);
    let s3 = line_points(c2, p2);
    let s4 = line_points(c1, p2);
    assert forall|q: Point| #[trigger] rectangle_points(p1, p2).contains(q) <==> on_border(p1, p2, q) by {
        let all = s1 + s2 + s3 + s4;
        assert(rectangle_points(p1, p2) == all);
        lemma_add_contains(s1, s2, q);
        lemma_add_contains(s1 + s2, s3, q);
        lemma_add_contains(s1 + s2 + s3, s4, q);
    }
}

/// A point is in two sequences joined when it is in either of them.
proof fn lemma_add_contains(s: Seq<Point>, t: Seq<Point>, q: Point)
    ensures
        (s + t).contains(q) <==> (s.contains(q) || t.contains(q)),
{
    if s.contains(q) {
        let i = choose|i: int| 0 <= i < s.len() && s[i] == q;
        assert((s + t)[i] == q);
    }
    if t.contains(q) {
        let i = choose|i: int| 0 <= i < t.len() && t[i] == q;
        assert((s + t)[s.len() + i] == q);
    }
    if (s + t).contains(q) {
        let i = choose|i: int| 0 <= i < (s + t).len() && (s + t)[i] == q;
        if i < s.len() {
            assert(s[i] == q);
        } else {
            assert(t[i - s.len()] == q);
        }
    }
}

/// Get the set of [`Point`]s needed to draw a rectangle between two points
pub fn rectangle(p1: Point, p2: Point) -> (pts: Vec<Point>)
    requires
        delta_fits(p1, p2),
    ensures
        pts@ == rectangle_points(p1, p2),
{
    let c1 = Point::new(p1.x, p2.y);
    let c2 = Point::new(p2.x, p1.y);
    let mut pts = line(p1, c1);
    let mut l2 = line(p1, c2);
    let mut l3 = line(c2, p2);
    let mut l4 = line(c1, p2);
    pts.append(&mut l2);
    pts.append(&mut l3);
    pts.append(&mut l4);
    pts
}

/// What `brush_offsets` promises of its result: the offsets of the disc of
/// the capped radius, each once, in row-major order.
pub open spec fn is_brush(offs: Seq<Point>, radius: u8) -> bool {
    &&& forall|i: int| 0 <= i < offs.len() ==> in_disc(capped_radius(radius), #[trigger] offs[i])
    &&& forall|p: Point| in_disc(capped_radius(radius), p) ==> offs.contains(p)
    &&& forall|i: int, j: int|
        0 <= i < j < offs.len() ==> row_major_before(#[trigger] offs[i], #[trigger] offs[j])
}

/// The offsets a brush of `radius` stamps, in row-major order.
pub open spec fn brush(radius: u8) -> Seq<Point> {
    choose|offs: Seq<Point>| is_brush(offs, radius)
}

proof fn lemma_sorted_unique(a: Seq<Point>, b: Seq<Point>)
    requires
        forall|i: int, j: int| 0 <= i < j < a.len() ==> row_major_before(#[trigger] a[i], #[trigger] a[j]),
        forall|i: int, j: int| 0 <= i < j < b.len() ==> row_major_before(#[trigger] b[i], #[trigger] b[j]),
        forall|p: Point| a.contains(p) <==> b.contains(p),
    ensures
        a == b,
    decreases a.len() + b.len(),
{
    if a.len() == 0 || b.len() == 0 {
        if a.len() > 0 {
            assert(a.contains(a[0]));
        }
        if b.len() > 0 {
            assert(b.contains(b[0]));
        }
        assert(a =~= b);
    } else {
        assert(a.contains(a[0]));
        assert(b.contains(b[0]));
        let i = choose|i: int| 0 <= i < b.len() && b[i] == a[0];
        let j = choose|j: int| 0 <= j < a.len() && a[j] == b[0];
        if i > 0 && j > 0 {
            assert(row_major_before(b[0], b[i]));
            assert(row_major_before(a[0], a[j]));
        } else if i > 0 {
            assert(row_major_before(b[0], b[i]));
        } else if j > 0 {
            assert(row_major_before(a[0], a[j]));
        }
        assert(a[0] == b[0]);
        let (ta, tb) = (a.drop_first(), b.drop_first());
        assert forall|p: Point| ta.contains(p) <==> tb.contains(p) by {
            if ta.contains(p) {
                let k = choose|k: int| 0 <= k < ta.len() && ta[k] == p;
                assert(a[k + 1] == p);
                assert(row_major_before(a[0], a[k + 1]));
                assert(a.contains(p));
                let m = choose|m: int| 0 <= m < b.len() && b[m] == p;
                assert(m != 0);
                assert(tb[m - 1] == p);
            }
            if tb.contains(p) {
                let k = choose|k: int| 0 <= k < tb.len() && tb[k] == p;
                assert(b[k + 1] == p);
                assert(row_major_before(b[0], b[k + 1]));
                assert(b.contains(p));
                let m = choose|m: int| 0 <= m < a.len() && a[m] == p;
                assert(m != 0);
                assert(ta[m - 1] == p);
            }
        }
        assert forall|x: int, y: int| 0 <= x < y < ta.len() implies row_major_before(
            #[trigger] ta[x],
            #[trigger] ta[y],
        ) by {
            assert(ta[x] == a[x + 1] && ta[y] == a[y + 1]);
        }
        assert forall|x: int, y: int| 0 <= x < y < tb.len() implies row_major_before(
            #[trigger] tb[x],
            #[trigger] tb[y],
        ) by {
            assert(tb[x] == b[x + 1] && tb[y] == b[y + 1]);
        }
        lemma_sorted_unique(ta, tb);
        assert(a =~= seq![a[0]] + ta);
        assert(b =~= seq![b[0]] + tb);
    }
}

/// The brush offsets are the only ones of their kind.
pub proof fn lemma_brush_unique(offs: Seq<Point>, radius: u8)
    requires
        is_brush(offs, radius),
    ensures
        brush(radius) == offs,
{
    let b = brush(radius);
    assert(is_brush(b, radius));
    assert forall|p: Point| offs.contains(p) <==> b.contains(p) by {
        if offs.contains(p) {
            let k = choose|k: int| 0 <= k < offs.len() && offs[k] == p;
            assert(in_disc(capped_radius(radius), offs[k]));
        }
        if b.contains(p) {
            let k = choose|k: int| 0 <= k < b.len() && b[k] == p;
            assert(in_disc(capped_radius(radius), b[k]));
        }
    }
    lemma_sorted_unique(offs, b);
}

/// `p` moved by `o`.
pub open spec fn shifted(p: Point, o: Point) -> Point {
    Point { x: (p.x + o.x) as i32, y: (p.y + o.y) as i32 }
}

/// Every offset of `offs` applied to `p`, in order.
pub open spec fn stamp(p: Point, offs: Seq<Point>) -> Seq<Point> {
    offs.map_values(|o: Point| shifted(p, o))
}

/// The stamps of every point, one after the other.
pub open spec fn stamps(points: Seq<Point>, offs: Seq<Point>) -> Seq<Point>
    decreases points.len(),
{
    if points.len() == 0 {
        seq![]
    } else {
        stamps(points.drop_last(), offs) + stamp(points.last(), offs)
    }
}

/// `s` with each point after its first appearance left out.
pub open spec fn first_appearances(s: Seq<Point>) -> Seq<Point>
    decreases s.len(),
{
    if s.len() == 0 {
        s
    } else if first_appearances(s.drop_last()).contains(s.last()) {
        first_appearances(s.drop_last())
    } else {
        first_appearances(s.drop_last()).push(s.last())
    }
}

/// The points of an outline widened by a brush: the brush stamped over
/// each point, each pixel once, in the order first reached.
pub open spec fn thickened(points: Seq<Point>, radius: u8) -> Seq<Point> {
    first_appearances(stamps(points, brush(radius)))
}

/// Leaving out repeats leaves each point once, and keeps every point.
pub proof fn lemma_first_appearances(s: Seq<Point>)
    ensures
        first_appearances(s).no_duplicates(),
        forall|q: Point| #[trigger] first_appearances(s).contains(q) <==> s.contains(q),
    decreases s.len(),
{
    if s.len() > 0 {
        lemma_first_appearances(s.drop_last());
        let f = first_appearances(s.drop_last());
        assert forall|q: Point| #[trigger] first_appearances(s).contains(q) <==> s.contains(q) by {
            if s.contains(q) && q != s.last() {
                let k = choose|k: int| 0 <= k < s.len() && s[k] == q;
                assert(s.drop_last()[k] == q);
            }
            if s.drop_last().contains(q) {
                let k = choose|k: int| 0 <= k < s.drop_last().len() && s.drop_last()[k] == q;
                assert(s[k] == q);
            }
            if !f.contains(s.last()) {
                assert(f.push(s.last()).last() == s.last());
                if f.push(s.last()).contains(q) && q != s.last() {
                    let k = choose|k: int| 0 <= k < f.push(s.last()).len() && f.push(s.last())[k] == q;
                    assert(f[k] == q);
                }
                if f.contains(q) {
                    let k = choose|k: int| 0 <= k < f.len() && f[k] == q;
                    assert(f.push(s.last())[k] == q);
                }
            }
            assert(s[s.len() - 1] == s.last());
        }
        if !f.contains(s.last()) {
            let g = f.push(s.last());
            assert forall|i: int, j: int| 0 <= i < g.len() && 0 <= j < g.len() && i != j implies g[i] != g[j] by {
                if i == f.len() {
                    assert(g[j] == f[j]);
                } else if j == f.len() {
                    assert(g[i] == f[i]);
                } else {
                    assert(g[i] == f[i] && g[j] == f[j]);
                }
            }
        }
    }
}

/// A number for each position on the grid, different for different
/// positions.
pub open spec fn point_key(p: Point) -> int {
    (p.x + 0x8000_0000) * 0x1_0000_0000 + (p.y + 0x8000_0000)
}

proof fn lemma_point_key(p: Point, q: Point)
    ensures
        0 <= point_key(p) <= u64::MAX,
        point_key(p) == point_key(q) ==> p == q,
{
    let (a, b) = (p.x + 0x8000_0000, p.y + 0x8000_0000);
    let (c, d) = (q.x + 0x8000_0000, q.y + 0x8000_0000);
    assert(0 <= a * 0x1_0000_0000 + b <= u64::MAX) by (nonlinear_arith)
        requires
            0 <= a < 0x1_0000_0000,
            0 <= b < 0x1_0000_0000,
    ;
    if point_key(p) == point_key(q) {
        vstd::arithmetic::div_mod::lemma_fundamental_div_mod_converse(
            point_key(p),
            0x1_0000_0000,
            a,
            b,
        );
        vstd::arithmetic::div_mod::lemma_fundamental_div_mod_converse(
            point_key(q),
            0x1_0000_0000,
            c,
            d,
        );
    }
}

fn key_of(p: Point) -> (k: u64)
    ensures
        k == point_key(p),
{
    proof {
        lemma_point_key(p, p);
    }
    let a = (p.x as i64 + 0x8000_0000) as u64;
    let b = (p.y as i64 + 0x8000_0000) as u64;
    assert(a * 0x1_0000_0000 + b <= u64::MAX) by (nonlinear_arith)
        requires
            0 <= a < 0x1_0000_0000,
            0 <= b < 0x1_0000_0000,
    ;
    a * 0x1_0000_0000 + b
}

/// Whether every point leaves room for the brush of `radius` around it.
pub open spec fn room_for_brush(points: Seq<Point>, radius: u8) -> bool {
    forall|i: int|
        0 <= i < points.len() ==> i32::MIN + capped_radius(radius) <= #[trigger] points[i].x
            <= i32::MAX - capped_radius(radius) && i32::MIN + capped_radius(radius) <= points[i].y
            <= i32::MAX - capped_radius(radius)
}

/// Widens a set of points by stamping a brush of the given radius over
/// each of them, so a one pixel outline becomes a thick one. Duplicates are
/// removed, which matters when the caller records how to undo the change:
/// a pixel set twice would otherwise be reverted to a color from earlier in
/// the same stroke.
pub fn thicken(points: Vec<Point>, radius: u8) -> (r: Vec<Point>)
    requires
        room_for_brush(points@, radius),
    ensures
        r@ == thickened(points@, radius),
        r@.no_duplicates(),
        forall|q: Point| #[trigger] r@.contains(q) <==> stamps(points@, brush(radius)).contains(q),
{
    let offsets = brush_offsets(radius);
    proof {
        lemma_brush_unique(offsets@, radius);
    }
    let ghost offs = offsets@;
    let mut seen: HashSet<u64> = HashSet::new();
    let mut out: Vec<Point> = Vec::new();
    let mut i: usize = 0;
    while i < points.len()
        invariant
            offs == offsets@,
            offs == brush(radius),
            is_brush(offs, radius),
            room_for_brush(points@, radius),
            0 <= i <= points@.len(),
            out@ == first_appearances(stamps(points@.subrange(0, i as int), offs)),
            forall|q: Point| #[trigger] out@.contains(q) <==> seen@.contains(point_key(q) as u64),
            forall|k: u64| seen@.contains(k) ==> exists|q: Point| out@.contains(q) && point_key(q) == k,
        decreases points@.len() - i,
    {
        let p = points[i];
        let ghost before = stamps(points@.subrange(0, i as int), offs);
        let mut j: usize = 0;
        while j < offsets.len()
            invariant
                offs == offsets@,
                is_brush(offs, radius),
                room_for_brush(points@, radius),
                0 <= i < points@.len(),
                p == points@[i as int],
                0 <= j <= offs.len(),
                out@ == first_appearances(before + stamp(p, offs.subrange(0, j as int))),
                forall|q: Point| #[trigger] out@.contains(q) <==> seen@.contains(point_key(q) as u64),
                forall|k: u64| seen@.contains(k) ==> exists|q: Point| out@.contains(q) && point_key(q) == k,
            decreases offs.len() - j,
        {
            let o = offsets[j];
            proof {
                assert(in_disc(capped_radius(radius), offs[j as int]));
                lemma_disc_bounds(capped_radius(radius), o);
                assert(i32::MIN + capped_radius(radius) <= points@[i as int].x);
            }
            let q = Point::new(p.x + o.x, p.y + o.y);
            let k = key_of(q);
            let ghost prev = before + stamp(p, offs.subrange(0, j as int));
            proof {
                broadcast use vstd::std_specs::hash::group_hash_axioms;
                assert(before + stamp(p, offs.subrange(0, j + 1)) =~= prev.push(q));
                assert((prev.push(q)).drop_last() =~= prev);
                if seen@.contains(k) {
                    let w = choose|w: Point| out@.contains(w) && point_key(w) == k;
                    lemma_point_key(w, q);
                }
            }
            let ghost out0 = out@;
            let ghost seen0 = seen@;
            let fresh = seen.insert(k);
            proof {
                broadcast use vstd::std_specs::hash::group_hash_axioms;
                assert(seen@ == seen0.insert(k));
                assert(fresh == !seen0.contains(k));
                assert(fresh == !out0.contains(q));
            }
            if fresh {
                out.push(q);
            }
            proof {
                broadcast use vstd::seq_lib::group_seq_properties;
                assert forall|w: Point| #[trigger] out@.contains(w) <==> seen@.contains(
                    point_key(w) as u64,
                ) by {
                    lemma_point_key(w, q);
                    lemma_point_key(w, w);
                    if fresh {
                        assert(out@ == out0.push(q));
                    }
                }
                assert forall|kk: u64| seen@.contains(kk) implies exists|z: Point|
                    out@.contains(z) && point_key(z) == kk by {
                    if kk == k {
                        assert(out@.contains(q));
                        lemma_point_key(q, q);
                    } else {
                        assert(seen0.contains(kk));
                        let z = choose|z: Point| out0.contains(z) && point_key(z) == kk;
                        if fresh {
                            assert(out@ == out0.push(q));
                        }
                        assert(out@.contains(z));
                    }
                }
            }
            j = j + 1;
        }
        proof {
            assert(offs.subrange(0, offs.len() as int) =~= offs);
            assert(points@.subrange(0, i + 1).drop_last() =~= points@.subrange(0, i as int));
        }
        i = i + 1;
    }
    proof {
        assert(points@.subrange(0, points@.len() as int) =~= points@);
        lemma_first_appearances(stamps(points@, offs));
    }
    out
}

} // verus!
