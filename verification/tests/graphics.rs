use spriterize::geom::Point;
use spriterize::graphics;
use spriterize::graphics::{
    brush_offsets, rectangle, snap_to_direction, snap_to_square, thicken, MAX_BRUSH_RADIUS,
};

fn pt(x: i32, y: i32) -> Point {
    Point::new(x, y)
}

fn sorted_line(p1: (i32, i32), p2: (i32, i32)) -> Vec<(i32, i32)> {
    let mut l: Vec<(i32, i32)> = graphics::line(pt(p1.0, p1.1), pt(p2.0, p2.1)).iter().map(|p| (p.x, p.y)).collect();
    l.sort();
    l
}

#[test]
fn simple_line_cases() {
    assert_eq!(sorted_line((0, 0), (2, 0)), vec![(0, 0), (1, 0), (2, 0)]);
    assert_eq!(sorted_line((0, 0), (0, 2)), vec![(0, 0), (0, 1), (0, 2)]);
    assert_eq!(sorted_line((0, 0), (2, 2)), vec![(0, 0), (1, 1), (2, 2)]);
    assert_eq!(sorted_line((2, 0), (0, 0)), vec![(0, 0), (1, 0), (2, 0)]);
    assert_eq!(sorted_line((0, 0), (3, 1)), vec![(0, 0), (1, 0), (2, 1), (3, 1)]);
}

#[test]
fn a_zero_radius_brush_is_a_single_pixel() {
    assert_eq!(brush_offsets(0), vec![pt(0, 0)]);
}

#[test]
fn a_radius_one_brush_is_a_plus() {
    let mut offsets = brush_offsets(1);
    offsets.sort();

    let mut expected: Vec<Point> = vec![(0, -1), (-1, 0), (0, 0), (1, 0), (0, 1)]
        .into_iter()
        .map(|(x, y)| pt(x, y))
        .collect();
    expected.sort();

    assert_eq!(offsets, expected);
}

#[test]
fn brushes_are_round_and_symmetric() {
    for radius in 0..=6u8 {
        let offsets = brush_offsets(radius);
        let r = radius as i32;

        for p in &offsets {
            assert!(p.x * p.x + p.y * p.y <= r * r);
            assert!(offsets.contains(&pt(-p.x, p.y)));
            assert!(offsets.contains(&pt(p.x, -p.y)));
        }

        if radius > 0 {
            assert!(!offsets.contains(&pt(r, r)));
        }
    }
}

#[test]
fn brush_offsets_come_in_row_major_order() {
    let offsets = brush_offsets(3);
    for pair in offsets.windows(2) {
        let (a, b) = (pair[0], pair[1]);
        assert!(a.y < b.y || (a.y == b.y && a.x < b.x));
    }
    assert_eq!(offsets.len(), 29);
}

fn direction(p0: (i32, i32), p: (i32, i32)) -> (i32, i32) {
    let s = snap_to_direction(pt(p0.0, p0.1), pt(p.0, p.1));
    (s.x, s.y)
}

#[test]
fn snapped_direction() {
    assert_eq!(direction((10, 10), (20, 11)), (20, 10));
    assert_eq!(direction((10, 10), (11, 20)), (10, 20));
    assert_eq!(direction((10, 10), (0, 11)), (0, 10));
    assert_eq!(direction((10, 10), (11, 0)), (10, 0));
    assert_eq!(direction((10, 10), (20, 16)), (18, 18));
    assert_eq!(direction((10, 10), (0, 20)), (0, 20));
    assert_eq!(direction((10, 10), (10, 10)), (10, 10));
}

#[test]
fn snapped_diagonals_are_exactly_45_degrees() {
    let p0 = pt(8, 8);

    for x in -20..=20 {
        for y in -20..=20 {
            let snapped = snap_to_direction(p0, pt(p0.x + x, p0.y + y));
            let (dx, dy) = ((snapped.x - p0.x).abs(), (snapped.y - p0.y).abs());

            assert!(
                dx == 0 || dy == 0 || dx == dy,
                "({x}, {y}) snapped to ({dx}, {dy}), which is neither"
            );
        }
    }
}

fn square(p0: (i32, i32), p: (i32, i32)) -> (i32, i32) {
    let s = snap_to_square(pt(p0.0, p0.1), pt(p.0, p.1));
    (s.x, s.y)
}

#[test]
fn snapped_square() {
    assert_eq!(square((5, 5), (15, 8)), (15, 15));
    assert_eq!(square((5, 5), (8, 15)), (15, 15));
    assert_eq!(square((5, 5), (0, 3)), (0, 0));
    assert_eq!(square((5, 5), (2, 9)), (1, 9));
    assert_eq!(square((5, 5), (5, 12)), (12, 12));
    assert_eq!(square((5, 5), (5, 5)), (5, 5));
}

#[test]
fn snapped_squares_have_equal_sides() {
    let p0 = pt(9, 9);

    for x in -15..=15 {
        for y in -15..=15 {
            let snapped = snap_to_square(p0, pt(p0.x + x, p0.y + y));

            assert_eq!(
                (snapped.x - p0.x).abs(),
                (snapped.y - p0.y).abs(),
                "({x}, {y}) did not come out square"
            );
        }
    }
}

#[test]
fn brush_radius_is_capped() {
    let huge = brush_offsets(u8::MAX);
    let capped = brush_offsets(MAX_BRUSH_RADIUS);

    assert_eq!(huge.len(), capped.len());
}

#[test]
fn odd_lines() {
    let l = graphics::line(pt(0, 0), pt(2, 1));

    for expected in [pt(0, 0), pt(2, 1)] {
        assert!(l.contains(&expected));
    }

    assert!(l.contains(&pt(1, 0)) || l.contains(&pt(1, 1)));
}

#[test]
fn a_line_runs_from_its_start_to_its_end() {
    let l = graphics::line(pt(3, -2), pt(-4, 5));
    assert_eq!(l.first(), Some(&pt(3, -2)));
    assert_eq!(l.last(), Some(&pt(-4, 5)));
    for pair in l.windows(2) {
        assert!((pair[0].x - pair[1].x).abs() <= 1 && (pair[0].y - pair[1].y).abs() <= 1);
        assert_ne!(pair[0], pair[1]);
    }
}

#[test]
fn a_rectangle_outlines_its_corners() {
    let r = rectangle(pt(0, 0), pt(3, 2));
    for corner in [pt(0, 0), pt(3, 0), pt(0, 2), pt(3, 2)] {
        assert!(r.contains(&corner));
    }
    assert!(!r.contains(&pt(1, 1)));
}

#[test]
fn a_radius_zero_thickening_keeps_each_point_once() {
    let points = vec![pt(1, 1), pt(1, 1), pt(2, 1), pt(1, 1)];
    assert_eq!(thicken(points, 0), vec![pt(1, 1), pt(2, 1)]);
}

#[test]
fn thickening_stamps_each_pixel_once() {
    let thick = thicken(vec![pt(0, 0), pt(1, 0)], 1);
    assert_eq!(
        thick,
        vec![pt(0, -1), pt(-1, 0), pt(0, 0), pt(1, 0), pt(0, 1), pt(1, -1), pt(2, 0), pt(1, 1)]
    );
}
