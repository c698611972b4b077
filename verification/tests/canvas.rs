use spriterize::canvas::Canvas;
use spriterize::color::Color;
use spriterize::geom::{Point, Rect, Size};

fn pt(x: i32, y: i32) -> Point {
    Point::new(x, y)
}

fn red() -> Color {
    Color::new(255, 0, 0, 255)
}

fn blue() -> Color {
    Color::new(0, 0, 255, 255)
}

/// Sets back every reversal, last first, as undoing does.
fn undo(canvas: &mut Canvas, reversals: &[(Point, Color)]) {
    for (p, c) in reversals.iter().rev() {
        canvas.set_pixel(*p, *c);
    }
}

fn pixels(canvas: &Canvas) -> Vec<Color> {
    let mut out = Vec::new();
    for y in 0..canvas.height() {
        for x in 0..canvas.width() {
            out.push(canvas.pixel(pt(x, y)));
        }
    }
    out
}

#[test]
fn a_new_canvas_is_transparent() {
    let canvas = Canvas::new(Size::new(3, 2));
    assert_eq!(canvas.width(), 3);
    assert_eq!(canvas.height(), 2);
    assert_eq!(canvas.rect(), Rect::new(0, 0, 3, 2));
    assert!(pixels(&canvas).iter().all(|c| *c == Color::transparent()));
}

#[test]
fn bounds_are_checked_on_both_sides() {
    let canvas = Canvas::new(Size::new(3, 2));
    assert!(canvas.is_in_bounds(pt(0, 0)));
    assert!(canvas.is_in_bounds(pt(2, 1)));
    assert!(!canvas.is_in_bounds(pt(3, 1)));
    assert!(!canvas.is_in_bounds(pt(2, 2)));
    assert!(!canvas.is_in_bounds(pt(-1, 0)));
}

#[test]
fn setting_a_pixel_reports_the_color_it_had() {
    let mut canvas = Canvas::new(Size::new(3, 3));
    assert_eq!(canvas.set_pixel(pt(1, 1), red()), Some((pt(1, 1), Color::transparent())));
    assert_eq!(canvas.pixel(pt(1, 1)), red());
    // The same color again changes nothing, so there is nothing to undo.
    assert_eq!(canvas.set_pixel(pt(1, 1), red()), None);
    // Outside the canvas nothing happens.
    assert_eq!(canvas.set_pixel(pt(5, 1), red()), None);
}

#[test]
fn a_line_paints_its_points_and_reports_each_once() {
    let mut canvas = Canvas::new(Size::new(4, 4));
    let reversals = canvas.line(pt(0, 0), pt(3, 0), red());
    assert_eq!(reversals.len(), 4);
    for x in 0..4 {
        assert_eq!(canvas.pixel(pt(x, 0)), red());
        assert_eq!(canvas.pixel(pt(x, 1)), Color::transparent());
    }
}

#[test]
fn undoing_a_rectangle_gives_back_the_canvas() {
    let mut canvas = Canvas::new(Size::new(5, 5));
    canvas.set_area(Rect::new(0, 0, 2, 5), blue());
    let before = pixels(&canvas);
    let reversals = canvas.rectangle(pt(1, 1), pt(3, 3), red());
    assert_eq!(canvas.pixel(pt(1, 1)), red());
    assert_eq!(canvas.pixel(pt(3, 3)), red());
    assert_eq!(canvas.pixel(pt(2, 2)), Color::transparent());
    undo(&mut canvas, &reversals);
    assert_eq!(pixels(&canvas), before);
}

#[test]
fn undoing_a_thick_stroke_gives_back_the_canvas() {
    let mut canvas = Canvas::new(Size::new(9, 9));
    canvas.set_area(Rect::new(0, 0, 9, 4), blue());
    let before = pixels(&canvas);
    let reversals = canvas.brush_line(pt(1, 1), pt(7, 6), red(), 2);
    assert_eq!(canvas.pixel(pt(1, 1)), red());
    assert_eq!(canvas.pixel(pt(7, 6)), red());
    // Each pixel is reported at most once.
    let mut seen: Vec<Point> = reversals.iter().map(|(p, _)| *p).collect();
    seen.sort();
    seen.dedup();
    assert_eq!(seen.len(), reversals.len());
    undo(&mut canvas, &reversals);
    assert_eq!(pixels(&canvas), before);
}

#[test]
fn a_brush_stamp_is_a_plus_at_radius_one() {
    let mut canvas = Canvas::new(Size::new(3, 3));
    let reversals = canvas.brush(pt(1, 1), red(), 1);
    assert_eq!(reversals.len(), 5);
    assert_eq!(canvas.pixel(pt(0, 0)), Color::transparent());
    assert_eq!(canvas.pixel(pt(1, 0)), red());
    assert_eq!(canvas.pixel(pt(0, 1)), red());
    assert_eq!(canvas.pixel(pt(1, 1)), red());
}

#[test]
fn a_stamp_at_the_edge_is_clipped() {
    let mut canvas = Canvas::new(Size::new(3, 3));
    let reversals = canvas.brush(pt(0, 0), red(), 1);
    assert_eq!(reversals.len(), 3);
}

#[test]
fn set_area_visits_columns_then_rows() {
    let mut canvas = Canvas::new(Size::new(4, 4));
    let reversals = canvas.set_area(Rect::new(1, 1, 2, 2), red());
    let points: Vec<Point> = reversals.iter().map(|(p, _)| *p).collect();
    assert_eq!(points, vec![pt(1, 1), pt(1, 2), pt(2, 1), pt(2, 2)]);
}

#[test]
fn resizing_keeps_what_stays_in_bounds() {
    let mut canvas = Canvas::new(Size::new(2, 2));
    canvas.set_pixel(pt(1, 1), red());
    canvas.set_pixel(pt(0, 0), blue());
    let old = canvas.resize(Size::new(3, 1));
    assert_eq!(old.width(), 2);
    assert_eq!(canvas.size(), Size::new(3, 1));
    assert_eq!(canvas.pixel(pt(0, 0)), blue());
    assert_eq!(canvas.pixel(pt(1, 0)), Color::transparent());
    assert_eq!(canvas.pixel(pt(2, 0)), Color::transparent());
}

#[test]
fn an_area_beyond_the_edge_comes_out_transparent() {
    let mut canvas = Canvas::new(Size::new(2, 2));
    canvas.set_pixel(pt(1, 1), red());
    let img = canvas.img_from_area(Rect::new(1, 1, 2, 2));
    assert_eq!(img.width(), 2);
    assert_eq!(img.pixel(pt(0, 0)), red());
    assert_eq!(img.pixel(pt(1, 0)), Color::transparent());
    assert_eq!(img.pixel(pt(1, 1)), Color::transparent());
}

#[test]
fn clearing_hands_back_the_drawing() {
    let mut canvas = Canvas::new(Size::new(2, 2));
    canvas.set_pixel(pt(0, 1), red());
    let old = canvas.clear();
    assert_eq!(old.pixel(pt(0, 1)), red());
    assert_eq!(canvas.pixel(pt(0, 1)), Color::transparent());
    let taken = canvas.take_inner();
    assert_eq!(taken.width(), 2);
    assert_eq!(canvas.width(), 0);
}

#[test]
fn the_bytes_are_rgba_row_by_row() {
    let mut canvas = Canvas::new(Size::new(2, 1));
    canvas.set_pixel(pt(1, 0), Color::new(1, 2, 3, 4));
    assert_eq!(canvas.bytes(), vec![0, 0, 0, 0, 1, 2, 3, 4]);
}
