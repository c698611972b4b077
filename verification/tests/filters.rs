use spriterize::color::Color;
use spriterize::filter::{mix, smoothed_pixel, Filter, Params, Silhouette, Smooth, Value};
use spriterize::geom::{Point, Size};
use spriterize::image::Image;
use spriterize::transform::Transform;

fn black() -> Color {
    Color::black()
}

fn clear() -> Color {
    Color::transparent()
}

fn smooth_with(strength: i32, passes: i32) -> Filter {
    let mut filter = Filter::smooth();
    filter.params.set("strength", Value::Int(strength));
    filter.params.set("passes", Value::Int(passes));
    filter
}

fn silhouette_with(color: Color, threshold: i32) -> Filter {
    let mut filter = Filter::silhouette();
    filter.params.set("color", Value::Color(color));
    filter.params.set("threshold", Value::Int(threshold));
    filter
}

fn smooth(img: &mut Image, filter: &Filter) {
    Smooth.apply(img, &filter.params, &[]);
}

fn dot(side: i32, at: Point, color: Color) -> Image {
    let mut img = Image::new(Size::new(side, side), clear());
    img.set_pixel(at, color);
    img
}

#[test]
fn smoothing_softens_a_hard_edge() {
    let white = Color::new(255, 255, 255, 255);
    let mut img = Image::new(Size::new(6, 3), white);

    for j in 0..3 {
        for i in 0..3 {
            img.set_pixel(Point::new(i, j), black());
        }
    }

    smooth(&mut img, &Transform::Smooth.as_filter().unwrap());

    let left = img.pixel(Point::new(2, 1));
    let right = img.pixel(Point::new(3, 1));

    assert!(left.r > 0 && left.r < 255, "left of the seam: {left:?}");
    assert!(right.r > 0 && right.r < 255, "right of the seam: {right:?}");
    assert!(left.r < right.r, "the gradient should run dark to light");

    assert_eq!(img.pixel(Point::new(0, 1)), black());
    assert_eq!(img.pixel(Point::new(5, 1)), white);
}

#[test]
fn smoothing_does_not_darken_edges_against_transparency() {
    let red = Color::new(255, 0, 0, 255);
    let mut img = Image::new(Size::new(5, 5), clear());

    for j in 1..4 {
        for i in 1..4 {
            img.set_pixel(Point::new(i, j), red);
        }
    }

    smooth(&mut img, &Filter::smooth());

    for j in 1..4 {
        for i in 1..4 {
            let color = img.pixel(Point::new(i, j));
            assert_eq!((color.r, color.g, color.b), (255, 0, 0), "at {i},{j}");
        }
    }

    assert!(img.pixel(Point::new(1, 1)).a < 255);
}

#[test]
fn smoothing_leaves_a_flat_image_alone() {
    let blue = Color::new(0, 0, 255, 255);
    let mut img = Image::new(Size::new(4, 4), blue);

    smooth(&mut img, &Filter::smooth());

    for j in 0..4 {
        for i in 0..4 {
            assert_eq!(img.pixel(Point::new(i, j)), blue, "at {i},{j}");
        }
    }
}

#[test]
fn a_filter_at_zero_strength_changes_nothing() {
    let mut img = dot(8, Point::new(4, 4), black());
    smooth(&mut img, &smooth_with(0, 4));

    assert_eq!(img.pixel(Point::new(4, 4)), black());
    assert_eq!(img.pixel(Point::new(3, 4)), clear());
}

#[test]
fn smoothing_strength_controls_how_far_it_goes() {
    let at = Point::new(4, 4);
    let alpha_at = |strength: i32| {
        let mut img = dot(8, at, black());
        smooth(&mut img, &smooth_with(strength, 1));
        img.pixel(at).a
    };

    assert!(alpha_at(64) > alpha_at(128));
    assert!(alpha_at(128) > alpha_at(255));
}

#[test]
fn more_passes_spread_a_blur_further() {
    let at = Point::new(6, 6);
    let far = Point::new(8, 6);
    let alpha_after = |passes: i32| {
        let mut img = dot(12, at, black());
        smooth(&mut img, &smooth_with(255, passes));
        img.pixel(far).a
    };

    assert_eq!(alpha_after(1), 0);
    assert!(alpha_after(3) > 0);
}

#[test]
fn silhouette_settings_choose_the_color_and_the_cutoff() {
    let faint = Color::new(255, 255, 255, 100);
    let blue = Color::new(0, 0, 255, 255);

    let mut img = dot(6, Point::new(3, 3), faint);
    Silhouette.apply(&mut img, &silhouette_with(blue, 128).params, &[]);
    assert_eq!(img.pixel(Point::new(3, 3)), faint);

    let mut img = dot(6, Point::new(3, 3), faint);
    Silhouette.apply(&mut img, &silhouette_with(blue, 50).params, &[]);
    assert_eq!(img.pixel(Point::new(3, 3)), blue);
}

#[test]
fn a_setting_that_was_never_saved_falls_back_to_its_default() {
    let mut img = dot(6, Point::new(3, 3), black());
    smooth(&mut img, &Filter { id: "smooth".to_owned(), params: Params::new() });
    assert!(img.pixel(Point::new(3, 3)).a < 255);
}

#[test]
fn settings_are_read_back_by_id() {
    let mut params = Params::new();
    assert_eq!(params.get("x"), None);
    params.set("x", Value::Int(3));
    params.set("y", Value::Bool(true));
    params.set("x", Value::Int(4));
    assert_eq!(params.get("x"), Some(Value::Int(4)));
    assert_eq!(params.integer("x", 0), 4);
    assert_eq!(params.integer("y", 7), 7);
    assert!(params.bool("y", false));
    assert_eq!(params.color("x", black()), black());
}

#[test]
fn default_filters_carry_their_settings() {
    let f = Filter::smooth();
    assert_eq!(f.id, "smooth");
    assert_eq!(f.params.integer("strength", 0), 255);
    assert_eq!(f.params.integer("passes", 0), 1);
    let f = Filter::silhouette();
    assert_eq!(f.params.color("color", clear()), black());
    assert_eq!(f.params.integer("threshold", 0), 128);
    assert!(Transform::Identity.as_filter().is_none());
    assert_eq!(Transform::ApplyPalette.as_filter().unwrap().id, "apply_palette");
}

#[test]
fn mixing_weights_by_alpha() {
    let red = Color::new(255, 0, 0, 255);
    assert_eq!(mix(red, clear(), 0), red);
    assert_eq!(mix(red, clear(), 255), clear());
    let half = mix(red, clear(), 128);
    assert_eq!((half.r, half.g, half.b), (255, 0, 0));
    assert_eq!(half.a, 127);
}

#[test]
fn a_lone_pixel_smooths_to_a_weighted_average() {
    let img = dot(3, Point::new(1, 1), black());
    let c = smoothed_pixel(&img, Point::new(1, 1));
    assert_eq!(c, Color::new(0, 0, 0, 64));
    let corner = smoothed_pixel(&img, Point::new(0, 0));
    assert_eq!(corner, Color::new(0, 0, 0, 28));
}
