use spriterize::color::Color;
use spriterize::export::{
    content_bounds, crop, fit_to_power_of_two, next_power_of_two, pad, prepare, scale,
    shared_bounds, ExportOptions, Scale,
};
use spriterize::geom::{Point, Rect, Size};
use spriterize::image::Image;

fn black() -> Color {
    Color::black()
}

fn clear() -> Color {
    Color::transparent()
}

fn dotted(side: i32, at: Point, color: Color) -> Image {
    let mut img = Image::new(Size::new(side, side), clear());
    img.set_pixel(at, color);
    img
}

fn options() -> ExportOptions {
    ExportOptions::default()
}

#[test]
fn cropping_trims_to_what_is_drawn() {
    let img = dotted(16, Point::new(5, 7), black());
    let options = ExportOptions { crop: true, ..options() };
    let out = prepare(&img, &options, None);

    assert_eq!((out.width(), out.height()), (1, 1));
    assert_eq!(out.pixel(Point::new(0, 0)), black());
}

#[test]
fn cropping_an_empty_image_leaves_it_alone() {
    let img = Image::new(Size::new(8, 8), clear());
    let options = ExportOptions { crop: true, ..options() };
    let out = prepare(&img, &options, None);

    assert_eq!((out.width(), out.height()), (8, 8));
}

#[test]
fn padding_surrounds_the_image_on_every_side() {
    let img = dotted(4, Point::new(0, 0), black());
    let options = ExportOptions { padding: 3, ..options() };
    let out = prepare(&img, &options, None);

    assert_eq!((out.width(), out.height()), (10, 10));
    assert_eq!(out.pixel(Point::new(3, 3)), black());
}

#[test]
fn the_steps_run_in_order() {
    let img = dotted(16, Point::new(9, 2), black());
    let options = ExportOptions {
        crop: true,
        padding: 1,
        scale: Scale::new(2, 1),
        power_of_two: true,
    };
    let out = prepare(&img, &options, None);

    assert_eq!((out.width(), out.height()), (8, 8));
    assert_eq!(out.pixel(Point::new(2, 2)), black());
    assert_eq!(out.pixel(Point::new(3, 3)), black());
}

#[test]
fn scaling_up_repeats_whole_pixels() {
    let img = dotted(2, Point::new(0, 0), black());
    let out = scale(&img, Scale::new(3, 1));

    assert_eq!((out.width(), out.height()), (6, 6));

    for x in 0..3 {
        for y in 0..3 {
            assert_eq!(out.pixel(Point::new(x, y)), black(), "at {x},{y}");
        }
    }
    assert_eq!(out.pixel(Point::new(3, 0)), clear());
}

#[test]
fn scaling_down_a_doubled_image_gives_the_original_back() {
    let red = Color::new(255, 0, 0, 255);
    let img = dotted(4, Point::new(1, 2), red);
    let doubled = scale(&img, Scale::new(2, 1));
    let back = scale(&doubled, Scale::new(1, 2));

    assert_eq!((back.width(), back.height()), (4, 4));

    for x in 0..4 {
        for y in 0..4 {
            let p = Point::new(x, y);
            assert_eq!(back.pixel(p), img.pixel(p), "at {x},{y}");
        }
    }
}

#[test]
fn scaling_down_an_odd_size_never_splits_a_pixel() {
    let img = dotted(5, Point::new(0, 0), black());
    let out = scale(&img, Scale::new(1, 2));

    assert_eq!((out.width(), out.height()), (3, 3));
}

#[test]
fn scaling_down_averages_by_alpha() {
    let mut img = Image::new(Size::new(2, 1), clear());
    img.set_pixel(Point::new(0, 0), Color::new(200, 100, 50, 255));
    let out = scale(&img, Scale::new(1, 2));
    assert_eq!((out.width(), out.height()), (1, 1));
    let c = out.pixel(Point::new(0, 0));
    assert_eq!((c.r, c.g, c.b), (200, 100, 50));
    assert!(c.a > 0 && c.a < 255);
}

#[test]
fn sizing_to_a_power_of_two_rounds_each_side_up() {
    for (from, expected) in [(1, 1), (2, 2), (3, 4), (5, 8), (16, 16), (17, 32)] {
        assert_eq!(next_power_of_two(from), expected, "from {from}");
    }

    let img = Image::new(Size::new(5, 17), clear());
    let out = fit_to_power_of_two(&img);

    assert_eq!((out.width(), out.height()), (8, 32));
}

#[test]
fn a_shared_crop_keeps_images_the_same_size() {
    let images = vec![
        dotted(16, Point::new(2, 2), black()),
        dotted(16, Point::new(9, 6), black()),
    ];
    let bounds = shared_bounds(&images).expect("both have content");
    let options = ExportOptions { crop: true, ..options() };

    let sizes: Vec<(i32, i32)> = images
        .iter()
        .map(|image| {
            let out = prepare(image, &options, Some(bounds));
            (out.width(), out.height())
        })
        .collect();

    assert_eq!(sizes, vec![(8, 5), (8, 5)]);
}

#[test]
fn bounds_of_what_is_drawn() {
    let img = dotted(10, Point::new(3, 4), black());
    assert_eq!(content_bounds(&img), Some(Rect::new(3, 4, 1, 1)));
    assert_eq!(content_bounds(&Image::new(Size::new(3, 3), clear())), None);
}

#[test]
fn cropping_and_padding_directly() {
    let img = dotted(4, Point::new(1, 1), black());
    let out = crop(&img, Rect::new(1, 1, 2, 2));
    assert_eq!((out.width(), out.height()), (2, 2));
    assert_eq!(out.pixel(Point::new(0, 0)), black());

    let out = pad(&img, 1, 0, 2, 3);
    assert_eq!((out.width(), out.height()), (7, 7));
    assert_eq!(out.pixel(Point::new(2, 1)), black());
}

#[test]
fn identity_options_change_nothing() {
    assert!(options().is_identity());
    assert!(Scale::new(0, 0).is_identity());
    let img = dotted(3, Point::new(2, 2), black());
    let out = prepare(&img, &options(), None);
    assert_eq!((out.width(), out.height()), (3, 3));
    assert_eq!(out.pixel(Point::new(2, 2)), black());
}

#[test]
fn a_power_of_two_is_never_below_one() {
    assert_eq!(next_power_of_two(0), 1);
    assert_eq!(next_power_of_two(-5), 1);
    assert_eq!(next_power_of_two(i32::MIN), 1);
    assert_eq!(next_power_of_two(0x3FFF_FFFF), 0x4000_0000);
    assert_eq!(next_power_of_two(0x4000_0000), 0x4000_0000);
}
