use spriterize::color::Color;
use spriterize::geom::{Point, Size};
use spriterize::image::Image;
use spriterize::palette::{is_gpl_path, Palette, PaletteError};

/// A one pixel wide image of the RGBA bytes, read as a palette.
fn from_bytes(bytes: Vec<u8>) -> Palette {
    let len = bytes.len() as i32 / 4;
    let mut img = Image::new(Size::new(1, len), Color::transparent());
    for (i, px) in bytes.chunks(4).enumerate() {
        img.set_pixel(Point::new(0, i as i32), Color::new(px[0], px[1], px[2], px[3]));
    }
    Palette::from_image(&img)
}

#[test]
fn create_from_img() {
    let bytes = vec![0, 0, 0, 255];
    let palette = from_bytes(bytes);
    assert!(palette.colors().contains(&Color::new(0, 0, 0, 255)));
    assert_eq!(palette.colors().len(), 1);

    let bytes = vec![0, 0, 0, 255, 0, 0, 0, 255];
    let palette = from_bytes(bytes);
    assert!(palette.colors().contains(&Color::new(0, 0, 0, 255)));
    assert_eq!(palette.colors().len(), 1);

    let bytes = vec![0, 0, 0, 255, 255, 0, 0, 255];
    let palette = from_bytes(bytes);
    assert!(palette.colors().contains(&Color::new(0, 0, 0, 255)));
    assert!(palette.colors().contains(&Color::new(255, 0, 0, 255)));
    assert_eq!(palette.colors().len(), 2);
}

#[test]
fn add_and_remove_from_default() {
    let mut palette = Palette::default();

    let dark = Color::new(10, 10, 10, 255);
    palette.add_color(dark);
    assert!(palette.colors().contains(&dark));

    palette.remove_color(dark);
    assert!(!palette.colors().contains(&dark));
}

#[test]
fn add_one() {
    let bytes = vec![0, 0, 0, 255];
    let mut palette = from_bytes(bytes);

    let color = Color::new(0, 1, 2, 3);
    palette.add_color(color);
    assert!(palette.colors().contains(&color));
    assert_eq!(palette.colors().len(), 2);
}

#[test]
fn gpl_round_trip() {
    let palette = Palette::default();
    let parsed = Palette::from_gpl(&palette.to_gpl("test")).unwrap();

    assert_eq!(parsed.colors(), palette.colors());
}

#[test]
fn gpl_skips_metadata_and_comments() {
    let text = "GIMP Palette\n\
                Name: Example\n\
                Columns: 4\n\
                #\n\
                # a comment\n\
                \n\
                  0   0   0\tBlack\n\
                255 255 255\tWhite\n";
    let palette = Palette::from_gpl(text).unwrap();

    assert_eq!(palette.colors().len(), 2);
    assert!(palette.colors().contains(&Color::new(0, 0, 0, 255)));
    assert!(palette.colors().contains(&Color::new(255, 255, 255, 255)));
}

#[test]
fn gpl_colors_are_opaque_and_deduplicated() {
    let text = "GIMP Palette\n1 2 3\n1 2 3\n";
    let palette = Palette::from_gpl(text).unwrap();

    assert_eq!(palette.colors(), &[Color::new(1, 2, 3, 255)]);
}

#[test]
fn gpl_rejects_files_without_a_header() {
    assert!(Palette::from_gpl("0 0 0\n").is_err());
}

#[test]
fn gpl_rejects_files_without_colors() {
    assert!(Palette::from_gpl("GIMP Palette\nName: Empty\n#\n").is_err());
}

#[test]
fn remove_one() {
    let bytes = vec![0, 0, 0, 255, 1, 1, 1, 255];
    let mut palette = from_bytes(bytes);

    let black = Color::new(0, 0, 0, 255);
    palette.remove_color(black);
    assert!(!palette.colors().contains(&black));
    assert_eq!(palette.colors().len(), 1);
}

#[test]
fn a_palette_is_written_in_the_gimp_format() {
    let palette = Palette::from_gpl("GIMP Palette\n1 20 255\n").unwrap();
    assert_eq!(
        palette.to_gpl("mine"),
        "GIMP Palette\nName: mine\nColumns: 8\n#\n  1  20 255\t#0114FF\n"
    );
}

#[test]
fn errors_say_what_is_wrong() {
    assert_eq!(Palette::from_gpl("").unwrap_err(), PaletteError::MissingHeader);
    assert_eq!(Palette::from_gpl("GIMP Palette\n256 0 0\n").unwrap_err(), PaletteError::NoColors);
    assert_eq!(Palette::from_gpl("GIMP Palette\n1 2\n").unwrap_err(), PaletteError::NoColors);
}

#[test]
fn crlf_lines_and_extra_fields_are_read() {
    let palette = Palette::from_gpl("GIMP Palette\r\n+4 5 6 seven\r\n").unwrap();
    assert_eq!(palette.colors(), &[Color::new(4, 5, 6, 255)]);
}

#[test]
fn at_most_two_hundred_colors_are_read() {
    let mut text = String::from("GIMP Palette\n");
    for r in 0..=255 {
        text.push_str(&format!("{r} 0 0\n"));
    }
    assert_eq!(Palette::from_gpl(&text).unwrap().colors().len(), 200);
}

#[test]
fn gpl_paths_are_recognised_in_any_case() {
    assert!(is_gpl_path("colors.gpl"));
    assert!(is_gpl_path("dir/colors.GPL"));
    assert!(!is_gpl_path("colors.png"));
    assert!(!is_gpl_path("gpl"));
}

#[test]
fn the_default_palette_has_fourteen_colors() {
    let palette = Palette::default();
    assert_eq!(palette.colors().len(), 14);
    assert_eq!(palette.colors()[0], Color::new(0, 0, 0, 255));
    assert_eq!(palette.colors()[1], Color::new(255, 255, 255, 255));
}

#[test]
fn sorting_by_keys_keeps_ties_in_order() {
    let mut palette = Palette::from_gpl("GIMP Palette\n1 0 0\n2 0 0\n3 0 0\n4 0 0\n").unwrap();
    palette.sort_by_keys(&vec![5, 1, 5, -2]);
    assert_eq!(
        palette.colors(),
        &[
            Color::new(4, 0, 0, 255),
            Color::new(2, 0, 0, 255),
            Color::new(1, 0, 0, 255),
            Color::new(3, 0, 0, 255),
        ]
    );
}
