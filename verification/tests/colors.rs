use spriterize::color::Color;
use spriterize::rgba::{alpha, invert_rgb, pack, parse_hex, unpack};

#[test]
fn parses_hex_with_and_without_alpha() {
    assert_eq!(parse_hex("#3A7FD5"), Some([0x3A, 0x7F, 0xD5, 255]));
    assert_eq!(parse_hex("3A7FD5"), Some([0x3A, 0x7F, 0xD5, 255]));
    assert_eq!(parse_hex("#3A7FD580"), Some([0x3A, 0x7F, 0xD5, 0x80]));
    assert_eq!(parse_hex(" #3a7fd5 "), Some([0x3A, 0x7F, 0xD5, 255]));
}

#[test]
fn rejects_malformed_hex() {
    assert_eq!(parse_hex(""), None);
    assert_eq!(parse_hex("#ABC"), None);
    assert_eq!(parse_hex("#GGGGGG"), None);
    assert_eq!(parse_hex("#3A7FD5FF00"), None);
}

#[test]
fn every_leading_hash_is_dropped() {
    assert_eq!(parse_hex("##00ff00"), Some([0, 255, 0, 255]));
}

#[test]
fn packing_and_unpacking_round_trip() {
    let c = [12, 200, 7, 255];
    let p = pack(c);
    assert_eq!(p, 0x0CC8_07FF);
    assert_eq!(unpack(p), c);
    assert_eq!(unpack(-1), [255, 255, 255, 255]);
}

#[test]
fn alpha_replaces_only_the_opacity() {
    assert_eq!(alpha([1, 2, 3, 4], 99), [1, 2, 3, 99]);
}

#[test]
fn inverting_flips_colour_channels_of_whole_pixels() {
    let mut bytes = vec![0, 10, 255, 7, 1, 2, 3, 4, 9, 9];
    invert_rgb(&mut bytes);
    assert_eq!(bytes, vec![255, 245, 0, 7, 254, 253, 252, 4, 9, 9]);
}

#[test]
fn colors_compare_by_their_channels() {
    assert_eq!(Color::new(1, 2, 3, 4), Color { r: 1, g: 2, b: 3, a: 4 });
    assert_eq!(Color::transparent(), Color::new(0, 0, 0, 0));
    assert_eq!(Color::black(), Color::new(0, 0, 0, 255));
}

#[test]
fn a_sign_is_no_hex_digit() {
    assert_eq!(parse_hex("+ABCDE"), None);
    assert_eq!(parse_hex("#+ABCDE"), None);
    assert_eq!(parse_hex("-ABCDE"), None);
    assert_eq!(parse_hex("#+ABCDEF0"), None);
}
