use hyprparser::format_color;
use hyprparser::parse_color;

#[test]
fn color_round_trip_canonical() {
    let (r, g, b, a) = parse_color("rgba(FF00FF80)").unwrap();
    assert_eq!(format_color(r, g, b, a), "rgba(FF00FF80)");
}

#[test]
fn parse_rgba_channels() {
    assert_eq!(parse_color("rgba(FF00FF80)"), Some((255, 0, 255, 128)));
    assert_eq!(parse_color("rgba(00000000)"), Some((0, 0, 0, 0)));
    assert_eq!(parse_color("rgba(ffffffff)"), Some((255, 255, 255, 255)));
}

#[test]
fn parse_rgb_full_alpha() {
    assert_eq!(parse_color("rgb(123456)"), Some((0x12, 0x34, 0x56, 255)));
    assert_eq!(parse_color("rgb(abcdef)"), Some((0xAB, 0xCD, 0xEF, 255)));
}

#[test]
fn parse_rejects_garbage() {
    assert_eq!(parse_color("not-a-color"), None);
    assert_eq!(parse_color(""), None);
    assert_eq!(parse_color("rgba(FF00FF8)"), None);
    assert_eq!(parse_color("rgba(FF00FF800)"), None);
    assert_eq!(parse_color("rgba(GG00FF80)"), None);
    assert_eq!(parse_color("rgbx(FF00FF80)"), None);
    assert_eq!(parse_color("rgb(12345)"), None);
    assert_eq!(parse_color("rgba(FF00FF80"), None);
}

#[test]
fn format_zero_pads_uppercase() {
    assert_eq!(format_color(0, 1, 10, 255), "rgba(00010AFF)");
    assert_eq!(format_color(0x12, 0x34, 0x56, 0x78), "rgba(12345678)");
}

#[test]
fn parse_after_format_identity() {
    let samples: [(u8, u8, u8, u8); 4] = [
        (0, 0, 0, 0),
        (255, 255, 255, 255),
        (1, 2, 3, 4),
        (0x7F, 0x80, 0xFE, 0x01),
    ];
    for (r, g, b, a) in samples {
        assert_eq!(parse_color(&format_color(r, g, b, a)), Some((r, g, b, a)));
    }
}
