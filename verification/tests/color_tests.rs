//! Pen color string parsing.

use apng_paint::color::parse_color;
use apng_paint::Rgba;

#[test]
fn parses_lowercase_hex() {
    assert_eq!(
        parse_color("#1a2b3c"),
        Some(Rgba { red: 0x1a, green: 0x2b, blue: 0x3c, alpha: 255 })
    );
}

#[test]
fn parses_uppercase_and_mixed_hex() {
    assert_eq!(
        parse_color("#FF00aB"),
        Some(Rgba { red: 255, green: 0, blue: 0xab, alpha: 255 })
    );
}

#[test]
fn parses_black_and_white() {
    assert_eq!(
        parse_color("#000000"),
        Some(Rgba { red: 0, green: 0, blue: 0, alpha: 255 })
    );
    assert_eq!(
        parse_color("#ffffff"),
        Some(Rgba { red: 255, green: 255, blue: 255, alpha: 255 })
    );
}

#[test]
fn rejects_malformed_strings() {
    assert_eq!(parse_color(""), None);
    assert_eq!(parse_color("#"), None);
    assert_eq!(parse_color("123456"), None);
    assert_eq!(parse_color("#12345"), None);
    assert_eq!(parse_color("#1234567"), None);
    assert_eq!(parse_color("#12g456"), None);
    assert_eq!(parse_color("#12345 "), None);
    assert_eq!(parse_color("x123456"), None);
}
