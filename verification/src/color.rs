//! Parsing of `#rrggbb` pen color strings into RGBA colors.

use vstd::prelude::*;
use vstd::string::StrSliceExecFns;

use crate::bitmap::Rgba;

verus! {

/// Whether `c` is an ASCII hexadecimal digit.
pub open spec fn is_hex_digit(c: char) -> bool {
    ||| 48 <= c as int <= 57
    ||| 97 <= c as int <= 102
    ||| 65 <= c as int <= 70
}

/// Numeric value of the hexadecimal digit `c`.
pub open spec fn hex_digit_value(c: char) -> int {
    if 48 <= c as int <= 57 {
        c as int - 48
    } else if 97 <= c as int <= 102 {
        c as int - 87
    } else {
        c as int - 55
    }
}

/// Whether `s` is a well-formed pen color: `#` followed by exactly six
/// hexadecimal digits.
pub open spec fn valid_color_string(s: Seq<char>) -> bool {
    &&& s.len() == 7
    &&& s[0] == '#'
    &&& forall|i: int| 1 <= i < 7 ==> is_hex_digit(#[trigger] s[i])
}

/// The byte a pair of hexadecimal digits denotes.
pub open spec fn hex_byte(hi: char, lo: char) -> u8 {
    (hex_digit_value(hi) * 16 + hex_digit_value(lo)) as u8
}

/// The opaque color a well-formed `#rrggbb` string denotes.
pub open spec fn color_of_string(s: Seq<char>) -> Rgba {
    Rgba {
        red: hex_byte(s[1], s[2]),
        green: hex_byte(s[3], s[4]),
        blue: hex_byte(s[5], s[6]),
        alpha: 255,
    }
}

/// Value of one hexadecimal digit, or `None` for any other character.
fn hex_digit(c: char) -> (r: Option<u8>)
    ensures
        r is Some <==> is_hex_digit(c),
        r is Some ==> r->0 == hex_digit_value(c),
{
    let v = c as u32;
    if 48 <= v && v <= 57 {
        Some((v - 48) as u8)
    } else if 97 <= v && v <= 102 {
        Some((v - 87) as u8)
    } else if 65 <= v && v <= 70 {
        Some((v - 55) as u8)
    } else {
        None
    }
}

/// Parse a `#rrggbb` pen color string. Returns the opaque color it denotes,
/// or `None` exactly when the string is not of that shape.
pub fn parse_color(s: &str) -> (r: Option<Rgba>)
    ensures
        r is Some <==> valid_color_string(s@),
        valid_color_string(s@) ==> r == Some(color_of_string(s@)),
{
    if s.unicode_len() != 7 {
        return None;
    }
    if s.get_char(0) != '#' {
        return None;
    }
    let d1 = hex_digit(s.get_char(1));
    let d2 = hex_digit(s.get_char(2));
    let d3 = hex_digit(s.get_char(3));
    let d4 = hex_digit(s.get_char(4));
    let d5 = hex_digit(s.get_char(5));
    let d6 = hex_digit(s.get_char(6));
    match (d1, d2, d3, d4, d5, d6) {
        (Some(h1), Some(h2), Some(h3), Some(h4), Some(h5), Some(h6)) => Some(
            Rgba {
                red: h1 * 16 + h2,
                green: h3 * 16 + h4,
                blue: h5 * 16 + h6,
                alpha: 255,
            },
        ),
        _ => None,
    }
}

} // verus!
