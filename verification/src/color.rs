//! Status colors.
use vstd::prelude::*;

use crate::style::Color;
use crate::text;
use crate::text::same;

verus! {

/// The value of a hex digit.
pub open spec fn hex_digit(c: char) -> Option<u8> {
    if '0' <= c && c <= '9' {
        Some((c as u8 - 48) as u8)
    } else if 'a' <= c && c <= 'f' {
        Some((c as u8 - 87) as u8)
    } else if 'A' <= c && c <= 'F' {
        Some((c as u8 - 55) as u8)
    } else {
        None
    }
}

/// The value of two hex digits.
pub open spec fn hex_byte(hi: char, lo: char) -> Option<u8> {
    match (hex_digit(hi), hex_digit(lo)) {
        (Some(h), Some(l)) => Some((h * 16 + l) as u8),
        _ => None,
    }
}

/// The color of exactly six hex digits.
pub open spec fn hex_color(hex: Seq<char>) -> Option<Color> {
    if hex.len() != 6 {
        None
    } else {
        match (hex_byte(hex[0], hex[1]), hex_byte(hex[2], hex[3]), hex_byte(hex[4], hex[5])) {
            (Some(r), Some(g), Some(b)) => Some(Color::Rgb(r, g, b)),
            _ => None,
        }
    }
}

/// The color of a fixed name.
pub open spec fn name_color(name: Seq<char>) -> Option<Color> {
    if name == "black"@ {
        Some(Color::Black)
    } else if name == "red"@ {
        Some(Color::Red)
    } else if name == "green"@ {
        Some(Color::Green)
    } else if name == "yellow"@ {
        Some(Color::Yellow)
    } else if name == "blue"@ {
        Some(Color::Blue)
    } else if name == "magenta"@ {
        Some(Color::Magenta)
    } else if name == "cyan"@ {
        Some(Color::Cyan)
    } else if name == "white"@ {
        Some(Color::White)
    } else if name == "gray"@ {
        Some(Color::Gray)
    } else if name == "dark_gray"@ {
        Some(Color::DarkGray)
    } else if name == "light_red"@ {
        Some(Color::LightRed)
    } else if name == "light_green"@ {
        Some(Color::LightGreen)
    } else if name == "light_yellow"@ {
        Some(Color::LightYellow)
    } else if name == "light_blue"@ {
        Some(Color::LightBlue)
    } else if name == "light_magenta"@ {
        Some(Color::LightMagenta)
    } else if name == "light_cyan"@ {
        Some(Color::LightCyan)
    } else {
        None
    }
}

/// The color a spec stands for: `#rrggbb` or a name; the terminal default
/// for anything else.
pub open spec fn color_of(name: Seq<char>) -> Color {
    let found = if name.len() > 0 && name[0] == '#' {
        hex_color(name.skip(1))
    } else {
        name_color(name)
    };
    match found {
        Some(color) => color,
        None => Color::Reset,
    }
}

fn digit_value(c: char) -> (r: Option<u8>)
    ensures
        r == hex_digit(c),
        r matches Some(d) ==> d < 16,
{
    if '0' <= c && c <= '9' {
        Some(c as u8 - 48)
    } else if 'a' <= c && c <= 'f' {
        Some(c as u8 - 87)
    } else if 'A' <= c && c <= 'F' {
        Some(c as u8 - 55)
    } else {
        None
    }
}

fn byte_value(hi: char, lo: char) -> (r: Option<u8>)
    ensures
        r == hex_byte(hi, lo),
{
    match (digit_value(hi), digit_value(lo)) {
        (Some(h), Some(l)) => Some(h * 16 + l),
        _ => None,
    }
}

/// Reads the `rrggbb` digits of a hex spec; None rejects anything but
/// exactly six hex digits.
fn rgb_from_hex(chars: &Vec<char>) -> (r: Option<Color>)
    requires
        chars@.len() > 0,
    ensures
        r == hex_color(chars@.skip(1)),
{
    if chars.len() != 7 {
        return None;
    }
    match (
        byte_value(chars[1], chars[2]),
        byte_value(chars[3], chars[4]),
        byte_value(chars[5], chars[6]),
    ) {
        (Some(r), Some(g), Some(b)) => Some(Color::Rgb(r, g, b)),
        _ => None,
    }
}

fn named_color(name: &str) -> (r: Option<Color>)
    ensures
        r == name_color(name@),
{
    if same(name, "black") {
        Some(Color::Black)
    } else if same(name, "red") {
        Some(Color::Red)
    } else if same(name, "green") {
        Some(Color::Green)
    } else if same(name, "yellow") {
        Some(Color::Yellow)
    } else if same(name, "blue") {
        Some(Color::Blue)
    } else if same(name, "magenta") {
        Some(Color::Magenta)
    } else if same(name, "cyan") {
        Some(Color::Cyan)
    } else if same(name, "white") {
        Some(Color::White)
    } else if same(name, "gray") {
        Some(Color::Gray)
    } else if same(name, "dark_gray") {
        Some(Color::DarkGray)
    } else if same(name, "light_red") {
        Some(Color::LightRed)
    } else if same(name, "light_green") {
        Some(Color::LightGreen)
    } else if same(name, "light_yellow") {
        Some(Color::LightYellow)
    } else if same(name, "light_blue") {
        Some(Color::LightBlue)
    } else if same(name, "light_magenta") {
        Some(Color::LightMagenta)
    } else if same(name, "light_cyan") {
        Some(Color::LightCyan)
    } else {
        None
    }
}

/// Maps a status color spec to a terminal color. Unknown specs fall back to
/// the terminal default instead of erroring, so a bad spec stored in the
/// database degrades display quality but never blocks startup.
pub fn parse_color(name: &str) -> (r: Color)
    ensures
        r == color_of(name@),
{
    let chars = text::chars_of(name);
    let found = if chars.len() > 0 && chars[0] == '#' {
        rgb_from_hex(&chars)
    } else {
        named_color(name)
    };
    match found {
        Some(color) => color,
        None => Color::Reset,
    }
}

} // verus!
