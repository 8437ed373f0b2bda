//! Colors and the built-in color themes.

use crate::text::push_char;
use vstd::prelude::*;
use vstd::string::*;

verus! {

/// An RGB color.
#[derive(Clone, Copy, Debug)]
pub struct Color {
    pub r: u8,
    pub g: u8,
    pub b: u8,
}

/// The value of a hexadecimal digit, in either case.
pub open spec fn hex_value(c: char) -> Option<u8> {
    if '0' <= c <= '9' {
        Some((c as u8 - '0' as u8) as u8)
    } else if 'a' <= c <= 'f' {
        Some((c as u8 - 'a' as u8 + 10) as u8)
    } else if 'A' <= c <= 'F' {
        Some((c as u8 - 'A' as u8 + 10) as u8)
    } else {
        None
    }
}

/// The lower-case hexadecimal digit for a value below sixteen.
pub open spec fn hex_digit(n: u8) -> char {
    if n < 10 {
        (n + '0' as u8) as char
    } else {
        (n - 10 + 'a' as u8) as char
    }
}

/// The byte written by two characters in base sixteen: two digits, or a plus
/// sign followed by one digit.
pub open spec fn hex_byte(hi: char, lo: char) -> Option<u8> {
    match hex_value(lo) {
        None => None,
        Some(l) => if hi == '+' {
            Some(l)
        } else {
            match hex_value(hi) {
                None => None,
                Some(h) => Some((h * 16 + l) as u8),
            }
        },
    }
}

/// The color that a `#RRGGBB` string denotes, if it denotes one.
pub open spec fn parse_hex(s: Seq<char>) -> Option<Color> {
    if s.len() == 7 && s[0] == '#' {
        match (hex_byte(s[1], s[2]), hex_byte(s[3], s[4]), hex_byte(s[5], s[6])) {
            (Some(r), Some(g), Some(b)) => Some(Color { r, g, b }),
            _ => None,
        }
    } else {
        None
    }
}

/// The `#rrggbb` string of a color, in lower-case digits.
pub open spec fn format_hex(c: Color) -> Seq<char> {
    seq![
        '#',
        hex_digit(c.r / 16),
        hex_digit(c.r % 16),
        hex_digit(c.g / 16),
        hex_digit(c.g % 16),
        hex_digit(c.b / 16),
        hex_digit(c.b % 16),
    ]
}

fn digit_value(c: char) -> (r: Option<u8>)
    ensures
        r == hex_value(c),
{
    if '0' <= c && c <= '9' {
        Some(c as u8 - '0' as u8)
    } else if 'a' <= c && c <= 'f' {
        Some(c as u8 - 'a' as u8 + 10)
    } else if 'A' <= c && c <= 'F' {
        Some(c as u8 - 'A' as u8 + 10)
    } else {
        None
    }
}

fn digit_char(n: u8) -> (r: char)
    requires
        n < 16,
    ensures
        r == hex_digit(n),
{
    if n < 10 {
        (n + '0' as u8) as char
    } else {
        (n - 10 + 'a' as u8) as char
    }
}

fn byte_value(hi: char, lo: char) -> (r: Option<u8>)
    ensures
        r == hex_byte(hi, lo),
{
    match digit_value(lo) {
        None => None,
        Some(l) => if hi == '+' {
            Some(l)
        } else {
            match digit_value(hi) {
                None => None,
                Some(h) => Some(h * 16 + l),
            }
        },
    }
}

impl Color {
    /// A color from its three channels.
    pub fn new(r: u8, g: u8, b: u8) -> (c: Self)
        ensures
            c == (Color { r, g, b }),
    {
        Self { r, g, b }
    }

    /// Writes the color as `#rrggbb`.
    pub fn to_hex(&self) -> (s: String)
        ensures
            s@ == format_hex(*self),
    {
        let mut s = String::new();
        push_char(&mut s, '#');
        push_char(&mut s, digit_char(self.r / 16));
        push_char(&mut s, digit_char(self.r % 16));
        push_char(&mut s, digit_char(self.g / 16));
        push_char(&mut s, digit_char(self.g % 16));
        push_char(&mut s, digit_char(self.b / 16));
        push_char(&mut s, digit_char(self.b % 16));
        assert(s@ =~= format_hex(*self));
        s
    }

    /// Reads a color written as `#RRGGBB`: a number sign and, for each channel,
    /// two hexadecimal digits or a plus sign and one digit. Anything else gives
    /// `None`.
    pub fn from_hex(s: &str) -> (c: Option<Color>)
        ensures
            c == parse_hex(s@),
    {
        if s.unicode_len() != 7 {
            return None;
        }
        if s.get_char(0) != '#' {
            return None;
        }
        let r = byte_value(s.get_char(1), s.get_char(2));
        let g = byte_value(s.get_char(3), s.get_char(4));
        let b = byte_value(s.get_char(5), s.get_char(6));
        match (r, g, b) {
            (Some(r), Some(g), Some(b)) => Some(Color { r, g, b }),
            _ => None,
        }
    }
}

/// Reading back what `to_hex` wrote gives the color again.
pub proof fn lemma_hex_round_trip(c: Color)
    ensures
        parse_hex(format_hex(c)) == Some(c),
{
    lemma_hex_digit_value((c.r / 16) as u8);
    lemma_hex_digit_value((c.r % 16) as u8);
    lemma_hex_digit_value((c.g / 16) as u8);
    lemma_hex_digit_value((c.g % 16) as u8);
    lemma_hex_digit_value((c.b / 16) as u8);
    lemma_hex_digit_value((c.b % 16) as u8);
}

proof fn lemma_hex_digit_value(n: u8)
    requires
        n < 16,
    ensures
        hex_value(hex_digit(n)) == Some(n),
        hex_digit(n) != '+',
{
}

/// The five colors that the interface draws with.
#[derive(Clone, Copy, Debug)]
pub struct ThemeColors {
    pub background_color: Color,
    pub foreground_color: Color,
    pub idle_color: Color,
    pub hovered_color: Color,
    pub clicked_color: Color,
}

/// A built-in palette, or one that the user spelled out.
#[derive(Clone, Copy, Debug)]
pub enum Theme {
    Default,
    CatppuccinLatte,
    CatppuccinMocha,
    Custom(ThemeColors),
}

/// The palette of the default theme: shades of grey on near-black.
pub open spec fn default_palette() -> ThemeColors {
    ThemeColors {
        background_color: Color { r: 0x18, g: 0x18, b: 0x18 },
        foreground_color: Color { r: 0xcc, g: 0xcc, b: 0xcc },
        idle_color: Color { r: 0x20, g: 0x20, b: 0x20 },
        hovered_color: Color { r: 0x30, g: 0x30, b: 0x30 },
        clicked_color: Color { r: 0x40, g: 0x40, b: 0x40 },
    }
}

/// The palette of Catppuccin Latte: base, text, rosewater, flamingo, pink.
pub open spec fn latte_palette() -> ThemeColors {
    ThemeColors {
        background_color: Color { r: 0xef, g: 0xf1, b: 0xf5 },
        foreground_color: Color { r: 0x4c, g: 0x4f, b: 0x69 },
        idle_color: Color { r: 0xdc, g: 0x8a, b: 0x78 },
        hovered_color: Color { r: 0xdd, g: 0x78, b: 0x78 },
        clicked_color: Color { r: 0xea, g: 0x76, b: 0xcb },
    }
}

/// The palette of Catppuccin Mocha: base, text and the three surfaces.
pub open spec fn mocha_palette() -> ThemeColors {
    ThemeColors {
        background_color: Color { r: 0x1e, g: 0x1e, b: 0x2e },
        foreground_color: Color { r: 0xcd, g: 0xd6, b: 0xf4 },
        idle_color: Color { r: 0x31, g: 0x32, b: 0x44 },
        hovered_color: Color { r: 0x45, g: 0x47, b: 0x5a },
        clicked_color: Color { r: 0x58, g: 0x5b, b: 0x70 },
    }
}

impl Theme {
    /// The palette that the theme stands for.
    pub open spec fn palette(&self) -> ThemeColors {
        match self {
            Theme::Default => default_palette(),
            Theme::CatppuccinLatte => latte_palette(),
            Theme::CatppuccinMocha => mocha_palette(),
            Theme::Custom(c) => *c,
        }
    }

    /// The five colors of the theme: those of a built-in palette, or the ones
    /// that a custom theme carries.
    pub fn get_all_colors(&self) -> (colors: ThemeColors)
        ensures
            colors == self.palette(),
    {
        match self {
            Theme::Default => ThemeColors {
                background_color: Color::new(0x18, 0x18, 0x18),
                foreground_color: Color::new(0xcc, 0xcc, 0xcc),
                idle_color: Color::new(0x20, 0x20, 0x20),
                hovered_color: Color::new(0x30, 0x30, 0x30),
                clicked_color: Color::new(0x40, 0x40, 0x40),
            },
            Theme::CatppuccinLatte => ThemeColors {
                background_color: Color::new(0xef, 0xf1, 0xf5),
                foreground_color: Color::new(0x4c, 0x4f, 0x69),
                idle_color: Color::new(0xdc, 0x8a, 0x78),
                hovered_color: Color::new(0xdd, 0x78, 0x78),
                clicked_color: Color::new(0xea, 0x76, 0xcb),
            },
            Theme::CatppuccinMocha => ThemeColors {
                background_color: Color::new(0x1e, 0x1e, 0x2e),
                foreground_color: Color::new(0xcd, 0xd6, 0xf4),
                idle_color: Color::new(0x31, 0x32, 0x44),
                hovered_color: Color::new(0x45, 0x47, 0x5a),
                clicked_color: Color::new(0x58, 0x5b, 0x70),
            },
            Theme::Custom(c) => *c,
        }
    }
}

impl Default for Color {
    fn default() -> (c: Self)
        ensures
            c == (Color { r: 0, g: 0, b: 0 }),
    {
        Color { r: 0, g: 0, b: 0 }
    }
}

impl Default for Theme {
    fn default() -> (t: Self)
        ensures
            t == Theme::Default,
    {
        Theme::Default
    }
}

} // verus!
