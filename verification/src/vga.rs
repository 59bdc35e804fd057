//! Data carried by the text console: colors, the packed VGA attribute byte,
//! and the character cell. The console writer itself drives memory-mapped
//! hardware and lives outside the library.

use vstd::prelude::*;

verus! {

/// Color codes.
#[derive(Debug, Clone, Copy, PartialEq, Eq, Structural)]
pub enum Color {
    /// Black.
    Black,
    /// Blue
    Blue,
    /// Green
    Green,
    /// Cyan
    Cyan,
    /// Red
    Red,
    /// Magenta
    Magenta,
    /// Brown
    Brown,
    /// `LightGray`
    LightGray,
    /// `DarkGray`
    DarkGray,
    /// `LightBlue`
    LightBlue,
    /// `LightGreen`
    LightGreen,
    /// `LightCyan`
    LightCyan,
    /// `LightRed`
    LightRed,
    /// Pink
    Pink,
    /// Yellow
    Yellow,
    /// White
    White,
}

/// The 4-bit VGA palette number of a color.
pub open spec fn color_value(c: Color) -> u8 {
    match c {
        Color::Black => 0,
        Color::Blue => 1,
        Color::Green => 2,
        Color::Cyan => 3,
        Color::Red => 4,
        Color::Magenta => 5,
        Color::Brown => 6,
        Color::LightGray => 7,
        Color::DarkGray => 8,
        Color::LightBlue => 9,
        Color::LightGreen => 10,
        Color::LightCyan => 11,
        Color::LightRed => 12,
        Color::Pink => 13,
        Color::Yellow => 14,
        Color::White => 15,
    }
}

impl Color {
    /// The 4-bit palette number of this color.
    pub fn number(self) -> (r: u8)
        ensures
            r == color_value(self),
            r < 16,
    {
        match self {
            Color::Black => 0,
            Color::Blue => 1,
            Color::Green => 2,
            Color::Cyan => 3,
            Color::Red => 4,
            Color::Magenta => 5,
            Color::Brown => 6,
            Color::LightGray => 7,
            Color::DarkGray => 8,
            Color::LightBlue => 9,
            Color::LightGreen => 10,
            Color::LightCyan => 11,
            Color::LightRed => 12,
            Color::Pink => 13,
            Color::Yellow => 14,
            Color::White => 15,
        }
    }
}

/// Represents a color code.
///
/// Colors are actually encoded such that:
/// - bits 0-3 are for the foreground,
/// - bits 4-7 are for the background
///
/// Each of those values comes from [`Color`].
#[derive(Debug, Clone, Copy, PartialEq, Eq, Structural)]
pub struct ColorCode(pub u8);

impl ColorCode {
    /// Create a new color code from background and foreground color.
    ///
    /// Each of those two colors fits into 4 bits. The background color is
    /// shifted four bits to the left then has the foreground color appended
    /// to get a valid u8 VGA color code.
    pub fn new(foreground: Color, background: Color) -> (r: Self)
        ensures
            r.0 == 16 * color_value(background) + color_value(foreground),
    {
        let fg = foreground.number();
        let bg = background.number();
        proof {
            assert((bg << 4) | fg == 16 * bg + fg) by (bit_vector)
                requires
                    fg < 16 && bg < 16,
            ;
        }
        Self((bg << 4) | fg)
    }
}

/// A character on the screen is an ascii value and a color.
///
/// Note however that it's not a *true* ascii value, but a code-page-437
/// value.
#[derive(Debug, Clone, Copy, PartialEq, Eq, Structural)]
pub struct ScreenChar {
    /// The character, as the display's own code page numbers it.
    pub ascii_character: u8,
    /// Foreground and background color of the cell.
    pub color_code: ColorCode,
}

impl ScreenChar {
    /// A blank cell: a space in the given colors.
    pub fn blank(color: ColorCode) -> (r: Self)
        ensures
            r.ascii_character == 32,
            r.color_code == color,
    {
        Self { ascii_character: 32, color_code: color }
    }
}

} // verus!
