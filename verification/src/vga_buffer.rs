//! VGA text-mode color attributes.  The memory-mapped character buffer and
//! the writer that fills it are hardware work that lives with the kernel
//! around this crate; the attribute-byte arithmetic lives here.

use vstd::prelude::*;

verus! {

/// The sixteen VGA text-mode colors, in hardware numbering order.
#[derive(Clone, Copy, Debug, PartialEq, Eq, Structural)]
pub enum Color {
    Black,
    Blue,
    Green,
    Cyan,
    Red,
    Magenta,
    Brown,
    LightGray,
    DarkGray,
    LightBlue,
    LightGreen,
    LightCyan,
    LightRed,
    Pink,
    Yellow,
    White,
}

impl Color {
    /// The hardware number of this color: a four-bit value.
    pub open spec fn spec_number(self) -> int {
        match self {
            Color::Black => 0,
            Color::Blue => 1,
            Color::Green => 2,
            Color::Cyan => 3,
            Color::Red => 4,
            Color::Magenta => 5,
            Color::Brown => 6,
            Color::LightGray => 7,
            Color::DarkGray => 8,
            Color::LightBlue => 9,
            Color::LightGreen => 10,
            Color::LightCyan => 11,
            Color::LightRed => 12,
            Color::Pink => 13,
            Color::Yellow => 14,
            Color::White => 15,
        }
    }

    pub fn number(self) -> (n: u8)
        ensures
            n == self.spec_number(),
            n <= 15,
    {
        match self {
            Color::Black => 0,
            Color::Blue => 1,
            Color::Green => 2,
            Color::Cyan => 3,
            Color::Red => 4,
            Color::Magenta => 5,
            Color::Brown => 6,
            Color::LightGray => 7,
            Color::DarkGray => 8,
            Color::LightBlue => 9,
            Color::LightGreen => 10,
            Color::LightCyan => 11,
            Color::LightRed => 12,
            Color::Pink => 13,
            Color::Yellow => 14,
            Color::White => 15,
        }
    }
}

/// A foreground and a background color packed into one VGA attribute byte:
/// the background in the high four bits, the foreground in the low four.
#[derive(Clone, Copy, Debug, PartialEq, Eq, Structural)]
pub struct ColorCode(u8);

impl ColorCode {
    /// The packed attribute byte.
    pub closed spec fn spec_value(self) -> int {
        self.0 as int
    }

    pub fn new(foreground: Color, background: Color) -> (c: ColorCode)
        ensures
            c.spec_value() == background.spec_number() * 16 + foreground.spec_number(),
    {
        ColorCode(background.number() * 16 + foreground.number())
    }

    pub fn value(self) -> (v: u8)
        ensures
            v == self.spec_value(),
    {
        self.0
    }
}

} // verus!
