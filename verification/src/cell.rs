//! Cell contents and text attributes.

use vstd::prelude::*;
use crate::attr;

verus! {

/// A terminal color. Kept deliberately small (`Copy`) so cells stay cheap to move.
#[derive(Clone, Copy, PartialEq, Eq, Debug, Structural)]
pub enum Color {
    /// The terminal's default foreground/background (theme-defined).
    Default,
    /// A palette index into the 256-color table (0..=255).
    Indexed(u8),
    /// A 24-bit true color.
    Rgb(u8, u8, u8),
}

impl Default for Color {
    fn default() -> (c: Color)
        ensures
            c == Color::Default,
    {
        Color::Default
    }
}

/// The packed snapshot word of a color (top byte = kind).
pub open spec fn packed_color(c: Color) -> u32 {
    match c {
        Color::Default => 0,
        Color::Indexed(i) => (0x0100_0000 + i) as u32,
        Color::Rgb(r, g, b) => (0x0200_0000 + r * 0x1_0000 + g * 0x100 + b) as u32,
    }
}

impl Color {
    /// Pack into a `u32` for the render snapshot.
    ///
    /// Encoding (top byte = kind):
    /// - `0x00_000000` default
    /// - `0x01_0000II` indexed, `II` = palette index
    /// - `0x02_RRGGBB` true color
    pub fn pack(self) -> (p: u32)
        ensures
            p == packed_color(self),
    {
        match self {
            Color::Default => 0,
            Color::Indexed(i) => 0x0100_0000u32 + i as u32,
            Color::Rgb(r, g, b) => 0x0200_0000u32 + (r as u32) * 0x1_0000 + (g as u32) * 0x100
                + b as u32,
        }
    }
}

/// The visual style shared by printed cells: colors plus attribute flags.
#[derive(Clone, Copy, PartialEq, Eq, Debug, Structural)]
pub struct Pen {
    pub fg: Color,
    pub bg: Color,
    pub flags: u16,
}

/// The pen in effect before any SGR: default colors, no attributes.
pub open spec fn default_pen() -> Pen {
    Pen { fg: Color::Default, bg: Color::Default, flags: 0 }
}

impl Default for Pen {
    fn default() -> (p: Pen)
        ensures
            p == default_pen(),
    {
        Pen { fg: Color::Default, bg: Color::Default, flags: 0 }
    }
}

impl Pen {
    pub fn new() -> (p: Pen)
        ensures
            p == default_pen(),
    {
        Pen { fg: Color::Default, bg: Color::Default, flags: 0 }
    }

    pub fn set(&mut self, flag: u16)
        ensures
            final(self).flags == old(self).flags | flag,
            final(self).fg == old(self).fg,
            final(self).bg == old(self).bg,
    {
        self.flags = self.flags | flag;
    }

    pub fn clear(&mut self, flag: u16)
        ensures
            final(self).flags == old(self).flags & !flag,
            final(self).fg == old(self).fg,
            final(self).bg == old(self).bg,
    {
        self.flags = self.flags & !flag;
    }

    pub fn has(&self, flag: u16) -> (b: bool)
        ensures
            b == (self.flags & flag != 0),
    {
        self.flags & flag != 0
    }
}

/// One character cell in the grid.
#[derive(Clone, Copy, PartialEq, Eq, Debug, Structural)]
pub struct Cell {
    /// The primary displayed character. `' '` for a blank cell. For a
    /// multi-scalar grapheme cluster this is the first scalar and `grapheme`
    /// holds the full cluster.
    pub ch: char,
    pub pen: Pen,
    /// OSC 8 hyperlink id (0 = none).
    pub link: u32,
    /// Grapheme-cluster id (0 = the cell is just `ch`).
    pub grapheme: u32,
}

/// A cell that was never written: a space in the default pen.
pub open spec fn default_cell() -> Cell {
    Cell { ch: ' ', pen: default_pen(), link: 0, grapheme: 0 }
}

/// The cell an erase leaves behind: it keeps the pen's background and its
/// inverse flag, and drops the glyph, foreground and other attributes.
pub open spec fn blank_cell(pen: Pen) -> Cell {
    Cell {
        ch: ' ',
        pen: Pen { fg: Color::Default, bg: pen.bg, flags: pen.flags & attr::INVERSE },
        link: 0,
        grapheme: 0,
    }
}

impl Default for Cell {
    fn default() -> (c: Cell)
        ensures
            c == default_cell(),
    {
        Cell { ch: ' ', pen: Pen::new(), link: 0, grapheme: 0 }
    }
}

impl Cell {
    /// The default (never written) cell.
    pub fn empty() -> (c: Cell)
        ensures
            c == default_cell(),
    {
        Cell { ch: ' ', pen: Pen::new(), link: 0, grapheme: 0 }
    }

    /// A blank cell that keeps `pen`'s background — used when erasing so that
    /// e.g. a set background color fills the cleared region (matches xterm).
    pub fn blank(pen: Pen) -> (c: Cell)
        ensures
            c == blank_cell(pen),
    {
        Cell {
            ch: ' ',
            pen: Pen { fg: Color::Default, bg: pen.bg, flags: pen.flags & attr::INVERSE },
            link: 0,
            grapheme: 0,
        }
    }

    pub fn is_wide(&self) -> (b: bool)
        ensures
            b == (self.pen.flags & attr::WIDE != 0),
    {
        self.pen.has(attr::WIDE)
    }

    pub fn is_spacer(&self) -> (b: bool)
        ensures
            b == (self.pen.flags & attr::WIDE_SPACER != 0),
    {
        self.pen.has(attr::WIDE_SPACER)
    }
}

} // verus!
