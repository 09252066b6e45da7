//! Text attribute flags, stored as a bitset on every cell's pen.

use vstd::prelude::*;

verus! {

pub const BOLD: u16 = 1;
pub const DIM: u16 = 2;
pub const ITALIC: u16 = 4;
pub const UNDERLINE: u16 = 8;
pub const BLINK: u16 = 16;
pub const INVERSE: u16 = 32;
pub const INVISIBLE: u16 = 64;
pub const STRIKETHROUGH: u16 = 128;
/// Left cell of a double-width glyph (e.g. CJK, wide emoji).
pub const WIDE: u16 = 256;
/// Right-hand spacer that trails a `WIDE` cell; carries no glyph.
pub const WIDE_SPACER: u16 = 512;

} // verus!
