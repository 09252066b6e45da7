//! Character display width (East-Asian-Width approximation).
//!
//! Returns `0` for zero-width combining marks / joiners, `2` for wide
//! (CJK, fullwidth, most emoji) and `1` otherwise. The ranges cover the
//! common cases; this is intentionally a compact table rather than the full
//! Unicode database.

use vstd::prelude::*;

verus! {

/// Combining marks, joiners and variation selectors: they take no column.
pub open spec fn zero_width_cp(u: u32) -> bool {
    ||| 0x0300 <= u <= 0x036F
    ||| 0x0483 <= u <= 0x0489
    ||| 0x0591 <= u <= 0x05BD
    ||| 0x0610 <= u <= 0x061A
    ||| 0x064B <= u <= 0x065F
    ||| u == 0x0670
    ||| 0x06D6 <= u <= 0x06DC
    ||| u == 0x0E31
    ||| 0x0E34 <= u <= 0x0E3A
    ||| 0x1AB0 <= u <= 0x1AFF
    ||| 0x1DC0 <= u <= 0x1DFF
    ||| 0x200B <= u <= 0x200F
    ||| 0x202A <= u <= 0x202E
    ||| 0x2060 <= u <= 0x2064
    ||| 0x20D0 <= u <= 0x20FF
    ||| 0xFE00 <= u <= 0xFE0F
    ||| 0xFE20 <= u <= 0xFE2F
    ||| 0xE0100 <= u <= 0xE01EF
}

/// East-Asian wide and fullwidth code points, and most emoji: two columns.
pub open spec fn wide_cp(u: u32) -> bool {
    ||| 0x1100 <= u <= 0x115F
    ||| 0x2329 <= u <= 0x232A
    ||| 0x2E80 <= u <= 0x303E
    ||| 0x3041 <= u <= 0x33FF
    ||| 0x3400 <= u <= 0x4DBF
    ||| 0x4E00 <= u <= 0x9FFF
    ||| 0xA000 <= u <= 0xA4CF
    ||| 0xAC00 <= u <= 0xD7A3
    ||| 0xF900 <= u <= 0xFAFF
    ||| 0xFE10 <= u <= 0xFE19
    ||| 0xFE30 <= u <= 0xFE6F
    ||| 0xFF00 <= u <= 0xFF60
    ||| 0xFFE0 <= u <= 0xFFE6
    ||| 0x1F300 <= u <= 0x1F64F
    ||| 0x1F900 <= u <= 0x1F9FF
    ||| 0x1FA70 <= u <= 0x1FAFF
    ||| 0x20000 <= u <= 0x3FFFD
}

/// Display columns of the code point `u`: 0 for NUL and zero-width marks, 1 for
/// controls (handled separately by callers), 2 for wide, else 1.
pub open spec fn cp_width(u: u32) -> u8 {
    if u == 0 {
        0
    } else if u < 0x20 || (0x7f <= u < 0xa0) {
        1
    } else if zero_width_cp(u) {
        0
    } else if wide_cp(u) {
        2
    } else {
        1
    }
}

pub open spec fn spec_char_width(c: char) -> u8 {
    cp_width(c as u32)
}

fn is_zero_width(u: u32) -> (b: bool)
    ensures
        b == zero_width_cp(u),
{
    (0x0300 <= u && u <= 0x036F) || (0x0483 <= u && u <= 0x0489) || (0x0591 <= u && u <= 0x05BD)
        || (0x0610 <= u && u <= 0x061A) || (0x064B <= u && u <= 0x065F) || u == 0x0670 || (0x06D6
        <= u && u <= 0x06DC) || u == 0x0E31 || (0x0E34 <= u && u <= 0x0E3A) || (0x1AB0 <= u && u
        <= 0x1AFF) || (0x1DC0 <= u && u <= 0x1DFF) || (0x200B <= u && u <= 0x200F) || (0x202A <= u
        && u <= 0x202E) || (0x2060 <= u && u <= 0x2064) || (0x20D0 <= u && u <= 0x20FF) || (0xFE00
        <= u && u <= 0xFE0F) || (0xFE20 <= u && u <= 0xFE2F) || (0xE0100 <= u && u <= 0xE01EF)
}

fn is_wide(u: u32) -> (b: bool)
    ensures
        b == wide_cp(u),
{
    (0x1100 <= u && u <= 0x115F) || (0x2329 <= u && u <= 0x232A) || (0x2E80 <= u && u <= 0x303E)
        || (0x3041 <= u && u <= 0x33FF) || (0x3400 <= u && u <= 0x4DBF) || (0x4E00 <= u && u
        <= 0x9FFF) || (0xA000 <= u && u <= 0xA4CF) || (0xAC00 <= u && u <= 0xD7A3) || (0xF900 <= u
        && u <= 0xFAFF) || (0xFE10 <= u && u <= 0xFE19) || (0xFE30 <= u && u <= 0xFE6F) || (0xFF00
        <= u && u <= 0xFF60) || (0xFFE0 <= u && u <= 0xFFE6) || (0x1F300 <= u && u <= 0x1F64F)
        || (0x1F900 <= u && u <= 0x1F9FF) || (0x1FA70 <= u && u <= 0x1FAFF) || (0x20000 <= u && u
        <= 0x3FFFD)
}

/// Display columns occupied by `c`.
pub fn char_width(c: char) -> (w: u8)
    ensures
        w == spec_char_width(c),
        w <= 2,
{
    let u = c as u32;
    if u == 0 {
        return 0;
    }
    if u < 0x20 || (0x7f <= u && u < 0xa0) {
        return 1;
    }
    if is_zero_width(u) {
        return 0;
    }
    if is_wide(u) {
        return 2;
    }
    1
}

// --- widths of whole blocks ---------------------------------------------------------

/// Hangul syllables (U+AC00..U+D7A3) and the CJK unified ideographs
/// (U+4E00..U+9FFF) take two columns; printable ASCII takes one; the
/// combining diacritical marks (U+0300..U+036F) take none.
pub proof fn lemma_block_widths(c: char)
    ensures
        0xAC00 <= c as u32 <= 0xD7A3 ==> spec_char_width(c) == 2,
        0x4E00 <= c as u32 <= 0x9FFF ==> spec_char_width(c) == 2,
        0x20 <= c as u32 <= 0x7e ==> spec_char_width(c) == 1,
        0x0300 <= c as u32 <= 0x036F ==> spec_char_width(c) == 0,
{
}

/// More blocks: emoji pictographs (U+1F300..U+1F64F) and the fullwidth
/// forms (U+FF01..U+FF60) take two columns; Latin-1 and Latin Extended
/// letters (U+00A0..U+02FF) take one; zero-width space and joiners
/// (U+200B..U+200F) take none.
pub proof fn lemma_more_block_widths(c: char)
    ensures
        0x1F300 <= c as u32 <= 0x1F64F ==> spec_char_width(c) == 2,
        0xFF01 <= c as u32 <= 0xFF60 ==> spec_char_width(c) == 2,
        0xA0 <= c as u32 <= 0x2FF ==> spec_char_width(c) == 1,
        0x200B <= c as u32 <= 0x200F ==> spec_char_width(c) == 0,
{
}

} // verus!
