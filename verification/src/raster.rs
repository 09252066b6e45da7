//! Pixel operations of the software renderer on an RGBA frame buffer
//! (`width` pixels per row, four bytes per pixel), and the rule that decides
//! how each decoded cell is painted. Glyph rasterization itself belongs to
//! the font library the front-end uses.

use vstd::prelude::*;
use crate::attr::{BOLD, DIM, INVERSE, INVISIBLE, ITALIC, STRIKETHROUGH, UNDERLINE, WIDE, WIDE_SPACER};
use crate::view::{GCell, Grid, Palette, Selection, Theme, in_flow, resolve_spec};
use vstd::arithmetic::div_mod::{lemma_fundamental_div_mod, lemma_fundamental_div_mod_converse};

verus! {

/// Byte `k` of an opaque pixel of color `c`.
pub open spec fn channel(c: (u8, u8, u8), k: int) -> u8 {
    if k == 0 { c.0 } else if k == 1 { c.1 } else if k == 2 { c.2 } else { 255 }
}

/// Pixel `p` (row-major, `width` pixels per row) lies in columns `[x0, x1)`
/// of rows `[y0, y1)`.
pub open spec fn pix_in(p: int, width: int, x0: int, x1: int, y0: int, y1: int) -> bool {
    width > 0 && y0 <= p / width < y1 && x0 <= p % width < x1
}

/// The buffer with every pixel of the rectangle painted opaque `c`.
pub open spec fn paint_rect(old: Seq<u8>, width: int, x0: int, x1: int, y0: int, y1: int, c: (u8, u8, u8)) -> Seq<u8> {
    Seq::new(old.len(), |i: int| if pix_in(i / 4, width, x0, x1, y0, y1) { channel(c, i % 4) } else { old[i] })
}

pub open spec fn min(a: int, b: int) -> int {
    if a < b { a } else { b }
}

/// What `fill` leaves in the buffer: the `w` x `h` rectangle at `(x, y)`,
/// clipped to `width` x `height`, painted opaque `c`.
pub open spec fn fill_spec(old: Seq<u8>, width: int, height: int, x: int, y: int, w: int, h: int, c: (u8, u8, u8)) -> Seq<u8> {
    paint_rect(old, width, x, min(x + w, width), y, min(y + h, height), c)
}

/// Byte `i` of pixel `p` split into pixel and channel, and the pixel into
/// row and column.
proof fn lemma_pix_decomp(i: int, width: int)
    requires
        0 <= i,
        0 < width,
    ensures
        i == 4 * (i / 4) + i % 4,
        0 <= i % 4 < 4,
        0 <= i / 4,
        i / 4 == width * (i / 4 / width) + (i / 4) % width,
        0 <= (i / 4) % width < width,
        0 <= i / 4 / width,
{
    lemma_fundamental_div_mod(i, 4);
    lemma_fundamental_div_mod(i / 4, width);
}

/// Byte `k` of the pixel at row `py`, column `px`.
proof fn lemma_pix_compose(py: int, px: int, width: int, k: int)
    requires
        0 <= py,
        0 <= px < width,
        0 <= k < 4,
    ensures
        ((py * width + px) * 4 + k) / 4 == py * width + px,
        ((py * width + px) * 4 + k) % 4 == k,
        (py * width + px) / width == py,
        (py * width + px) % width == px,
{
    lemma_fundamental_div_mod_converse((py * width + px) * 4 + k, 4, py * width + px, k);
    lemma_fundamental_div_mod_converse(py * width + px, width, py, px);
}

/// Fill an opaque `w` x `h` rectangle at `(x, y)` with `c`, clipped to the
/// `width` x `height` buffer `out`.
pub fn fill(out: &mut [u8], width: usize, height: usize, x: usize, y: usize, w: usize, h: usize, c: (u8, u8, u8))
    requires
        width * height * 4 <= old(out)@.len(),
        x + w <= usize::MAX,
        y + h <= usize::MAX,
    ensures
        final(out)@ == fill_spec(old(out)@, width as int, height as int, x as int, y as int, w as int, h as int, c),
{
    let ye = if y + h < height { y + h } else { height };
    let xe = if x + w < width { x + w } else { width };
    let n = out.len();
    let ghost start = out@;
    assert(out@ =~= paint_rect(start, width as int, x as int, xe as int, y as int, y as int, c));
    let mut yy = y;
    while yy < ye
        invariant
            y <= yy,
            yy <= ye || yy == y,
            n == start.len(),
            ye <= height,
            xe <= width,
            ye == min(y + h, height as int),
            xe == min(x + w, width as int),
            out@.len() == start.len(),
            width * height * 4 <= start.len(),
            out@ == paint_rect(start, width as int, x as int, xe as int, y as int, yy as int, c),
        decreases ye - yy,
    {
        assert(yy * width + width <= height * width) by (nonlinear_arith)
            requires
                yy < ye,
                ye <= height,
        ;
        assert(height * width == width * height) by (nonlinear_arith);
        let row = yy * width;
        let mut xx = x;
        while xx < xe
            invariant
                y <= yy < ye,
                ye <= height,
                xe <= width,
                x <= xx,
                xx <= xe || xx == x,
                n == start.len(),
                row == yy * width,
                row + width <= width * height,
                out@.len() == start.len(),
                width * height * 4 <= start.len(),
                out@ == Seq::new(start.len(), |i: int|
                    if pix_in(i / 4, width as int, x as int, xe as int, y as int, yy as int)
                        || pix_in(i / 4, width as int, x as int, xx as int, yy as int, yy + 1) {
                        channel(c, i % 4)
                    } else {
                        start[i]
                    }),
            decreases xe - xx,
        {
            let o = (row + xx) * 4;
            let ghost before = out@;
            out[o] = c.0;
            out[o + 1] = c.1;
            out[o + 2] = c.2;
            out[o + 3] = 255;
            proof {
                assert forall|i: int| 0 <= i < out@.len() implies #[trigger] out@[i] == (
                    if pix_in(i / 4, width as int, x as int, xe as int, y as int, yy as int)
                        || pix_in(i / 4, width as int, x as int, xx + 1, yy as int, yy + 1) {
                        channel(c, i % 4)
                    } else {
                        start[i]
                    }) by {
                    lemma_pix_decomp(i, width as int);
                    if o <= i < o + 4 {
                        lemma_pix_compose(yy as int, xx as int, width as int, i - o);
                    } else {
                        assert(before[i] == out@[i]);
                        if (i / 4) / (width as int) == yy && (i / 4) % (width as int) == xx {
                            assert(i / 4 == yy * width + xx) by (nonlinear_arith)
                                requires
                                    i / 4 == (width as int) * (i / 4 / (width as int)) + (i / 4) % (width as int),
                                    (i / 4) / (width as int) == yy,
                                    (i / 4) % (width as int) == xx,
                            ;
                        }
                    }
                }
            }
            xx = xx + 1;
        }
        assert(out@ =~= paint_rect(start, width as int, x as int, xe as int, y as int, yy + 1, c));
        yy = yy + 1;
    }
    assert(out@ =~= paint_rect(start, width as int, x as int, xe as int, y as int, ye as int, c));
}

/// Coverage-weighted blend of foreground channel `f` over buffer byte `b`.
pub open spec fn blend(f: u8, b: u8, a: u8) -> u8 {
    ((f * a + b * (255 - a)) / 255) as u8
}

/// What `blit` leaves in byte `i`: a pixel under a glyph pixel of non-zero
/// coverage `a` becomes `fg` blended over it by `a` (and opaque); every other
/// byte keeps its value.
pub open spec fn blit_byte(old: Seq<u8>, i: int, width: int, height: int, x: int, y: int, gw: int, gh: int,
    cov: Seq<u8>, fg: (u8, u8, u8)) -> u8 {
    let p = i / 4;
    let py = p / width;
    let r = py - y;
    let c = p % width - x;
    if width > 0 && py < height && 0 <= r < gh && 0 <= c < gw && cov[r * gw + c] != 0 {
        if i % 4 == 3 { 255 } else { blend(channel(fg, i % 4), old[i], cov[r * gw + c]) }
    } else {
        old[i]
    }
}

pub open spec fn blit_spec(old: Seq<u8>, width: int, height: int, x: int, y: int, gw: int, gh: int,
    cov: Seq<u8>, fg: (u8, u8, u8)) -> Seq<u8> {
    Seq::new(old.len(), |i: int| blit_byte(old, i, width, height, x, y, gw, gh, cov, fg))
}

/// Glyph pixel `(r, c)` has been composited once the scan has passed it.
pub open spec fn blit_done(old: Seq<u8>, i: int, width: int, height: int, x: int, y: int, gw: int, gh: int,
    cov: Seq<u8>, fg: (u8, u8, u8), r0: int, c0: int) -> u8 {
    let p = i / 4;
    let r = p / width - y;
    let c = p % width - x;
    if width > 0 && (r < r0 || (r == r0 && c < c0)) { blit_byte(old, i, width, height, x, y, gw, gh, cov, fg) } else { old[i] }
}

/// One past the last coverage byte of glyph row `r`.
pub open spec fn row_end(r: int, gw: int) -> int {
    r * gw + gw
}

fn blend_byte(f: u8, b: u8, a: u8) -> (v: u8)
    ensures
        v == blend(f, b, a),
{
    let ia: u32 = 255 - a as u32;
    assert(f as u32 * a as u32 <= 255 * 255) by (nonlinear_arith);
    assert(b as u32 * ia <= 255 * 255) by (nonlinear_arith)
        requires
            ia <= 255,
    ;
    let s: u32 = f as u32 * a as u32 + b as u32 * ia;
    (s / 255) as u8
}

/// Alpha-composite a `gw` x `gh` coverage bitmap tinted `fg` over the
/// buffer at `(x, y)` (which may lie partly off the buffer).
pub fn blit(out: &mut [u8], width: usize, height: usize, x: i32, y: i32, gw: usize, gh: usize, cov: &[u8], fg: (u8, u8, u8))
    requires
        width * height * 4 <= old(out)@.len(),
        gw <= 0x8000_0000,
        gh <= 0x8000_0000,
        x + gw <= 0x8000_0000,
        y + gh <= 0x8000_0000,
        forall|r: int| 0 <= r < gh && 0 <= y + r < height ==> #[trigger] row_end(r, gw as int) <= cov@.len(),
    ensures
        final(out)@ == blit_spec(old(out)@, width as int, height as int, x as int, y as int, gw as int, gh as int, cov@, fg),
{
    let n = out.len();
    let cn = cov.len();
    let ghost start = out@;
    assert(out@ =~= Seq::new(start.len(), |i: int|
        blit_done(start, i, width as int, height as int, x as int, y as int, gw as int, gh as int, cov@, fg, 0, 0))) by {
        assert forall|i: int| 0 <= i < start.len() implies start[i] ==
            blit_done(start, i, width as int, height as int, x as int, y as int, gw as int, gh as int, cov@, fg, 0, 0) by {
            if width > 0 {
                lemma_pix_decomp(i, width as int);
            }
        }
    }
    let mut r: usize = 0;
    while r < gh
        invariant
            r <= gh,
            gh <= 0x8000_0000,
            gw <= 0x8000_0000,
            x + gw <= 0x8000_0000,
            y + gh <= 0x8000_0000,
            forall|rr: int| 0 <= rr < gh && 0 <= y + rr < height ==> #[trigger] row_end(rr, gw as int) <= cov@.len(),
            width * height * 4 <= start.len(),
            n == start.len(),
            cn == cov@.len(),
            out@.len() == start.len(),
            out@ == Seq::new(start.len(), |i: int|
                blit_done(start, i, width as int, height as int, x as int, y as int, gw as int, gh as int, cov@, fg, r as int, 0)),
        decreases gh - r,
    {
        let py = y + r as i32;
        if py < 0 || py as usize >= height {
            proof {
                assert(out@ =~= Seq::new(start.len(), |i: int|
                    blit_done(start, i, width as int, height as int, x as int, y as int, gw as int, gh as int, cov@, fg, r + 1, 0))) by {
                    assert forall|i: int| 0 <= i < start.len() implies #[trigger] out@[i] ==
                        blit_done(start, i, width as int, height as int, x as int, y as int, gw as int, gh as int, cov@, fg, r + 1, 0) by {
                        if width > 0 {
                            lemma_pix_decomp(i, width as int);
                        }
                    }
                }
            }
            r = r + 1;
            continue;
        }
        let pyu = py as usize;
        assert(pyu * width + width <= height * width) by (nonlinear_arith)
            requires
                pyu < height,
        ;
        assert(height * width == width * height) by (nonlinear_arith);
        let row = pyu * width;
        assert(row_end(r as int, gw as int) <= cov@.len());
        let mut c: usize = 0;
        while c < gw
            invariant
                r < gh,
                c <= gw,
                gh <= 0x8000_0000,
                gw <= 0x8000_0000,
                x + gw <= 0x8000_0000,
                y + gh <= 0x8000_0000,
                py == y + r,
                0 <= py < height,
                pyu == py,
                row == pyu * width,
                row + width <= width * height,
                r * gw + gw <= cov@.len(),
                width * height * 4 <= start.len(),
                n == start.len(),
                cn == cov@.len(),
                out@.len() == start.len(),
                out@ == Seq::new(start.len(), |i: int|
                    blit_done(start, i, width as int, height as int, x as int, y as int, gw as int, gh as int, cov@, fg, r as int, c as int)),
            decreases gw - c,
        {
            assert(r * gw + c < r * gw + gw);
            let a = cov[r * gw + c];
            if a != 0 {
                let px = x + c as i32;
                if px >= 0 && (px as usize) < width {
                    let o = (row + px as usize) * 4;
                    let ghost before = out@;
                    proof {
                        lemma_pix_compose(py as int, px as int, width as int, 0);
                    }
                    let b0 = blend_byte(fg.0, out[o], a);
                    let b1 = blend_byte(fg.1, out[o + 1], a);
                    let b2 = blend_byte(fg.2, out[o + 2], a);
                    out[o] = b0;
                    out[o + 1] = b1;
                    out[o + 2] = b2;
                    out[o + 3] = 255;
                    proof {
                        assert forall|i: int| 0 <= i < start.len() implies #[trigger] out@[i] ==
                            blit_done(start, i, width as int, height as int, x as int, y as int, gw as int, gh as int, cov@, fg, r as int, c + 1) by {
                            lemma_pix_decomp(i, width as int);
                            if o <= i < o + 4 {
                                lemma_pix_compose(py as int, px as int, width as int, i - o);
                                assert(before[i] == start[i]);
                            } else {
                                assert(before[i] == out@[i]);
                                if (i / 4) / (width as int) == py && (i / 4) % (width as int) == px {
                                    assert(i / 4 == py * width + px) by (nonlinear_arith)
                                        requires
                                            i / 4 == (width as int) * (i / 4 / (width as int)) + (i / 4) % (width as int),
                                            (i / 4) / (width as int) == py,
                                            (i / 4) % (width as int) == px,
                                    ;
                                }
                            }
                        }
                        assert(out@ =~= Seq::new(start.len(), |i: int|
                            blit_done(start, i, width as int, height as int, x as int, y as int, gw as int, gh as int, cov@, fg, r as int, c + 1)));
                    }
                } else {
                    proof { lemma_blit_skip(out@, start, width as int, height as int, x as int, y as int, gw as int, gh as int, cov@, fg, r as int, c as int); }
                }
            } else {
                proof { lemma_blit_skip(out@, start, width as int, height as int, x as int, y as int, gw as int, gh as int, cov@, fg, r as int, c as int); }
            }
            c = c + 1;
        }
        proof {
            assert(out@ =~= Seq::new(start.len(), |i: int|
                blit_done(start, i, width as int, height as int, x as int, y as int, gw as int, gh as int, cov@, fg, r + 1, 0))) by {
                assert forall|i: int| 0 <= i < start.len() implies #[trigger] out@[i] ==
                    blit_done(start, i, width as int, height as int, x as int, y as int, gw as int, gh as int, cov@, fg, r + 1, 0) by {
                    if width > 0 {
                        lemma_pix_decomp(i, width as int);
                    }
                }
            }
        }
        r = r + 1;
    }
    assert(out@ =~= blit_spec(start, width as int, height as int, x as int, y as int, gw as int, gh as int, cov@, fg)) by {
        assert forall|i: int| 0 <= i < start.len() implies #[trigger] out@[i] ==
            blit_spec(start, width as int, height as int, x as int, y as int, gw as int, gh as int, cov@, fg)[i] by {
            if width > 0 {
                lemma_pix_decomp(i, width as int);
            }
        }
    }
}

/// Passing glyph pixel `(r, c)` without a write is right when nothing is
/// composited there: zero coverage, or a column off the buffer.
proof fn lemma_blit_skip(cur: Seq<u8>, start: Seq<u8>, width: int, height: int, x: int, y: int, gw: int, gh: int,
    cov: Seq<u8>, fg: (u8, u8, u8), r: int, c: int)
    requires
        0 <= r < gh,
        0 <= c < gw,
        0 <= y + r < height,
        r * gw + gw <= cov.len(),
        cov[r * gw + c] == 0 || x + c < 0 || x + c >= width,
        cur == Seq::new(start.len(), |i: int| blit_done(start, i, width, height, x, y, gw, gh, cov, fg, r, c)),
    ensures
        cur == Seq::new(start.len(), |i: int| blit_done(start, i, width, height, x, y, gw, gh, cov, fg, r, c + 1)),
{
    assert forall|i: int| 0 <= i < start.len() implies #[trigger] cur[i]
        == blit_done(start, i, width, height, x, y, gw, gh, cov, fg, r, c + 1) by {
        if width > 0 {
            lemma_pix_decomp(i, width);
        }
    }
    assert(cur =~= Seq::new(start.len(), |i: int| blit_done(start, i, width, height, x, y, gw, gh, cov, fg, r, c + 1)));
}

/// A color dimmed to 60% (SGR 2), rounding down.
pub open spec fn dim_spec(c: (u8, u8, u8)) -> (u8, u8, u8) {
    ((c.0 * 3 / 5) as u8, (c.1 * 3 / 5) as u8, (c.2 * 3 / 5) as u8)
}

pub fn dim(c: (u8, u8, u8)) -> (d: (u8, u8, u8))
    ensures
        d == dim_spec(c),
{
    ((c.0 as u16 * 3 / 5) as u8, (c.1 as u16 * 3 / 5) as u8, (c.2 as u16 * 3 / 5) as u8)
}

/// How one decoded cell is painted.
#[derive(Clone, Copy, Debug, PartialEq, Eq)]
pub struct CellPaint {
    pub fg: (u8, u8, u8),
    pub bg: (u8, u8, u8),
    /// Whether the cell spans two columns.
    pub wide: bool,
    /// Whether a glyph is drawn (not invisible, not blank or space).
    pub glyph: bool,
    /// Font style: bit 0 bold, bit 1 italic.
    pub style: usize,
    pub underline: bool,
    pub strike: bool,
}

pub open spec fn flag_set(flags: u16, bit: u16) -> bool {
    flags & bit != 0
}

/// The paint of cell `cell`: its colors resolved (bold brightens the
/// foreground), swapped when inverse, the foreground dimmed when dim, and
/// the theme's cursor colors when it is the cursor cell. A wide-glyph spacer
/// is not painted at all (the glyph to its left covers it).
pub open spec fn cell_paint_spec(cell: GCell, theme: Theme, is_cursor: bool) -> Option<CellPaint> {
    if flag_set(cell.flags, WIDE_SPACER) {
        None
    } else {
        let bold = flag_set(cell.flags, BOLD);
        let f0 = resolve_spec(theme, cell.fg, true, bold);
        let b0 = resolve_spec(theme, cell.bg, false, false);
        let f1 = if flag_set(cell.flags, INVERSE) { b0 } else { f0 };
        let b1 = if flag_set(cell.flags, INVERSE) { f0 } else { b0 };
        let f2 = if flag_set(cell.flags, DIM) { dim_spec(f1) } else { f1 };
        Some(CellPaint {
            fg: if is_cursor { theme.cursor_text } else { f2 },
            bg: if is_cursor { theme.cursor } else { b1 },
            wide: flag_set(cell.flags, WIDE),
            glyph: !flag_set(cell.flags, INVISIBLE) && cell.cp != 0 && cell.cp != 0x20,
            style: ((if bold { 1int } else { 0 }) + (if flag_set(cell.flags, ITALIC) { 2int } else { 0 })) as usize,
            underline: flag_set(cell.flags, UNDERLINE),
            strike: flag_set(cell.flags, STRIKETHROUGH),
        })
    }
}

/// Whether cell `(x, y)` shows the cursor: blink phase on, and the grid
/// reports the cursor visible, on screen and there.
pub open spec fn is_cursor_cell(grid: &Grid, x: usize, y: usize, cursor_on: bool) -> bool {
    cursor_on && grid.cursor_on_screen && grid.cursor_visible && x == grid.cursor_x && y == grid.cursor_y
}

/// The paint of grid cell `(x, y)`; `cursor_on` is the cursor's blink phase.
pub fn cell_paint(grid: &Grid, palette: &Palette, x: usize, y: usize, cursor_on: bool) -> (p: Option<CellPaint>)
    requires
        grid.wf(),
        palette.wf(),
        x < grid.cols,
        y < grid.rows,
    ensures
        p == cell_paint_spec(grid.cells@[y * grid.cols + x], palette.theme_of(), is_cursor_cell(grid, x, y, cursor_on)),
{
    assert(y * grid.cols + x < grid.cols * grid.rows) by (nonlinear_arith)
        requires
            x < grid.cols,
            y < grid.rows,
    ;
    let cell = grid.cell(x, y);
    if cell.flags & WIDE_SPACER != 0 {
        return None;
    }
    let bold = cell.flags & BOLD != 0;
    let mut fg = palette.resolve(cell.fg, true, bold);
    let mut bg = palette.resolve(cell.bg, false, false);
    if cell.flags & INVERSE != 0 {
        let t = fg;
        fg = bg;
        bg = t;
    }
    if cell.flags & DIM != 0 {
        fg = dim(fg);
    }
    let is_cursor = cursor_on && grid.cursor_on_screen && grid.cursor_visible && x == grid.cursor_x && y == grid.cursor_y;
    let theme = palette.theme_ref();
    if is_cursor {
        bg = theme.cursor;
        fg = theme.cursor_text;
    }
    let style: usize = (if bold { 1 } else { 0 }) + (if cell.flags & ITALIC != 0 { 2 } else { 0 });
    Some(CellPaint {
        fg,
        bg,
        wide: cell.flags & WIDE != 0,
        glyph: cell.flags & INVISIBLE == 0 && cell.cp != 0 && cell.cp != 0x20,
        style,
        underline: cell.flags & UNDERLINE != 0,
        strike: cell.flags & STRIKETHROUGH != 0,
    })
}

/// The pixel rows of a cell's underline and strike-through, for a cell whose
/// top is at `oy`, `ch` pixels tall with the baseline `baseline` pixels down:
/// the underline one pixel below the baseline (kept inside the cell), the
/// strike-through at mid-height.
pub open spec fn decoration_rows_spec(oy: int, ch: int, baseline: int) -> (int, int) {
    let last = if ch >= 1 { ch - 1 } else { 0 };
    (oy + min(baseline + 1, last), oy + ch / 2)
}

pub fn decoration_rows(oy: usize, ch: usize, baseline: usize) -> (r: (usize, usize))
    requires
        oy + ch <= usize::MAX,
        baseline < usize::MAX,
    ensures
        r.0 == decoration_rows_spec(oy as int, ch as int, baseline as int).0,
        r.1 == decoration_rows_spec(oy as int, ch as int, baseline as int).1,
{
    let last = ch.saturating_sub(1);
    let u = if baseline + 1 < last { baseline + 1 } else { last };
    (oy + u, oy + ch / 2)
}

// --- the GPU front end's per-cell decisions -------------------------------------

/// What the GPU front end draws for one cell: the cell rectangle (glyph
/// over background) when `rect`, and an underline and a strike-through
/// line in the foreground color.
#[derive(Clone, Copy, Debug, PartialEq, Eq)]
pub struct InstancePaint {
    pub fg: (u8, u8, u8),
    /// 153 for dim text, else 255.
    pub fg_alpha: u8,
    pub bg: (u8, u8, u8),
    /// 255 for a filled, inverse or selected cell; 0 lets the cleared
    /// background show.
    pub bg_alpha: u8,
    /// Whether the cell rectangle is drawn at all (a glyph or an opaque
    /// background).
    pub rect: bool,
    pub glyph: bool,
    /// Font style: bit 0 bold, bit 1 italic.
    pub style: usize,
    pub wide: bool,
    pub underline: bool,
    pub strike: bool,
}

/// Whether column `x` of absolute line `line` is inside a non-empty
/// selection.
pub open spec fn selected_at(sel: Option<Selection>, x: usize, line: usize) -> bool {
    sel matches Some(s) && s.start != s.end && in_flow(s.start, s.end, x, line)
}

/// The GPU paint of a decoded cell. Spacer halves of wide glyphs are
/// skipped. Inverse swaps the colors and makes the background opaque; a
/// cell with its own background color is opaque, a default one clear;
/// a selected cell takes the selection background, opaque. A hovered link
/// (a non-zero id equal to the cell's) is underlined across its whole run.
/// A cell with no glyph, a clear background and no decoration draws
/// nothing.
pub open spec fn cell_instance_spec(cell: GCell, theme: Theme, selected: bool, hover_link: u32) -> Option<InstancePaint> {
    if flag_set(cell.flags, WIDE_SPACER) {
        None
    } else {
        let bold = flag_set(cell.flags, BOLD);
        let inverse = flag_set(cell.flags, INVERSE);
        let glyph = cell.cp != 0x20 && cell.cp != 0 && !flag_set(cell.flags, INVISIBLE);
        let hover = hover_link != 0 && cell.link == hover_link;
        let underline = flag_set(cell.flags, UNDERLINE) || hover;
        let strike = flag_set(cell.flags, STRIKETHROUGH);
        let filled = cell.bg >= 0x100_0000;
        let fg = if inverse { resolve_spec(theme, cell.bg, false, false) } else { resolve_spec(theme, cell.fg, true, bold) };
        let bg0 = if inverse {
            resolve_spec(theme, cell.fg, true, bold)
        } else if filled {
            resolve_spec(theme, cell.bg, false, false)
        } else {
            theme.bg
        };
        let a0: u8 = if inverse || filled { 255 } else { 0 };
        let bg = if selected { theme.selection } else { bg0 };
        let a: u8 = if selected { 255 } else { a0 };
        if !glyph && a == 0 && !underline && !strike {
            None
        } else {
            Some(InstancePaint {
                fg,
                fg_alpha: if flag_set(cell.flags, DIM) { 153 } else { 255 },
                bg,
                bg_alpha: a,
                rect: glyph || a != 0,
                glyph,
                style: ((if bold { 1int } else { 0 }) + (if flag_set(cell.flags, ITALIC) { 2int } else { 0 })) as usize,
                wide: flag_set(cell.flags, WIDE),
                underline,
                strike,
            })
        }
    }
}

/// The GPU paint of grid cell `(x, y)`. `sel` is the selection in absolute
/// line coordinates and `sel_top` the absolute line at the top of the
/// viewport; `hover_link` is the link under the pointer (0 for none).
pub fn cell_instance(grid: &Grid, pal: &Palette, x: usize, y: usize, sel: Option<Selection>, sel_top: usize, hover_link: u32)
    -> (r: Option<InstancePaint>)
    requires
        grid.wf(),
        pal.wf(),
        x < grid.cols,
        y < grid.rows,
        sel_top + y <= usize::MAX,
    ensures
        r == cell_instance_spec(grid.cells@[y * grid.cols + x], pal.theme_of(), selected_at(sel, x, (sel_top + y) as usize),
            hover_link),
{
    assert(y * grid.cols + x < grid.cols * grid.rows) by (nonlinear_arith)
        requires
            x < grid.cols,
            y < grid.rows,
    ;
    let c = grid.cell(x, y);
    let flags = c.flags;
    if flags & WIDE_SPACER != 0 {
        return None;
    }
    let inverse = flags & INVERSE != 0;
    let bold = flags & BOLD != 0;
    let glyph = c.cp != 0x20 && c.cp != 0 && flags & INVISIBLE == 0;
    let hover = hover_link != 0 && c.link == hover_link;
    let underline = flags & UNDERLINE != 0 || hover;
    let strike = flags & STRIKETHROUGH != 0;
    let theme = pal.theme_ref();
    let (fg, bg0, a0) = if inverse {
        (pal.resolve(c.bg, false, false), pal.resolve(c.fg, true, bold), 255u8)
    } else {
        let filled = c.bg >= 0x100_0000;
        (
            pal.resolve(c.fg, true, bold),
            if filled { pal.resolve(c.bg, false, false) } else { theme.bg },
            if filled { 255u8 } else { 0u8 },
        )
    };
    let selected = match sel {
        Some(s) => !s.is_empty() && s.contains(x, sel_top + y),
        None => false,
    };
    let (bg, a) = if selected { (theme.selection, 255u8) } else { (bg0, a0) };
    if !glyph && a == 0 && !underline && !strike {
        return None;
    }
    let style: usize = (if bold { 1 } else { 0 }) + (if flags & ITALIC != 0 { 2 } else { 0 });
    Some(InstancePaint {
        fg,
        fg_alpha: if flags & DIM != 0 { 153 } else { 255 },
        bg,
        bg_alpha: a,
        rect: glyph || a != 0,
        glyph,
        style,
        wide: flags & WIDE != 0,
        underline,
        strike,
    })
}

/// The cursor drawn over the cells: where, in the theme's cursor colors,
/// over one or two columns, with the glyph under it.
#[derive(Clone, Copy, Debug, PartialEq, Eq)]
pub struct CursorPaint {
    pub x: usize,
    pub y: usize,
    pub fg: (u8, u8, u8),
    pub bg: (u8, u8, u8),
    pub wide: bool,
    pub glyph: bool,
    pub style: usize,
}

/// The cursor of a decoded grid, drawn when the blink phase is on and the
/// grid reports it visible, on screen and inside the grid.
pub open spec fn cursor_instance_spec(grid: &Grid, theme: Theme, cursor_on: bool) -> Option<CursorPaint> {
    if cursor_on && grid.cursor_visible && grid.cursor_on_screen && grid.cursor_y < grid.rows && grid.cursor_x < grid.cols {
        let c = grid.cells@[grid.cursor_y * grid.cols + grid.cursor_x];
        Some(CursorPaint {
            x: grid.cursor_x,
            y: grid.cursor_y,
            fg: theme.cursor_text,
            bg: theme.cursor,
            wide: flag_set(c.flags, WIDE),
            glyph: c.cp != 0x20 && c.cp != 0,
            style: ((if flag_set(c.flags, BOLD) { 1int } else { 0 }) + (if flag_set(c.flags, ITALIC) { 2int } else { 0 })) as usize,
        })
    } else {
        None
    }
}

pub fn cursor_instance(grid: &Grid, pal: &Palette, cursor_on: bool) -> (r: Option<CursorPaint>)
    requires
        grid.wf(),
    ensures
        r == cursor_instance_spec(grid, pal.theme_of(), cursor_on),
{
    if !(cursor_on && grid.cursor_visible && grid.cursor_on_screen && grid.cursor_y < grid.rows && grid.cursor_x < grid.cols) {
        return None;
    }
    let (x, y) = (grid.cursor_x, grid.cursor_y);
    assert(y * grid.cols + x < grid.cols * grid.rows) by (nonlinear_arith)
        requires
            x < grid.cols,
            y < grid.rows,
    ;
    let c = grid.cell(x, y);
    let theme = pal.theme_ref();
    let style: usize = (if c.flags & BOLD != 0 { 1 } else { 0 }) + (if c.flags & ITALIC != 0 { 2 } else { 0 });
    Some(CursorPaint {
        x,
        y,
        fg: theme.cursor_text,
        bg: theme.cursor,
        wide: c.flags & WIDE != 0,
        glyph: c.cp != 0x20 && c.cp != 0,
        style,
    })
}

} // verus!
