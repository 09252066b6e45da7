//! The front-end side of a snapshot: decode the packed words into a
//! persistent cell grid, resolve packed colors against a theme, and the text
//! selection model (normalized ranges, containment, word ranges).

use vstd::prelude::*;
use crate::palette::{xterm256, xterm_rgb};
use crate::terminal::{SNAPSHOT_CELL_WORDS, SNAPSHOT_MAGIC, Terminal, cell_or_default, cell_words};
use crate::cell::{Cell, packed_color};
use vstd::arithmetic::div_mod::lemma_fundamental_div_mod_converse;

verus! {

// --- colors -------------------------------------------------------------------

/// The 16-color ANSI ramp of the default (Tokyo Night) theme.
pub open spec fn ansi16(i: int) -> (u8, u8, u8) {
    if i == 0 { (0x15, 0x16, 0x1e) }
    else if i == 1 { (0xf7, 0x76, 0x8e) }
    else if i == 2 { (0x9e, 0xce, 0x6a) }
    else if i == 3 { (0xe0, 0xaf, 0x68) }
    else if i == 4 { (0x7a, 0xa2, 0xf7) }
    else if i == 5 { (0xbb, 0x9a, 0xf7) }
    else if i == 6 { (0x7d, 0xcf, 0xff) }
    else if i == 7 { (0xa9, 0xb1, 0xd6) }
    else if i == 8 { (0x41, 0x48, 0x68) }
    else if i == 9 { (0xf7, 0x76, 0x8e) }
    else if i == 10 { (0x9e, 0xce, 0x6a) }
    else if i == 11 { (0xe0, 0xaf, 0x68) }
    else if i == 12 { (0x7a, 0xa2, 0xf7) }
    else if i == 13 { (0xbb, 0x9a, 0xf7) }
    else if i == 14 { (0x7d, 0xcf, 0xff) }
    else { (0xc0, 0xca, 0xf5) }
}

fn ansi16_rgb(i: usize) -> (c: (u8, u8, u8))
    requires
        i < 16,
    ensures
        c == ansi16(i as int),
{
    if i == 0 { (0x15, 0x16, 0x1e) }
    else if i == 1 { (0xf7, 0x76, 0x8e) }
    else if i == 2 { (0x9e, 0xce, 0x6a) }
    else if i == 3 { (0xe0, 0xaf, 0x68) }
    else if i == 4 { (0x7a, 0xa2, 0xf7) }
    else if i == 5 { (0xbb, 0x9a, 0xf7) }
    else if i == 6 { (0x7d, 0xcf, 0xff) }
    else if i == 7 { (0xa9, 0xb1, 0xd6) }
    else if i == 8 { (0x41, 0x48, 0x68) }
    else if i == 9 { (0xf7, 0x76, 0x8e) }
    else if i == 10 { (0x9e, 0xce, 0x6a) }
    else if i == 11 { (0xe0, 0xaf, 0x68) }
    else if i == 12 { (0x7a, 0xa2, 0xf7) }
    else if i == 13 { (0xbb, 0x9a, 0xf7) }
    else if i == 14 { (0x7d, 0xcf, 0xff) }
    else { (0xc0, 0xca, 0xf5) }
}

/// A front-end color theme.
#[derive(Clone, Copy, Debug)]
pub struct Theme {
    pub fg: (u8, u8, u8),
    pub bg: (u8, u8, u8),
    pub cursor: (u8, u8, u8),
    pub cursor_text: (u8, u8, u8),
    /// Background of selected cells.
    pub selection: (u8, u8, u8),
}

pub open spec fn default_theme() -> Theme {
    Theme {
        fg: (0xe6, 0xe6, 0xe6),
        bg: (0x1a, 0x1b, 0x26),
        cursor: (0xe6, 0xe6, 0xe6),
        cursor_text: (0x1a, 0x1b, 0x26),
        selection: (0x28, 0x3b, 0x5c),
    }
}

impl Default for Theme {
    fn default() -> (t: Theme)
        ensures
            t == default_theme(),
    {
        Theme {
            fg: (0xe6, 0xe6, 0xe6),
            bg: (0x1a, 0x1b, 0x26),
            cursor: (0xe6, 0xe6, 0xe6),
            cursor_text: (0x1a, 0x1b, 0x26),
            selection: (0x28, 0x3b, 0x5c),
        }
    }
}

/// The 256-entry color table: the theme's ANSI ramp for 0..16, the xterm
/// cube and greys for the rest.
pub struct Palette {
    pub theme: Theme,
    table: Vec<(u8, u8, u8)>,
}

/// Palette slot `i`.
pub open spec fn table_rgb(i: int) -> (u8, u8, u8) {
    if i < 16 { ansi16(i) } else { xterm_rgb(i as u8) }
}

/// A packed cell color (`Color::pack` encoding) resolved to RGB: the theme
/// default, a palette slot (the low 8 brightened when bold), or true color.
pub open spec fn resolve_spec(theme: Theme, packed: u32, is_fg: bool, bold: bool) -> (u8, u8, u8) {
    let kind = packed / 0x100_0000;
    if kind == 0 {
        if is_fg { theme.fg } else { theme.bg }
    } else if kind == 1 {
        let i = (packed % 0x100) as int;
        table_rgb(if bold && i < 8 { i + 8 } else { i })
    } else {
        (((packed / 0x1_0000) % 0x100) as u8, ((packed / 0x100) % 0x100) as u8, (packed % 0x100) as u8)
    }
}

impl Palette {
    /// The theme the palette resolves defaults against.
    pub closed spec fn theme_of(&self) -> Theme {
        self.theme
    }

    /// The theme, by reference.
    pub fn theme_ref(&self) -> (t: &Theme)
        ensures
            *t == self.theme_of(),
    {
        &self.theme
    }

    pub closed spec fn wf(&self) -> bool {
        self.table@.len() == 256 && forall|i: int| 0 <= i < 256 ==> #[trigger] self.table@[i] == table_rgb(i)
    }

    pub fn new(theme: Theme) -> (p: Palette)
        ensures
            p.wf(),
            p.theme_of() == theme,
    {
        let mut table: Vec<(u8, u8, u8)> = Vec::with_capacity(256);
        let mut i: usize = 0;
        while i < 256
            invariant
                i <= 256,
                table@.len() == i,
                forall|k: int| 0 <= k < i ==> #[trigger] table@[k] == table_rgb(k),
            decreases 256 - i,
        {
            let c = if i < 16 { ansi16_rgb(i) } else { xterm256(i as u8) };
            table.push(c);
            i = i + 1;
        }
        Palette { theme, table }
    }

    /// Resolve a packed cell color to RGB. `bold` brightens the low 8 ANSI
    /// colors (aixterm convention); `is_fg` chooses which theme default the
    /// default color maps to.
    pub fn resolve(&self, packed: u32, is_fg: bool, bold: bool) -> (c: (u8, u8, u8))
        requires
            self.wf(),
        ensures
            c == resolve_spec(self.theme_of(), packed, is_fg, bold),
    {
        let kind = packed / 0x100_0000;
        if kind == 0 {
            if is_fg { self.theme.fg } else { self.theme.bg }
        } else if kind == 1 {
            let mut i = (packed % 0x100) as usize;
            if bold && i < 8 {
                i = i + 8;
            }
            self.table[i]
        } else {
            (((packed / 0x1_0000) % 0x100) as u8, ((packed / 0x100) % 0x100) as u8, (packed % 0x100) as u8)
        }
    }
}

// --- the decoded grid -----------------------------------------------------------

/// One decoded snapshot cell.
#[derive(Clone, Copy, Debug, Default, PartialEq, Eq, Structural)]
pub struct GCell {
    pub cp: u32,
    pub fg: u32,
    pub bg: u32,
    pub flags: u16,
    pub link: u32,
    pub grapheme: u32,
}

pub open spec fn blank_gcell() -> GCell {
    GCell { cp: 0, fg: 0, bg: 0, flags: 0, link: 0, grapheme: 0 }
}

/// A persistent cell grid patched from snapshots.
#[derive(Default)]
pub struct Grid {
    pub cols: usize,
    pub rows: usize,
    pub cells: Vec<GCell>,
    pub cursor_x: usize,
    pub cursor_y: usize,
    pub cursor_visible: bool,
    pub cursor_blink: bool,
    pub cursor_on_screen: bool,
    /// Rows changed by the most recent `apply` (empty on a full frame).
    pub dirty_rows: Vec<usize>,
    /// True when the whole grid changed (resize).
    pub full: bool,
}

/// The decoded cell whose six words start at `o`.
pub open spec fn gcell_at(s: Seq<u32>, o: int) -> GCell {
    GCell { cp: s[o], fg: s[o + 1], bg: s[o + 2], flags: s[o + 3] as u16, link: s[o + 4], grapheme: s[o + 5] }
}

/// Row `y` of a `cols`-wide grid overwritten from the cell records that
/// start at word `p` of the snapshot.
pub open spec fn row_written(cells: Seq<GCell>, cols: int, y: int, snap: Seq<u32>, p: int) -> Seq<GCell> {
    Seq::new(cells.len(), |i: int|
        if y * cols <= i < y * cols + cols { gcell_at(snap, p + (i - y * cols) * 6) } else { cells[i] })
}

/// Whether the row record at word `p` is complete and in range: a row index,
/// then `cols` cells of six words each.
pub open spec fn record_ok(cols: int, rows: int, snap: Seq<u32>, p: int) -> bool {
    p < snap.len() && (snap[p] as int) < rows && p + 1 + cols * 6 <= snap.len()
}

/// The cells after patching at most `left` row records, starting at word `p`;
/// the first truncated or out-of-range record ends the patch.
pub open spec fn patch_cells(cells: Seq<GCell>, cols: int, rows: int, snap: Seq<u32>, p: int, left: nat) -> Seq<GCell>
    decreases left,
{
    if left == 0 || !record_ok(cols, rows, snap, p) {
        cells
    } else {
        patch_cells(row_written(cells, cols, snap[p] as int, snap, p + 1), cols, rows, snap, p + 1 + cols * 6, (left - 1) as nat)
    }
}

/// The row indices that `patch_cells` overwrites, in order.
pub open spec fn patch_rows(cols: int, rows: int, snap: Seq<u32>, p: int, left: nat) -> Seq<usize>
    decreases left,
{
    if left == 0 || !record_ok(cols, rows, snap, p) {
        Seq::empty()
    } else {
        seq![snap[p] as usize] + patch_rows(cols, rows, snap, p + 1 + cols * 6, (left - 1) as nat)
    }
}

/// The `left` row records from word `p` on are all complete and in range.
pub open spec fn records_ok(cols: int, rows: int, snap: Seq<u32>, p: int, left: nat) -> bool
    decreases left,
{
    left == 0 || (record_ok(cols, rows, snap, p) && records_ok(cols, rows, snap, p + 1 + cols * 6, (left - 1) as nat))
}

/// A whole snapshot buffer: a valid header whose size a grid can hold, and
/// every row record it announces complete and in range.
pub open spec fn snapshot_ok(snap: Seq<u32>) -> bool {
    &&& header_ok(snap)
    &&& snap[1] as int * snap[2] as int <= usize::MAX
    &&& records_ok(snap[1] as int, snap[2] as int, snap, 7, snap[6] as nat)
}

/// Whether `snap` is a whole snapshot buffer.
fn snapshot_complete(snap: &[u32]) -> (b: bool)
    ensures
        b == snapshot_ok(snap@),
{
    if snap.len() < 7 || snap[0] != SNAPSHOT_MAGIC {
        return false;
    }
    let cols = snap[1] as usize;
    let rows = snap[2] as usize;
    if cols.checked_mul(rows).is_none() {
        return false;
    }
    let n_rows = snap[6] as usize;
    let mut p: usize = 7;
    let mut r: usize = 0;
    while r < n_rows
        invariant
            header_ok(snap@),
            cols * rows <= usize::MAX,
            cols == snap@[1] as usize,
            rows == snap@[2] as usize,
            n_rows == snap@[6] as usize,
            r <= n_rows,
            7 <= p,
            records_ok(cols as int, rows as int, snap@, 7, n_rows as nat)
                == records_ok(cols as int, rows as int, snap@, p as int, (n_rows - r) as nat),
        decreases n_rows - r,
    {
        if p >= snap.len() {
            return false;
        }
        if snap[p] as usize >= rows {
            return false;
        }
        let p1 = p + 1;
        let span = match cols.checked_mul(SNAPSHOT_CELL_WORDS) {
            Some(v) => v,
            None => return false,
        };
        if span > snap.len() - p1 {
            return false;
        }
        assert(record_ok(cols as int, rows as int, snap@, p as int));
        p = p1 + span;
        r = r + 1;
    }
    true
}

/// A snapshot buffer with a valid header: the magic word and all seven
/// header words.
pub open spec fn header_ok(snap: Seq<u32>) -> bool {
    snap.len() >= 7 && snap[0] == SNAPSHOT_MAGIC
}

impl Grid {
    /// The cells vector holds exactly `cols * rows` cells.
    pub open spec fn wf(&self) -> bool {
        self.cells@.len() == self.cols * self.rows
    }

    /// Index of cell `(x, y)` in `cells` (row-major).
    pub fn index(&self, x: usize, y: usize) -> (i: usize)
        requires
            y * self.cols + x <= usize::MAX,
        ensures
            i == y * self.cols + x,
    {
        y * self.cols + x
    }

    /// The cell at `(x, y)`.
    pub fn cell(&self, x: usize, y: usize) -> (c: GCell)
        requires
            y * self.cols + x < self.cells@.len(),
        ensures
            c == self.cells@[y * self.cols + x],
    {
        let n = self.cells.len();
        assert(y * self.cols + x < n);
        self.cells[self.index(x, y)]
    }

    /// Patch the grid from a snapshot buffer. A malformed buffer (wrong magic,
    /// truncated, a row record out of range, or a size no grid can hold)
    /// leaves the grid as it was,
    /// beyond clearing the per-frame change record. Otherwise the header sets
    /// size and cursor (a size change reallocates a blank grid and marks the
    /// frame full), and each row record overwrites its row.
    pub fn apply(&mut self, snap: &[u32])
        requires
            old(self).wf(),
        ensures
            final(self).wf(),
            !snapshot_ok(snap@) ==> {
                &&& final(self).cells == old(self).cells
                &&& final(self).cols == old(self).cols
                &&& final(self).rows == old(self).rows
                &&& final(self).cursor_x == old(self).cursor_x
                &&& final(self).cursor_y == old(self).cursor_y
                &&& final(self).cursor_visible == old(self).cursor_visible
                &&& final(self).cursor_blink == old(self).cursor_blink
                &&& final(self).cursor_on_screen == old(self).cursor_on_screen
                &&& final(self).dirty_rows@.len() == 0
                &&& !final(self).full
            },
            snapshot_ok(snap@) ==> {
                let cols = snap@[1] as int;
                let rows = snap@[2] as int;
                let resized = cols != old(self).cols || rows != old(self).rows;
                let start = if resized { Seq::new((cols * rows) as nat, |i: int| blank_gcell()) } else { old(self).cells@ };
                &&& final(self).cols == cols
                &&& final(self).rows == rows
                &&& final(self).cursor_x == snap@[3] as usize
                &&& final(self).cursor_y == snap@[4] as usize
                &&& final(self).cursor_visible == (snap@[5] % 2 == 1)
                &&& final(self).cursor_blink == ((snap@[5] / 2) % 2 == 1)
                &&& final(self).cursor_on_screen == ((snap@[5] / 4) % 2 == 1)
                &&& final(self).full == resized
                &&& final(self).cells@ == patch_cells(start, cols, rows, snap@, 7, snap@[6] as nat)
                &&& final(self).dirty_rows@ == (if resized { Seq::<usize>::empty() } else { patch_rows(cols, rows, snap@, 7, snap@[6] as nat) })
            },
    {
        self.dirty_rows.clear();
        self.full = false;
        if !snapshot_complete(snap) {
            return;
        }
        let cols = snap[1] as usize;
        let rows = snap[2] as usize;
        self.cursor_x = snap[3] as usize;
        self.cursor_y = snap[4] as usize;
        let cflags = snap[5];
        self.cursor_visible = cflags % 2 == 1;
        self.cursor_blink = (cflags / 2) % 2 == 1;
        self.cursor_on_screen = (cflags / 4) % 2 == 1;
        let n_rows = snap[6] as usize;
        let ghost resized = cols != self.cols || rows != self.rows;
        if cols != self.cols || rows != self.rows {
            let total = cols * rows;
            let mut cells: Vec<GCell> = Vec::with_capacity(total);
            let mut k: usize = 0;
            while k < total
                invariant
                    k <= total,
                    cells@.len() == k,
                    forall|i: int| 0 <= i < k ==> #[trigger] cells@[i] == blank_gcell(),
                decreases total - k,
            {
                cells.push(GCell { cp: 0, fg: 0, bg: 0, flags: 0, link: 0, grapheme: 0 });
                k = k + 1;
            }
            assert(cells@ =~= Seq::new((cols * rows) as nat, |i: int| blank_gcell()));
            self.cells = cells;
            self.cols = cols;
            self.rows = rows;
            self.full = true;
        }
        let ghost target = patch_cells(self.cells@, cols as int, rows as int, snap@, 7, n_rows as nat);
        let ghost target_rows = patch_rows(cols as int, rows as int, snap@, 7, n_rows as nat);
        let mut p: usize = 7;
        let mut r: usize = 0;
        while r < n_rows
            invariant
                self.wf(),
                self.cols == cols,
                self.rows == rows,
                self.cursor_x == snap@[3] as usize,
                self.cursor_y == snap@[4] as usize,
                self.cursor_visible == (snap@[5] % 2 == 1),
                self.cursor_blink == ((snap@[5] / 2) % 2 == 1),
                self.cursor_on_screen == ((snap@[5] / 4) % 2 == 1),
                self.full == resized,
                cols == snap@[1] as usize,
                rows == snap@[2] as usize,
                cols * rows <= usize::MAX,
                r <= n_rows,
                7 <= p,
                patch_cells(self.cells@, cols as int, rows as int, snap@, p as int, (n_rows - r) as nat) == target,
                self.full ==> self.dirty_rows@.len() == 0,
                !self.full ==> self.dirty_rows@ + patch_rows(cols as int, rows as int, snap@, p as int, (n_rows - r) as nat) == target_rows,
            ensures
                r < n_rows ==> !record_ok(cols as int, rows as int, snap@, p as int),
            decreases n_rows - r,
        {
            if p >= snap.len() {
                break;
            }
            let y = snap[p] as usize;
            let p1 = p + 1;
            let span = match cols.checked_mul(SNAPSHOT_CELL_WORDS) {
                Some(v) => v,
                None => break,
            };
            if y >= rows || span > snap.len() - p1 {
                break;
            }
            assert(record_ok(cols as int, rows as int, snap@, p as int));
            assert(y * cols <= y * cols + cols <= cols * rows) by (nonlinear_arith)
                requires
                    y < rows,
            ;
            let base = y * cols;
            let end = p1 + span;
            let ghost before = self.cells@;
            let ghost dr = self.dirty_rows@;
            let mut x: usize = 0;
            while x < cols
                invariant
                    self.wf(),
                    self.cols == cols,
                    self.rows == rows,
                    self.cursor_x == snap@[3] as usize,
                    self.cursor_y == snap@[4] as usize,
                    self.cursor_visible == (snap@[5] % 2 == 1),
                    self.cursor_blink == ((snap@[5] / 2) % 2 == 1),
                    self.cursor_on_screen == ((snap@[5] / 4) % 2 == 1),
                    self.full == resized,
                    self.dirty_rows@ == dr,
                    before.len() == self.cells@.len(),
                    base == y * cols,
                    base + cols <= self.cells@.len(),
                    span == cols * SNAPSHOT_CELL_WORDS,
                    end == p1 + span,
                    end <= snap@.len(),
                    cols * rows <= usize::MAX,
                    x <= cols,
                    forall|i: int| 0 <= i < self.cells@.len() ==> #[trigger] self.cells@[i] == (
                        if base <= i < base + x { gcell_at(snap@, p1 + (i - base) * 6) } else { before[i] }),
                decreases cols - x,
            {
                assert(x * 6 + 6 <= cols * 6) by (nonlinear_arith)
                    requires
                        x < cols,
                ;
                let o = p1 + x * SNAPSHOT_CELL_WORDS;
                self.cells.set(base + x, GCell {
                    cp: snap[o],
                    fg: snap[o + 1],
                    bg: snap[o + 2],
                    flags: #[verifier::truncate] (snap[o + 3] as u16),
                    link: snap[o + 4],
                    grapheme: snap[o + 5],
                });
                x = x + 1;
            }
            assert(self.cells@ =~= row_written(before, cols as int, y as int, snap@, p1 as int));
            p = end;
            if !self.full {
                assert(self.dirty_rows@.push(y) + patch_rows(cols as int, rows as int, snap@, p as int, (n_rows - r - 1) as nat)
                    =~= self.dirty_rows@ + patch_rows(cols as int, rows as int, snap@, (p1 - 1) as int, (n_rows - r) as nat));
                self.dirty_rows.push(y);
            }
            r = r + 1;
        }
        assert(self.dirty_rows@ + Seq::<usize>::empty() =~= self.dirty_rows@);
    }
}

// --- a forced snapshot decodes to the viewport ---------------------------------------

/// The decoded form of terminal cell `c`.
pub open spec fn gcell_of(c: Cell) -> GCell {
    GCell { cp: c.ch as u32, fg: packed_color(c.pen.fg), bg: packed_color(c.pen.bg), flags: c.pen.flags, link: c.link,
        grapheme: c.grapheme }
}

/// The viewport of `t` as decoded cells, row-major.
pub open spec fn viewport_gcells(t: &Terminal) -> Seq<GCell> {
    let c = t.spec_cols() as int;
    Seq::new((c * t.spec_rows()) as nat, |i: int| gcell_of(cell_or_default(t.view_row(i / c).cells, i % c)))
}

/// `start` with its first `k` rows taken from the viewport.
spec fn decoded_rows(t: &Terminal, start: Seq<GCell>, k: int) -> Seq<GCell> {
    Seq::new(start.len(), |i: int| if i < k * t.spec_cols() { viewport_gcells(t)[i] } else { start[i] })
}

proof fn lemma_decode_from(t: &Terminal, start: Seq<GCell>, k: int)
    requires
        t.wf(),
        1 <= t.spec_cols() <= u32::MAX,
        1 <= t.spec_rows() <= u32::MAX,
        start.len() == t.spec_cols() * t.spec_rows(),
        0 <= k <= t.spec_rows(),
    ensures
        ({
            let c = t.spec_cols() as int;
            let r = t.spec_rows() as int;
            let words = t.snapshot_words(true);
            &&& patch_cells(decoded_rows(t, start, k), c, r, words, 7 + k * (6 * c + 1), (r - k) as nat) == viewport_gcells(t)
            &&& patch_rows(c, r, words, 7 + k * (6 * c + 1), (r - k) as nat) == Seq::new((r - k) as nat, |j: int| (k + j) as usize)
        }),
    decreases t.spec_rows() - k,
{
    let c = t.spec_cols() as int;
    let r = t.spec_rows() as int;
    let words = t.snapshot_words(true);
    let p = 7 + k * (6 * c + 1);
    t.lemma_snapshot_layout(true);
    t.lemma_forced_rows(r);
    let body = t.rows_words(true, r);
    assert(words.len() == 7 + r * (6 * c + 1));
    if k == r {
        assert(c * r == r * c) by (nonlinear_arith);
        assert(decoded_rows(t, start, k) =~= viewport_gcells(t));
        assert(patch_rows(c, r, words, p, 0) =~= Seq::new(0, |j: int| (k + j) as usize));
    } else {
        assert((k + 1) * (6 * c + 1) <= r * (6 * c + 1)) by (nonlinear_arith)
            requires
                k + 1 <= r,
                c >= 1,
        ;
        assert(p + 1 + c * 6 == 7 + (k + 1) * (6 * c + 1)) by (nonlinear_arith)
            requires
                p == 7 + k * (6 * c + 1),
        ;
        t.lemma_forced_word(r, k, 0, 0);
        assert(words[p] == body[k * (6 * c + 1)]);
        assert(words[p] == k as u32);
        assert(record_ok(c, r, words, p));
        let cur = decoded_rows(t, start, k);
        let next = decoded_rows(t, start, k + 1);
        assert(k * c + c <= r * c) by (nonlinear_arith)
            requires
                k + 1 <= r,
                c >= 1,
        ;
        assert(row_written(cur, c, k, words, p + 1) =~= next) by {
            assert forall|i: int| 0 <= i < start.len() implies #[trigger] row_written(cur, c, k, words, p + 1)[i] == next[i] by {
                assert((k + 1) * c == k * c + c) by (nonlinear_arith);
                if k * c <= i < k * c + c {
                    let x = i - k * c;
                    lemma_fundamental_div_mod_converse(i, c, k, x);
                    let cell = cell_or_default(t.view_row(k).cells, x);
                    assert(k * (6 * c + 1) + 1 + 6 * x + 5 < body.len()) by (nonlinear_arith)
                        requires
                            0 <= x < c,
                            k + 1 <= r,
                            body.len() == r * (6 * c + 1),
                    ;
                    assert forall|j: int| 0 <= j < 6 implies words[p + 1 + x * 6 + j] == #[trigger] cell_words(cell)[j] by {
                        t.lemma_forced_word(r, k, x, j);
                        assert(p + 1 + x * 6 + j == 7 + (k * (6 * c + 1) + 1 + 6 * x + j));
                    }
                    assert(cell_words(cell)[0] == words[p + 1 + x * 6 + 0]);
                    assert(cell_words(cell)[3] == words[p + 1 + x * 6 + 3]);
                    assert(gcell_at(words, p + 1 + x * 6) == gcell_of(cell));
                }
            }
        }
        lemma_decode_from(t, start, k + 1);
        assert(p + 1 + c * 6 == 7 + (k + 1) * (6 * c + 1));
        assert(patch_rows(c, r, words, p, (r - k) as nat)
            =~= Seq::new((r - k) as nat, |j: int| (k + j) as usize));
    }
}

/// A forced snapshot carries the whole viewport: decoded into a grid of any
/// contents, it gives the terminal's size, every row as changed, and exactly
/// the terminal's visible cells.
pub proof fn lemma_forced_snapshot_decodes(t: &Terminal, start: Seq<GCell>)
    requires
        t.wf(),
        t.spec_cols() <= u32::MAX,
        t.spec_rows() <= u32::MAX,
        start.len() == t.spec_cols() * t.spec_rows(),
    ensures
        header_ok(t.snapshot_words(true)),
        t.snapshot_words(true)[1] as int == t.spec_cols(),
        t.snapshot_words(true)[2] as int == t.spec_rows(),
        patch_cells(start, t.spec_cols() as int, t.spec_rows() as int, t.snapshot_words(true),
            7, t.snapshot_words(true)[6] as nat) == viewport_gcells(t),
        patch_rows(t.spec_cols() as int, t.spec_rows() as int, t.snapshot_words(true), 7,
            t.snapshot_words(true)[6] as nat) == Seq::new(t.spec_rows() as nat, |y: int| y as usize),
{
    t.lemma_wf_size();
    t.lemma_snapshot_layout(true);
    t.lemma_forced_rows(t.spec_rows() as int);
    lemma_decode_from(t, start, 0);
    assert(decoded_rows(t, start, 0) =~= start);
    assert(Seq::new(t.spec_rows() as nat, |j: int| (0 + j) as usize) =~= Seq::new(t.spec_rows() as nat, |y: int| y as usize));
}

// --- selection ------------------------------------------------------------------

/// An inclusive selection range, normalized so `start` is at or before `end`
/// in row-major (reading) order. Endpoints are `(column, line)`.
#[derive(Clone, Copy, PartialEq, Eq, Debug)]
pub struct Selection {
    pub start: (usize, usize),
    pub end: (usize, usize),
}

/// `a` comes no later than `b` in reading order.
pub open spec fn reading_le(a: (usize, usize), b: (usize, usize)) -> bool {
    a.1 < b.1 || (a.1 == b.1 && a.0 <= b.0)
}

/// Whether `(x, y)` lies in the flow selection from `s` to `e`.
pub open spec fn in_flow(s: (usize, usize), e: (usize, usize), x: usize, y: usize) -> bool {
    if y < s.1 || y > e.1 {
        false
    } else if s.1 == e.1 {
        s.0 <= x <= e.0
    } else if y == s.1 {
        x >= s.0
    } else if y == e.1 {
        x <= e.0
    } else {
        true
    }
}

/// The normalized selection between two endpoints.
pub open spec fn normalized(a: (usize, usize), b: (usize, usize)) -> Selection {
    if reading_le(a, b) { Selection { start: a, end: b } } else { Selection { start: b, end: a } }
}

/// Which endpoint is the anchor does not matter: selecting from `a` to `b`
/// and from `b` to `a` give the same selection.
pub proof fn lemma_selection_symmetric(a: (usize, usize), b: (usize, usize))
    ensures
        normalized(a, b) == normalized(b, a),
{
}

/// A normalized selection holds exactly the cells from its start to its end
/// in reading order, both ends included.
pub proof fn lemma_contains_reading_order(s: Selection, x: usize, y: usize)
    requires
        reading_le(s.start, s.end),
    ensures
        in_flow(s.start, s.end, x, y) == (reading_le(s.start, (x, y)) && reading_le((x, y), s.end)),
{
}

impl Selection {
    /// A normalized selection from two endpoints (anchor and focus).
    pub fn new(a: (usize, usize), b: (usize, usize)) -> (s: Selection)
        ensures
            s == normalized(a, b),
            reading_le(s.start, s.end),
    {
        if a.1 < b.1 || (a.1 == b.1 && a.0 <= b.0) {
            Selection { start: a, end: b }
        } else {
            Selection { start: b, end: a }
        }
    }

    /// A single cell (anchor == focus) is no selection: a plain click clears.
    pub fn is_empty(&self) -> (b: bool)
        ensures
            b == (self.start == self.end),
    {
        self.start.0 == self.end.0 && self.start.1 == self.end.1
    }

    /// Whether cell `(x, y)` falls inside the flow selection.
    pub fn contains(&self, x: usize, y: usize) -> (b: bool)
        ensures
            b == in_flow(self.start, self.end, x, y),
    {
        let (sx, sy) = self.start;
        let (ex, ey) = self.end;
        if y < sy || y > ey {
            return false;
        }
        if sy == ey {
            x >= sx && x <= ex
        } else if y == sy {
            x >= sx
        } else if y == ey {
            x <= ex
        } else {
            true
        }
    }
}

/// Character class for word selection: word characters (identifiers and
/// common URL / path punctuation) group together, whitespace groups, and the
/// rest groups as "other".
#[derive(PartialEq, Eq, Clone, Copy, Debug, Structural)]
pub enum Class {
    Word,
    Space,
    Other,
}

/// Whether `c` is alphabetic or numeric in the Unicode sense
/// (`char::is_alphanumeric`).
pub uninterp spec fn alphanumeric(c: char) -> bool;

/// `char::is_alphanumeric`: its result is the named Unicode property; the
/// property tables take pages, so nothing more is stated here.
#[verifier::external_body]
fn is_alphanumeric(c: char) -> (b: bool)
    ensures
        b == alphanumeric(c),
{
    c.is_alphanumeric()
}

/// The punctuation that counts as part of a word (URLs and paths).
pub open spec fn word_punct(c: char) -> bool {
    c == '_' || c == '-' || c == '.' || c == '/' || c == '~' || c == ':' || c == '@' || c == '%' || c == '+'
}

/// The class of code point `cp`; a value that is not a scalar counts as space.
pub open spec fn class_spec(cp: u32) -> Class {
    if !crate::chars::is_scalar_cp(cp) {
        Class::Space
    } else if cp == 0x20 || cp == 0 {
        Class::Space
    } else if alphanumeric(cp as char) || word_punct(cp as char) {
        Class::Word
    } else {
        Class::Other
    }
}

pub fn class_of(cp: u32) -> (k: Class)
    ensures
        k == class_spec(cp),
{
    match crate::chars::char_from_u32(cp) {
        None => Class::Space,
        Some(c) => {
            if c == ' ' || c == '\0' {
                Class::Space
            } else if is_alphanumeric(c) || c == '_' || c == '-' || c == '.' || c == '/' || c == '~' || c == ':'
                || c == '@' || c == '%' || c == '+' {
                Class::Word
            } else {
                Class::Other
            }
        },
    }
}

/// The class of grid cell `(x, y)`.
pub open spec fn cell_class(g: &Grid, x: int, y: int) -> Class {
    class_spec(g.cells@[y * g.cols + x].cp)
}

/// The inclusive column range of the "word" (maximal run of one character
/// class) around `(x, y)`, for double-click selection; `(x, x)` off the grid.
pub fn word_range(grid: &Grid, x: usize, y: usize) -> (r: (usize, usize))
    requires
        grid.wf(),
    ensures
        (x >= grid.cols || y >= grid.rows) ==> r == (x, x),
        (x < grid.cols && y < grid.rows) ==> {
            &&& r.0 <= x <= r.1 < grid.cols
            &&& forall|k: int| r.0 <= k <= r.1 ==> cell_class(grid, k, y as int) == cell_class(grid, x as int, y as int)
            &&& (r.0 == 0 || cell_class(grid, r.0 - 1, y as int) != cell_class(grid, x as int, y as int))
            &&& (r.1 == grid.cols - 1 || cell_class(grid, r.1 + 1, y as int) != cell_class(grid, x as int, y as int))
        },
{
    if x >= grid.cols || y >= grid.rows {
        return (x, x);
    }
    let cols = grid.cols;
    let n = grid.cells.len();
    assert(y * cols <= y * cols + cols <= cols * grid.rows) by (nonlinear_arith)
        requires
            y < grid.rows,
    ;
    let base = y * cols;
    let here = class_of(grid.cells[base + x].cp);
    let mut lo = x;
    while lo > 0 && class_of(grid.cells[base + lo - 1].cp) == here
        invariant
            lo <= x < cols,
            cols == grid.cols,
            base == y * cols,
            n == grid.cells@.len(),
            base + cols <= n,
            here == cell_class(grid, x as int, y as int),
            forall|k: int| lo <= k <= x ==> cell_class(grid, k, y as int) == here,
        decreases lo,
    {
        lo = lo - 1;
    }
    let mut hi = x;
    while hi + 1 < cols && class_of(grid.cells[base + hi + 1].cp) == here
        invariant
            lo <= x <= hi < cols,
            cols == grid.cols,
            base == y * cols,
            n == grid.cells@.len(),
            base + cols <= n,
            here == cell_class(grid, x as int, y as int),
            forall|k: int| lo <= k <= hi ==> cell_class(grid, k, y as int) == here,
        decreases cols - hi,
    {
        hi = hi + 1;
    }
    (lo, hi)
}

} // verus!
