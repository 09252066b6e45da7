//! The cell matrix: a fixed `rows x cols` buffer with a cursor, a vertical
//! scroll region, and the low-level editing primitives the terminal drives
//! (scroll, erase, insert/delete lines and characters).
//!
//! Scrollback and alt-screen switching live one level up in the terminal; a
//! `Buffer` only knows about its own visible area.

use vstd::prelude::*;
use crate::cell::{Cell, Pen, default_cell, blank_cell, default_pen};

verus! {

/// The abstract content of a physical row: its cells and whether it was
/// produced by an auto-wrap (its content continues on the next row).
pub ghost struct LineView {
    pub cells: Seq<Cell>,
    pub wrapped: bool,
}

/// A physical row of cells plus a `wrapped` flag: `wrapped == true` means the
/// row was produced by an auto-wrap and its content logically continues on the
/// next physical row. Reflow-on-resize uses this to rejoin and re-split lines.
#[derive(Debug)]
pub struct Line {
    pub cells: Vec<Cell>,
    pub wrapped: bool,
}

impl View for Line {
    type V = LineView;

    open spec fn view(&self) -> LineView {
        LineView { cells: self.cells@, wrapped: self.wrapped }
    }
}

/// `n` copies of `c`.
pub open spec fn repeat_cell(c: Cell, n: nat) -> Seq<Cell> {
    Seq::new(n, |_i: int| c)
}

/// A row of `n` never-written cells.
pub open spec fn default_row(n: nat) -> Seq<Cell> {
    repeat_cell(default_cell(), n)
}

/// A row of `n` erased cells in `pen`.
pub open spec fn blank_row(n: nat, pen: Pen) -> Seq<Cell> {
    repeat_cell(blank_cell(pen), n)
}

/// `s` cut or padded with `fill` to exactly `n` cells.
pub open spec fn fit_cells(s: Seq<Cell>, n: nat, fill: Cell) -> Seq<Cell> {
    Seq::new(n, |i: int| if i < s.len() { s[i] } else { fill })
}

/// The views of a sequence of lines.
pub open spec fn line_views(s: Seq<Line>) -> Seq<LineView> {
    s.map_values(|l: Line| l@)
}

/// A never-written, hard-ended row of `n` cells.
pub open spec fn default_line_view(n: nat) -> LineView {
    LineView { cells: default_row(n), wrapped: false }
}

/// An erased, hard-ended row of `n` cells in `pen`.
pub open spec fn blank_line_view(n: nat, pen: Pen) -> LineView {
    LineView { cells: blank_row(n, pen), wrapped: false }
}

pub open spec fn repeat_line(l: LineView, n: nat) -> Seq<LineView> {
    Seq::new(n, |_i: int| l)
}

pub proof fn lemma_line_views_push(s: Seq<Line>, l: Line)
    ensures
        line_views(s.push(l)) == line_views(s).push(l@),
{
    assert(line_views(s.push(l)) =~= line_views(s).push(l@));
}

pub proof fn lemma_line_views_update(s: Seq<Line>, i: int, l: Line)
    requires
        0 <= i < s.len(),
    ensures
        line_views(s.update(i, l)) == line_views(s).update(i, l@),
{
    assert(line_views(s.update(i, l)) =~= line_views(s).update(i, l@));
}

impl Clone for Line {
    fn clone(&self) -> (res: Line)
        ensures
            res@ == self@,
    {
        let mut cells: Vec<Cell> = Vec::with_capacity(self.cells.len());
        let mut i: usize = 0;
        while i < self.cells.len()
            invariant
                i <= self.cells.len(),
                cells@ == self.cells@.subrange(0, i as int),
            decreases self.cells.len() - i,
        {
            cells.push(self.cells[i]);
            i = i + 1;
            assert(cells@ =~= self.cells@.subrange(0, i as int));
        }
        assert(self.cells@.subrange(0, i as int) =~= self.cells@);
        Line { cells, wrapped: self.wrapped }
    }
}

fn repeat_vec(c: Cell, n: usize) -> (v: Vec<Cell>)
    ensures
        v@ == repeat_cell(c, n as nat),
{
    let mut v: Vec<Cell> = Vec::with_capacity(n);
    let mut i: usize = 0;
    while i < n
        invariant
            i <= n,
            v@ == repeat_cell(c, i as nat),
        decreases n - i,
    {
        v.push(c);
        i = i + 1;
        assert(v@ =~= repeat_cell(c, i as nat));
    }
    v
}

impl Line {
    /// A row of `cols` default (theme-default) blank cells.
    pub fn blank(cols: usize) -> (l: Line)
        ensures
            l@ == default_line_view(cols as nat),
    {
        Line { cells: repeat_vec(Cell::empty(), cols), wrapped: false }
    }

    /// A row of `cols` blanks that keep `pen`'s background (erase semantics).
    pub fn filled(cols: usize, pen: Pen) -> (l: Line)
        ensures
            l@ == blank_line_view(cols as nat, pen),
    {
        Line { cells: repeat_vec(Cell::blank(pen), cols), wrapped: false }
    }

    /// Wrap an existing cell vector (used by reflow).
    pub fn from_cells(cells: Vec<Cell>, wrapped: bool) -> (l: Line)
        ensures
            l@ == (LineView { cells: cells@, wrapped }),
    {
        Line { cells, wrapped }
    }

    pub fn len(&self) -> (n: usize)
        ensures
            n == self@.cells.len(),
    {
        self.cells.len()
    }

    /// Cut or pad (with `fill`) the row to exactly `n` cells.
    pub fn fit(&mut self, n: usize, fill: Cell)
        ensures
            final(self)@ == (LineView {
                cells: fit_cells(old(self)@.cells, n as nat, fill),
                wrapped: old(self)@.wrapped,
            }),
    {
        let ghost old_cells = self.cells@;
        if n <= self.cells.len() {
            self.cells.truncate(n);
            assert(self.cells@ =~= fit_cells(old_cells, n as nat, fill));
        } else {
            while self.cells.len() < n
                invariant
                    old_cells.len() <= self.cells@.len() <= n,
                    self.wrapped == old(self).wrapped,
                    forall|i: int|
                        0 <= i < self.cells@.len() ==> #[trigger] self.cells@[i] == (if i
                            < old_cells.len() {
                            old_cells[i]
                        } else {
                            fill
                        }),
                decreases n - self.cells.len(),
            {
                self.cells.push(fill);
            }
            assert(self.cells@ =~= fit_cells(old_cells, n as nat, fill));
        }
    }
}

/// Cursor position and the pending-wrap flag (deferred auto-wrap at the last
/// column, per DEC/VT behavior).
#[derive(Clone, Copy, Debug, PartialEq, Eq, Structural)]
pub struct Cursor {
    pub x: usize,
    pub y: usize,
    /// Set after printing into the last column; the next printable char wraps
    /// first instead of the char that filled the column.
    pub pending_wrap: bool,
}

impl Default for Cursor {
    fn default() -> (c: Cursor)
        ensures
            c == (Cursor { x: 0, y: 0, pending_wrap: false }),
    {
        Cursor { x: 0, y: 0, pending_wrap: false }
    }
}

/// A saved cursor (DECSC/DECRC) — position plus the pen in effect.
#[derive(Clone, Copy, Debug, PartialEq, Eq, Structural)]
pub struct SavedCursor {
    pub x: usize,
    pub y: usize,
    pub pen: Pen,
    pub link: u32,
}

impl Default for SavedCursor {
    fn default() -> (s: SavedCursor)
        ensures
            s == (SavedCursor { x: 0, y: 0, pen: default_pen(), link: 0 }),
    {
        SavedCursor { x: 0, y: 0, pen: Pen::new(), link: 0 }
    }
}

/// `s` with `lo..hi` overwritten by `c`.
pub open spec fn fill_range(s: Seq<Cell>, lo: int, hi: int, c: Cell) -> Seq<Cell> {
    Seq::new(s.len(), |i: int| if lo <= i < hi { c } else { s[i] })
}

/// `s` with `n` copies of `b` inserted at `x`; cells pushed past the end drop off.
pub open spec fn insert_blank_cells(s: Seq<Cell>, x: int, n: int, b: Cell) -> Seq<Cell> {
    Seq::new(s.len(), |i: int| if i < x { s[i] } else if i < x + n { b } else { s[i - n] })
}

/// `s` with the `n` cells at `x` removed, the rest shifted left and `b` filled
/// in at the end.
pub open spec fn delete_cells(s: Seq<Cell>, x: int, n: int, b: Cell) -> Seq<Cell> {
    Seq::new(s.len(), |i: int| if i < x { s[i] } else if i + n < s.len() { s[i + n] } else { b })
}

/// A count `n` clamped to the columns from `x` to the end of the row.
pub open spec fn clamp_count(n: usize, cols: usize, x: usize) -> int {
    if n < cols - x { n as int } else { cols - x }
}

/// Rows `top+k..=bottom` moved up to `top`, the `k` rows at the bottom of the
/// region replaced by `bl`; rows outside the region untouched.
pub open spec fn region_up(s: Seq<LineView>, top: int, bottom: int, k: int, bl: LineView) -> Seq<LineView> {
    Seq::new(
        s.len(),
        |j: int|
            if j < top || j > bottom {
                s[j]
            } else if j <= bottom - k {
                s[j + k]
            } else {
                bl
            },
    )
}

/// Rows `top..=bottom-k` moved down by `k`, the `k` rows at the top of the
/// region replaced by `bl`; rows outside the region untouched.
pub open spec fn region_down(s: Seq<LineView>, top: int, bottom: int, k: int, bl: LineView) -> Seq<LineView> {
    Seq::new(
        s.len(),
        |j: int|
            if j < top || j > bottom {
                s[j]
            } else if j < top + k {
                bl
            } else {
                s[j - k]
            },
    )
}

/// `lines` cut to `rows` rows, each cut or padded to `cols` default cells, and
/// padded with default rows up to `rows`.
pub open spec fn fitted_lines(lines: Seq<Line>, cols: nat, rows: nat) -> Seq<LineView> {
    Seq::new(
        rows,
        |y: int|
            if y < lines.len() {
                LineView { cells: fit_cells(lines[y]@.cells, cols, default_cell()), wrapped: lines[y]@.wrapped }
            } else {
                default_line_view(cols)
            },
    )
}

fn fit_lines(lines: Vec<Line>, cols: usize, rows: usize) -> (out: Vec<Line>)
    ensures
        line_views(out@) == fitted_lines(lines@, cols as nat, rows as nat),
        out@.len() == rows,
{
    let ghost input = lines@;
    let mut lines = lines;
    lines.truncate(rows);
    let mut out: Vec<Line> = Vec::with_capacity(rows);
    let ghost target = fitted_lines(input, cols as nat, rows as nat);
    // Drain `lines` front to back by reversing it and popping.
    let mut rev: Vec<Line> = Vec::with_capacity(lines.len());
    while lines.len() > 0
        invariant
            lines@.len() <= rows,
            lines@.len() <= input.len(),
            lines@ == input.subrange(0, lines@.len() as int),
            rev@.len() + lines@.len() == if input.len() < rows { input.len() } else { rows as nat },
            forall|j: int| 0 <= j < rev@.len() ==> #[trigger] rev@[j] == input[rev@.len() + lines@.len() - 1 - j],
        decreases lines.len(),
    {
        let l = lines.pop().unwrap();
        rev.push(l);
        assert(lines@ =~= input.subrange(0, lines@.len() as int));
    }
    let n = rev.len();
    while rev.len() > 0
        invariant
            n == if input.len() < rows { input.len() } else { rows as nat },
            n <= rows,
            target == fitted_lines(input, cols as nat, rows as nat),
            rev@.len() + out@.len() == n,
            forall|j: int| 0 <= j < rev@.len() ==> #[trigger] rev@[j] == input[n - 1 - j],
            line_views(out@) == target.subrange(0, out@.len() as int),
        decreases rev.len(),
    {
        let mut l = rev.pop().unwrap();
        let ghost k = out@.len() as int;
        assert(l == input[k]);
        let ghost l0 = l@;
        l.fit(cols, Cell::empty());
        assert(k < input.len());
        assert(l@.cells == fit_cells(l0.cells, cols as nat, default_cell()));
        assert(l@.wrapped == l0.wrapped);
        assert(target[k] == LineView { cells: fit_cells(input[k]@.cells, cols as nat, default_cell()), wrapped: input[k]@.wrapped });
        assert(l@ == target[k]);
        proof {
            lemma_line_views_push(out@, l);
        }
        out.push(l);
        assert(line_views(out@) =~= target.subrange(0, out@.len() as int));
    }
    while out.len() < rows
        invariant
            out@.len() <= rows,
            n <= out@.len(),
            n == if input.len() < rows { input.len() } else { rows as nat },
            target == fitted_lines(input, cols as nat, rows as nat),
            line_views(out@) == target.subrange(0, out@.len() as int),
        decreases rows - out.len(),
    {
        let l = Line::blank(cols);
        proof {
            lemma_line_views_push(out@, l);
        }
        out.push(l);
        assert(line_views(out@) =~= target.subrange(0, out@.len() as int));
    }
    assert(line_views(out@) =~= target);
    out
}

pub struct Buffer {
    pub cols: usize,
    pub rows: usize,
    pub lines: Vec<Line>,
    pub cursor: Cursor,
    pub saved: SavedCursor,
    /// Inclusive scroll region [top, bottom] in row coordinates.
    pub scroll_top: usize,
    pub scroll_bottom: usize,
    /// Per-row dirty flags consumed by the renderer.
    pub dirty: Vec<bool>,
}

impl Buffer {
    /// Every row is to be redrawn and the scroll region is the whole screen.
    pub open spec fn redrawn_whole(&self) -> bool {
        &&& self.dirty@ == all_true(self.rows as nat)
        &&& self.scroll_top == 0
        &&& self.scroll_bottom == self.rows - 1
    }
}

/// A screen edit the CSI erase / insert / delete / scroll-down finals make.
pub ghost enum Edit {
    Below,
    Above,
    All,
    LineRight,
    LineLeft,
    Line,
    InsertLines(usize),
    DeleteLines(usize),
    DeleteChars(usize),
    InsertChars(usize),
    EraseChars(usize),
    ScrollDown(usize),
}

/// The rows of `b` after `e`, erased cells taking `pen`'s background.
pub open spec fn edit_screen(b: Buffer, e: Edit, pen: Pen) -> Seq<LineView> {
    let cx = b.cursor.x as int;
    let cy = b.cursor.y as int;
    let row = b.screen()[cy];
    let blank = blank_line_view(b.cols as nat, pen);
    match e {
        Edit::Below => Seq::new(b.rows as nat, |i: int|
            if i == cy {
                LineView { cells: fill_range(b.screen()[i].cells, cx, b.cols as int, blank_cell(pen)), wrapped: false }
            } else if i > cy {
                blank
            } else {
                b.screen()[i]
            }),
        Edit::Above => Seq::new(b.rows as nat, |i: int|
            if i == cy {
                LineView { cells: fill_range(b.screen()[i].cells, 0, cx + 1, blank_cell(pen)), wrapped: b.screen()[i].wrapped }
            } else if i < cy {
                blank
            } else {
                b.screen()[i]
            }),
        Edit::All => repeat_line(blank, b.rows as nat),
        Edit::LineRight => b.screen().update(cy, LineView {
            cells: fill_range(row.cells, cx, b.cols as int, blank_cell(pen)), wrapped: false }),
        Edit::LineLeft => b.screen().update(cy, LineView {
            cells: fill_range(row.cells, 0, cx + 1, blank_cell(pen)), wrapped: row.wrapped }),
        Edit::Line => b.screen().update(cy, blank),
        Edit::InsertLines(n) => if b.cursor_in_region() {
            region_down(b.screen(), cy, b.scroll_bottom as int, b.line_count(n), blank)
        } else {
            b.screen()
        },
        Edit::DeleteLines(n) => if b.cursor_in_region() {
            region_up(b.screen(), cy, b.scroll_bottom as int, b.line_count(n), blank)
        } else {
            b.screen()
        },
        Edit::DeleteChars(n) => b.screen().update(cy, LineView {
            cells: delete_cells(row.cells, cx, clamp_count(n, b.cols, b.cursor.x), blank_cell(pen)), wrapped: row.wrapped }),
        Edit::InsertChars(n) => b.screen().update(cy, LineView {
            cells: insert_blank_cells(row.cells, cx, clamp_count(n, b.cols, b.cursor.x), blank_cell(pen)),
            wrapped: row.wrapped }),
        Edit::EraseChars(n) => b.screen().update(cy, LineView {
            cells: fill_range(row.cells, cx, cx + clamp_count(n, b.cols, b.cursor.x), blank_cell(pen)), wrapped: row.wrapped }),
        Edit::ScrollDown(n) => region_down(b.screen(), b.scroll_top as int, b.scroll_bottom as int, b.region_count(n), blank),
    }
}

/// The dirty flags of `b` after `e`: the rows it may have changed.
pub open spec fn edit_dirty(b: Buffer, e: Edit) -> Seq<bool> {
    let cy = b.cursor.y as int;
    match e {
        Edit::Below => dirty_range(b.dirty@, cy, b.rows - 1),
        Edit::Above => dirty_range(b.dirty@, 0, cy),
        Edit::All => all_true(b.rows as nat),
        Edit::InsertLines(_) | Edit::DeleteLines(_) => if b.cursor_in_region() {
            dirty_range(b.dirty@, cy, b.scroll_bottom as int)
        } else {
            b.dirty@
        },
        Edit::ScrollDown(n) => if n == 0 { b.dirty@ } else { dirty_range(b.dirty@, b.scroll_top as int, b.scroll_bottom as int) },
        _ => dirty_range(b.dirty@, cy, cy),
    }
}

/// `n` rows' worth of raised dirty flags.
pub open spec fn all_true(n: nat) -> Seq<bool> {
    Seq::new(n, |_i: int| true)
}

/// `d` with rows `lo..=hi` marked dirty.
pub open spec fn dirty_range(d: Seq<bool>, lo: int, hi: int) -> Seq<bool> {
    Seq::new(d.len(), |i: int| if lo <= i <= hi { true } else { d[i] })
}

/// Rows of `new` that are rows of `old` keep their length; a replaced row has `cols` cells.
pub proof fn lemma_rows_after_update(old_lines: Seq<Line>, new_lines: Seq<Line>, y: int, cols: usize)
    requires
        0 <= y < old_lines.len(),
        new_lines.len() == old_lines.len(),
        forall|i: int| 0 <= i < old_lines.len() && i != y ==> new_lines[i] == old_lines[i],
        forall|i: int| 0 <= i < old_lines.len() ==> #[trigger] old_lines[i]@.cells.len() == cols,
        new_lines[y]@.cells.len() == cols,
    ensures
        forall|i: int| 0 <= i < new_lines.len() ==> #[trigger] new_lines[i]@.cells.len() == cols,
{
    assert forall|i: int| 0 <= i < new_lines.len() implies #[trigger] new_lines[i]@.cells.len() == cols by {
        if i != y {
            assert(new_lines[i] == old_lines[i]);
        }
    }
}

impl Buffer {
    /// A blank row as wide as the screen, keeping `pen`'s background.
    fn blank_line(&self, pen: Pen) -> (l: Line)
        ensures
            l@ == blank_line_view(self.cols as nat, pen),
    {
        Line::filled(self.cols, pen)
    }

    /// Shape invariant: every row has `cols` cells, there are `rows` rows and
    /// dirty flags, and the cursor and scroll region lie inside the grid.
    pub open spec fn wf(&self) -> bool {
        &&& 1 <= self.cols
        &&& 1 <= self.rows
        &&& self.lines@.len() == self.rows
        &&& self.dirty@.len() == self.rows
        &&& forall|y: int| 0 <= y < self.rows ==> #[trigger] self.lines@[y]@.cells.len() == self.cols
        &&& self.scroll_top <= self.scroll_bottom < self.rows
        &&& self.cursor.x < self.cols
        &&& self.cursor.y < self.rows
    }

    /// The visible rows, top first.
    pub open spec fn screen(&self) -> Seq<LineView> {
        line_views(self.lines@)
    }

    /// The cursor at `(x, y)` clamped to the screen, with no wrap pending.
    pub open spec fn clamped(&self, x: usize, y: usize) -> Cursor {
        Cursor {
            x: if x < self.cols { x } else { (self.cols - 1) as usize },
            y: if y < self.rows { y } else { (self.rows - 1) as usize },
            pending_wrap: false,
        }
    }

    /// Everything but the rows and dirty flags is as in `o`.
    pub open spec fn same_frame(&self, o: &Buffer) -> bool {
        &&& self.cols == o.cols
        &&& self.rows == o.rows
        &&& self.cursor == o.cursor
        &&& self.saved == o.saved
        &&& self.scroll_top == o.scroll_top
        &&& self.scroll_bottom == o.scroll_bottom
    }

    pub fn new(cols: usize, rows: usize) -> (b: Buffer)
        ensures
            b.wf(),
            b.cols == if cols == 0 { 1 } else { cols },
            b.rows == if rows == 0 { 1 } else { rows },
            b.screen() == repeat_line(default_line_view(b.cols as nat), b.rows as nat),
            b.cursor == (Cursor { x: 0, y: 0, pending_wrap: false }),
            b.saved == (SavedCursor { x: 0, y: 0, pen: default_pen(), link: 0 }),
            b.scroll_top == 0,
            b.scroll_bottom == b.rows - 1,
            b.dirty@ == all_true(b.rows as nat),
    {
        let cols = if cols == 0 { 1 } else { cols };
        let rows = if rows == 0 { 1 } else { rows };
        let mut lines: Vec<Line> = Vec::with_capacity(rows);
        let mut dirty: Vec<bool> = Vec::with_capacity(rows);
        let mut i: usize = 0;
        while i < rows
            invariant
                i <= rows,
                line_views(lines@) == repeat_line(default_line_view(cols as nat), i as nat),
                dirty@ == all_true(i as nat),
            decreases rows - i,
        {
            let l = Line::blank(cols);
            proof {
                lemma_line_views_push(lines@, l);
            }
            lines.push(l);
            dirty.push(true);
            i = i + 1;
            assert(line_views(lines@) =~= repeat_line(default_line_view(cols as nat), i as nat));
            assert(dirty@ =~= all_true(i as nat));
        }
        let b = Buffer {
            cols: cols,
            rows,
            lines,
            cursor: Cursor::default(),
            saved: SavedCursor::default(),
            scroll_top: 0,
            scroll_bottom: rows - 1,
            dirty,
        };
        assert forall|y: int| 0 <= y < b.rows implies #[trigger] b.lines@[y]@.cells.len() == b.cols by {
            assert(b.screen()[y] == default_line_view(cols as nat));
        }
        b
    }

    // --- access -------------------------------------------------------------

    pub fn line(&self, y: usize) -> (l: &Line)
        requires
            y < self.lines@.len(),
        ensures
            *l == self.lines@[y as int],
    {
        &self.lines[y]
    }

    pub fn cell(&self, x: usize, y: usize) -> (c: &Cell)
        requires
            self.wf(),
            x < self.cols,
            y < self.rows,
        ensures
            *c == self.screen()[y as int].cells[x as int],
    {
        &self.lines[y].cells[x]
    }

    pub fn is_dirty(&self, y: usize) -> (b: bool)
        requires
            y < self.dirty@.len(),
        ensures
            b == self.dirty@[y as int],
    {
        self.dirty[y]
    }

    pub fn mark_dirty(&mut self, y: usize)
        requires
            old(self).wf(),
        ensures
            final(self).wf(),
            final(self).same_frame(old(self)),
            final(self).screen() == old(self).screen(),
            final(self).dirty@ == dirty_range(old(self).dirty@, y as int, y as int),
    {
        if y < self.rows {
            self.dirty.set(y, true);
        }
        assert(self.dirty@ =~= dirty_range(old(self).dirty@, y as int, y as int));
        assert(self.screen() =~= old(self).screen());
    }

    /// Overwrite cell `(x, y)` and mark its row dirty.
    pub fn set_cell(&mut self, x: usize, y: usize, c: Cell)
        requires
            old(self).wf(),
            x < old(self).cols,
            y < old(self).rows,
        ensures
            final(self).wf(),
            final(self).same_frame(old(self)),
            final(self).screen() == old(self).screen().update(
                y as int,
                LineView {
                    cells: old(self).screen()[y as int].cells.update(x as int, c),
                    wrapped: old(self).screen()[y as int].wrapped,
                },
            ),
            final(self).dirty@ == dirty_range(old(self).dirty@, y as int, y as int),
    {
        assert(self.screen()[y as int].cells.len() == self.cols);
        let line = &mut self.lines[y];
        line.cells.set(x, c);
        self.dirty.set(y, true);
        proof {
            lemma_rows_after_update(old(self).lines@, self.lines@, y as int, self.cols);
        }
        assert(self.dirty@ =~= dirty_range(old(self).dirty@, y as int, y as int));
        assert(self.screen() =~= old(self).screen().update(
            y as int,
            LineView {
                cells: old(self).screen()[y as int].cells.update(x as int, c),
                wrapped: old(self).screen()[y as int].wrapped,
            },
        ));
    }


    pub fn mark_wrapped(&mut self, y: usize)
        requires
            old(self).wf(),
        ensures
            final(self).wf(),
            final(self).same_frame(old(self)),
            final(self).dirty@ == old(self).dirty@,
            y < old(self).rows ==> final(self).screen() == old(self).screen().update(
                y as int,
                LineView { cells: old(self).screen()[y as int].cells, wrapped: true },
            ),
            y >= old(self).rows ==> final(self).screen() == old(self).screen(),
    {
        if y < self.rows {
            let line = &mut self.lines[y];
            line.wrapped = true;
            proof {
                lemma_rows_after_update(old(self).lines@, self.lines@, y as int, self.cols);
            }
            assert(self.screen() =~= old(self).screen().update(
                y as int,
                LineView { cells: old(self).screen()[y as int].cells, wrapped: true },
            ));
        }
    }

    pub fn is_wrapped(&self, y: usize) -> (b: bool)
        requires
            y < self.lines@.len(),
        ensures
            b == self.lines@[y as int]@.wrapped,
    {
        self.lines[y].wrapped
    }

    /// Mark rows `lo..=hi` dirty (those that exist).
    fn mark_range_dirty(&mut self, lo: usize, hi: usize)
        requires
            old(self).wf(),
        ensures
            final(self).wf(),
            final(self).same_frame(old(self)),
            final(self).lines == old(self).lines,
            final(self).dirty@ == dirty_range(old(self).dirty@, lo as int, hi as int),
    {
        let mut y = lo;
        while y < self.rows && y <= hi
            invariant
                self.wf(),
                self.same_frame(old(self)),
                self.lines == old(self).lines,
                lo <= y,
                y == lo || y <= hi + 1,
                self.dirty@ == dirty_range(old(self).dirty@, lo as int, y as int - 1),
            decreases self.rows - y,
        {
            self.dirty.set(y, true);
            y = y + 1;
            assert(self.dirty@ =~= dirty_range(old(self).dirty@, lo as int, y as int - 1));
        }
        assert(self.dirty@ =~= dirty_range(old(self).dirty@, lo as int, hi as int));
    }

    pub fn mark_all_dirty(&mut self)
        requires
            old(self).wf(),
        ensures
            final(self).wf(),
            final(self).same_frame(old(self)),
            final(self).lines == old(self).lines,
            final(self).dirty@ == all_true(old(self).rows as nat),
    {
        let r = self.rows;
        self.mark_range_dirty(0, r);
        assert(self.dirty@ =~= all_true(old(self).rows as nat));
    }

    pub fn clear_dirty(&mut self)
        requires
            old(self).wf(),
        ensures
            final(self).wf(),
            final(self).same_frame(old(self)),
            final(self).lines == old(self).lines,
            final(self).dirty@ == Seq::new(old(self).rows as nat, |_i: int| false),
    {
        let mut y: usize = 0;
        while y < self.rows
            invariant
                self.wf(),
                self.same_frame(old(self)),
                self.lines == old(self).lines,
                y <= self.rows,
                forall|i: int| 0 <= i < y ==> !#[trigger] self.dirty@[i],
            decreases self.rows - y,
        {
            self.dirty.set(y, false);
            y = y + 1;
        }
        assert(self.dirty@ =~= Seq::new(old(self).rows as nat, |_i: int| false));
    }

    // --- cursor -------------------------------------------------------------

    /// Move the cursor to an absolute position, clamped to the buffer, and
    /// clear the pending-wrap flag.
    pub fn goto(&mut self, x: usize, y: usize)
        requires
            old(self).wf(),
        ensures
            final(self).wf(),
            final(self).cursor == (Cursor {
                x: if x < old(self).cols { x } else { (old(self).cols - 1) as usize },
                y: if y < old(self).rows { y } else { (old(self).rows - 1) as usize },
                pending_wrap: false,
            }),
            final(self).lines == old(self).lines,
            final(self).dirty == old(self).dirty,
            final(self).cols == old(self).cols,
            final(self).rows == old(self).rows,
            final(self).saved == old(self).saved,
            final(self).scroll_top == old(self).scroll_top,
            final(self).scroll_bottom == old(self).scroll_bottom,
    {
        self.cursor.x = if x < self.cols { x } else { self.cols - 1 };
        self.cursor.y = if y < self.rows { y } else { self.rows - 1 };
        self.cursor.pending_wrap = false;
    }

    pub fn goto_col(&mut self, x: usize)
        requires
            old(self).wf(),
        ensures
            final(self).wf(),
            final(self).cursor == (Cursor {
                x: if x < old(self).cols { x } else { (old(self).cols - 1) as usize },
                y: old(self).cursor.y,
                pending_wrap: false,
            }),
            final(self).lines == old(self).lines,
            final(self).dirty == old(self).dirty,
            final(self).cols == old(self).cols,
            final(self).rows == old(self).rows,
            final(self).saved == old(self).saved,
            final(self).scroll_top == old(self).scroll_top,
            final(self).scroll_bottom == old(self).scroll_bottom,
    {
        self.cursor.x = if x < self.cols { x } else { self.cols - 1 };
        self.cursor.pending_wrap = false;
    }

    pub fn goto_row(&mut self, y: usize)
        requires
            old(self).wf(),
        ensures
            final(self).wf(),
            final(self).cursor == (Cursor {
                x: old(self).cursor.x,
                y: if y < old(self).rows { y } else { (old(self).rows - 1) as usize },
                pending_wrap: false,
            }),
            final(self).lines == old(self).lines,
            final(self).dirty == old(self).dirty,
            final(self).cols == old(self).cols,
            final(self).rows == old(self).rows,
            final(self).saved == old(self).saved,
            final(self).scroll_top == old(self).scroll_top,
            final(self).scroll_bottom == old(self).scroll_bottom,
    {
        self.cursor.y = if y < self.rows { y } else { self.rows - 1 };
        self.cursor.pending_wrap = false;
    }

    // --- row replacement ------------------------------------------------------

    /// Replace row `y` wholesale and mark it dirty.
    fn replace_row(&mut self, y: usize, cells: Vec<Cell>, wrapped: bool)
        requires
            old(self).wf(),
            y < old(self).rows,
            cells@.len() == old(self).cols,
        ensures
            final(self).wf(),
            final(self).same_frame(old(self)),
            final(self).screen() == old(self).screen().update(
                y as int,
                LineView { cells: cells@, wrapped },
            ),
            final(self).dirty@ == dirty_range(old(self).dirty@, y as int, y as int),
    {
        let ghost cv = cells@;
        let l = Line { cells, wrapped };
        proof {
            lemma_line_views_update(self.lines@, y as int, l);
        }
        self.lines.set(y, l);
        self.dirty.set(y, true);
        proof {
            lemma_rows_after_update(old(self).lines@, self.lines@, y as int, self.cols);
        }
        assert(self.dirty@ =~= dirty_range(old(self).dirty@, y as int, y as int));
        assert(self.screen() =~= old(self).screen().update(y as int, LineView { cells: cv, wrapped }));
    }

    /// Row `y`'s cells with `lo..hi` set to `c`.
    fn filled_cells(&self, y: usize, lo: usize, hi: usize, c: Cell) -> (v: Vec<Cell>)
        requires
            self.wf(),
            y < self.rows,
        ensures
            v@ == fill_range(self.screen()[y as int].cells, lo as int, hi as int, c),
    {
        let mut v: Vec<Cell> = Vec::with_capacity(self.cols);
        let mut i: usize = 0;
        let ghost row = self.screen()[y as int].cells;
        while i < self.cols
            invariant
                self.wf(),
                y < self.rows,
                row == self.screen()[y as int].cells,
                i <= self.cols,
                v@ == fill_range(row, lo as int, hi as int, c).subrange(0, i as int),
            decreases self.cols - i,
        {
            if lo <= i && i < hi {
                v.push(c);
            } else {
                v.push(self.lines[y].cells[i]);
            }
            i = i + 1;
            assert(v@ =~= fill_range(row, lo as int, hi as int, c).subrange(0, i as int));
        }
        assert(v@ =~= fill_range(row, lo as int, hi as int, c));
        v
    }

    // --- character editing --------------------------------------------------

    /// Insert `n` blank cells at the cursor, shifting the rest of the line right.
    pub fn insert_chars(&mut self, n: usize, pen: Pen)
        requires
            old(self).wf(),
        ensures
            final(self).wf(),
            final(self).same_frame(old(self)),
            final(self).screen() == edit_screen(*old(self), Edit::InsertChars(n), pen),
            final(self).dirty@ == edit_dirty(*old(self), Edit::InsertChars(n)),
    {
        let y = self.cursor.y;
        let x = self.cursor.x;
        let n = if n < self.cols - x { n } else { self.cols - x };
        let b = Cell::blank(pen);
        let ghost row = self.screen()[y as int].cells;
        let mut v: Vec<Cell> = Vec::with_capacity(self.cols);
        let mut i: usize = 0;
        while i < self.cols
            invariant
                self.wf(),
                y == self.cursor.y,
                x == self.cursor.x,
                n <= self.cols - x,
                row == self.screen()[y as int].cells,
                i <= self.cols,
                v@ == insert_blank_cells(row, x as int, n as int, b).subrange(0, i as int),
            decreases self.cols - i,
        {
            if i < x {
                v.push(self.lines[y].cells[i]);
            } else if i < x + n {
                v.push(b);
            } else {
                v.push(self.lines[y].cells[i - n]);
            }
            i = i + 1;
            assert(v@ =~= insert_blank_cells(row, x as int, n as int, b).subrange(0, i as int));
        }
        assert(v@ =~= insert_blank_cells(row, x as int, n as int, b));
        let w = self.lines[y].wrapped;
        self.replace_row(y, v, w);
    }

    /// Delete `n` cells at the cursor, shifting the rest of the line left.
    pub fn delete_chars(&mut self, n: usize, pen: Pen)
        requires
            old(self).wf(),
        ensures
            final(self).wf(),
            final(self).same_frame(old(self)),
            final(self).screen() == edit_screen(*old(self), Edit::DeleteChars(n), pen),
            final(self).dirty@ == edit_dirty(*old(self), Edit::DeleteChars(n)),
    {
        let y = self.cursor.y;
        let x = self.cursor.x;
        let n = if n < self.cols - x { n } else { self.cols - x };
        let b = Cell::blank(pen);
        let ghost row = self.screen()[y as int].cells;
        let mut v: Vec<Cell> = Vec::with_capacity(self.cols);
        let mut i: usize = 0;
        while i < self.cols
            invariant
                self.wf(),
                y == self.cursor.y,
                x == self.cursor.x,
                n <= self.cols - x,
                row == self.screen()[y as int].cells,
                i <= self.cols,
                v@ == delete_cells(row, x as int, n as int, b).subrange(0, i as int),
            decreases self.cols - i,
        {
            if i < x {
                v.push(self.lines[y].cells[i]);
            } else if n < self.cols - i {
                v.push(self.lines[y].cells[i + n]);
            } else {
                v.push(b);
            }
            i = i + 1;
            assert(v@ =~= delete_cells(row, x as int, n as int, b).subrange(0, i as int));
        }
        assert(v@ =~= delete_cells(row, x as int, n as int, b));
        let w = self.lines[y].wrapped;
        self.replace_row(y, v, w);
    }

    /// Erase `n` cells at the cursor (replace with blanks, no shifting).
    pub fn erase_chars(&mut self, n: usize, pen: Pen)
        requires
            old(self).wf(),
        ensures
            final(self).wf(),
            final(self).same_frame(old(self)),
            final(self).screen() == edit_screen(*old(self), Edit::EraseChars(n), pen),
            final(self).dirty@ == edit_dirty(*old(self), Edit::EraseChars(n)),
    {
        let y = self.cursor.y;
        let x = self.cursor.x;
        let end = if n < self.cols - x { x + n } else { self.cols };
        let v = self.filled_cells(y, x, end, Cell::blank(pen));
        let w = self.lines[y].wrapped;
        self.replace_row(y, v, w);
    }

    // --- erasing ------------------------------------------------------------

    pub fn erase_line_to_right(&mut self, pen: Pen)
        requires
            old(self).wf(),
        ensures
            final(self).wf(),
            final(self).same_frame(old(self)),
            final(self).screen() == edit_screen(*old(self), Edit::LineRight, pen),
            final(self).dirty@ == edit_dirty(*old(self), Edit::LineRight),
    {
        let y = self.cursor.y;
        let x = self.cursor.x;
        let c = self.cols;
        let v = self.filled_cells(y, x, c, Cell::blank(pen));
        self.replace_row(y, v, false);
    }

    pub fn erase_line_to_left(&mut self, pen: Pen)
        requires
            old(self).wf(),
        ensures
            final(self).wf(),
            final(self).same_frame(old(self)),
            final(self).screen() == edit_screen(*old(self), Edit::LineLeft, pen),
            final(self).dirty@ == edit_dirty(*old(self), Edit::LineLeft),
    {
        let y = self.cursor.y;
        let x = self.cursor.x;
        let v = self.filled_cells(y, 0, x + 1, Cell::blank(pen));
        let w = self.lines[y].wrapped;
        self.replace_row(y, v, w);
    }

    pub fn erase_whole_line(&mut self, pen: Pen)
        requires
            old(self).wf(),
        ensures
            final(self).wf(),
            final(self).same_frame(old(self)),
            final(self).screen() == edit_screen(*old(self), Edit::Line, pen),
            final(self).dirty@ == edit_dirty(*old(self), Edit::Line),
    {
        let y = self.cursor.y;
        let c = self.cols;
        let v = self.filled_cells(y, 0, c, Cell::blank(pen));
        proof {
            assert(v@ =~= blank_row(c as nat, pen));
        }
        self.replace_row(y, v, false);
    }

    /// Blank rows `lo..hi` (each becomes an erased, hard-ended row).
    fn erase_rows(&mut self, lo: usize, hi: usize, pen: Pen)
        requires
            old(self).wf(),
            lo <= hi <= old(self).rows,
        ensures
            final(self).wf(),
            final(self).same_frame(old(self)),
            final(self).screen() == Seq::new(
                old(self).rows as nat,
                |i: int|
                    if lo <= i < hi {
                        blank_line_view(old(self).cols as nat, pen)
                    } else {
                        old(self).screen()[i]
                    },
            ),
            final(self).dirty@ == dirty_range(old(self).dirty@, lo as int, hi - 1),
    {
        let mut y = lo;
        while y < hi
            invariant
                self.wf(),
                self.same_frame(old(self)),
                lo <= y <= hi <= self.rows,
                self.screen() == Seq::new(
                    old(self).rows as nat,
                    |i: int|
                        if lo <= i < y {
                            blank_line_view(old(self).cols as nat, pen)
                        } else {
                            old(self).screen()[i]
                        },
                ),
                self.dirty@ == dirty_range(old(self).dirty@, lo as int, y - 1),
            decreases hi - y,
        {
            let l = self.blank_line(pen);
            proof {
                lemma_line_views_update(self.lines@, y as int, l);
            }
            let ghost before = self.lines@;
            self.lines.set(y, l);
            self.dirty.set(y, true);
            proof {
                lemma_rows_after_update(before, self.lines@, y as int, self.cols);
            }
            y = y + 1;
            assert(self.screen() =~= Seq::new(
                old(self).rows as nat,
                |i: int|
                    if lo <= i < y {
                        blank_line_view(old(self).cols as nat, pen)
                    } else {
                        old(self).screen()[i]
                    },
            ));
            assert(self.dirty@ =~= dirty_range(old(self).dirty@, lo as int, y - 1));
        }
    }

    pub fn erase_below(&mut self, pen: Pen)
        requires
            old(self).wf(),
        ensures
            final(self).wf(),
            final(self).same_frame(old(self)),
            final(self).screen() == edit_screen(*old(self), Edit::Below, pen),
            final(self).dirty@ == edit_dirty(*old(self), Edit::Below),
    {
        self.erase_line_to_right(pen);
        let y = self.cursor.y;
        let r = self.rows;
        self.erase_rows(y + 1, r, pen);
        assert(self.dirty@ =~= dirty_range(old(self).dirty@, old(self).cursor.y as int, old(self).rows - 1));
        assert(self.screen() =~= Seq::new(
            old(self).rows as nat,
            |i: int|
                if i == old(self).cursor.y {
                    LineView {
                        cells: fill_range(
                            old(self).screen()[i].cells,
                            old(self).cursor.x as int,
                            old(self).cols as int,
                            blank_cell(pen),
                        ),
                        wrapped: false,
                    }
                } else if i > old(self).cursor.y {
                    blank_line_view(old(self).cols as nat, pen)
                } else {
                    old(self).screen()[i]
                },
        ));
    }

    pub fn erase_above(&mut self, pen: Pen)
        requires
            old(self).wf(),
        ensures
            final(self).wf(),
            final(self).same_frame(old(self)),
            final(self).screen() == edit_screen(*old(self), Edit::Above, pen),
            final(self).dirty@ == edit_dirty(*old(self), Edit::Above),
    {
        let y = self.cursor.y;
        self.erase_rows(0, y, pen);
        self.erase_line_to_left(pen);
        assert(self.dirty@ =~= dirty_range(old(self).dirty@, 0, old(self).cursor.y as int));
        assert(self.screen() =~= Seq::new(
            old(self).rows as nat,
            |i: int|
                if i == old(self).cursor.y {
                    LineView {
                        cells: fill_range(
                            old(self).screen()[i].cells,
                            0,
                            old(self).cursor.x + 1,
                            blank_cell(pen),
                        ),
                        wrapped: old(self).screen()[i].wrapped,
                    }
                } else if i < old(self).cursor.y {
                    blank_line_view(old(self).cols as nat, pen)
                } else {
                    old(self).screen()[i]
                },
        ));
    }

    pub fn erase_all(&mut self, pen: Pen)
        requires
            old(self).wf(),
        ensures
            final(self).wf(),
            final(self).same_frame(old(self)),
            final(self).screen() == edit_screen(*old(self), Edit::All, pen),
            final(self).dirty@ == edit_dirty(*old(self), Edit::All),
    {
        let r = self.rows;
        self.erase_rows(0, r, pen);
        assert(self.screen() =~= repeat_line(blank_line_view(old(self).cols as nat, pen), old(self).rows as nat));
        assert(self.dirty@ =~= all_true(old(self).rows as nat));
    }


    /// Borrow row `y` for editing; the row is marked dirty. The caller keeps
    /// the row at `cols` cells to keep the buffer well formed.
    pub fn line_mut(&mut self, y: usize) -> (l: &mut Line)
        requires
            y < old(self).lines@.len(),
            y < old(self).dirty@.len(),
        ensures
            *l == old(self).lines@[y as int],
            final(self).lines@ == old(self).lines@.update(y as int, *final(l)),
            final(self).dirty@ == old(self).dirty@.update(y as int, true),
            final(self).same_frame(old(self)),
    {
        self.dirty.set(y, true);
        &mut self.lines[y]
    }

    // --- whole-region row motion -------------------------------------------

    /// Move rows `top+k..=bottom` up to `top`, fill the `k` freed rows at the
    /// bottom of the region with erased rows, and hand back the `k` rows that
    /// left the region, top first.
    fn rotate_up(&mut self, top: usize, bottom: usize, k: usize, pen: Pen) -> (ev: Vec<Line>)
        requires
            old(self).wf(),
            top <= bottom < old(self).rows,
            k <= bottom - top + 1,
        ensures
            final(self).wf(),
            final(self).same_frame(old(self)),
            final(self).dirty == old(self).dirty,
            final(self).screen() == region_up(
                old(self).screen(),
                top as int,
                bottom as int,
                k as int,
                blank_line_view(old(self).cols as nat, pen),
            ),
            line_views(ev@) == old(self).screen().subrange(top as int, top + k),
    {
        let ghost os = old(self).screen();
        let ghost bl = blank_line_view(self.cols as nat, pen);
        let mut ev: Vec<Line> = Vec::new();
        let mut i: usize = 0;
        assert(self.screen() =~= region_up(os, top as int, bottom as int, 0, bl));
        assert(line_views(ev@) =~= os.subrange(top as int, top as int));
        while i < k
            invariant
                self.wf(),
                self.same_frame(old(self)),
                self.dirty == old(self).dirty,
                os == old(self).screen(),
                bl == blank_line_view(self.cols as nat, pen),
                top <= bottom < self.rows,
                k <= bottom - top + 1,
                i <= k,
                self.screen() == region_up(os, top as int, bottom as int, i as int, bl),
                line_views(ev@) == os.subrange(top as int, top + i),
            decreases k - i,
        {
            let ghost s0 = self.lines@;
            let removed = self.lines.remove(top);
            let l = self.blank_line(pen);
            self.lines.insert(bottom, l);
            proof {
                lemma_line_views_push(ev@, removed);
            }
            ev.push(removed);
            i = i + 1;
            proof {
                let ghost v0 = line_views(s0);
                assert(v0 == region_up(os, top as int, bottom as int, (i - 1) as int, bl));
                assert forall|j: int| 0 <= j < self.lines@.len() implies #[trigger] line_views(self.lines@)[j]
                    == region_up(os, top as int, bottom as int, i as int, bl)[j] by {
                    if top <= j < bottom {
                        assert(self.lines@[j] == s0[j + 1]);
                        assert(v0[j + 1] == s0[j + 1]@);
                    } else if j == bottom {
                        assert(self.lines@[j] == l);
                    } else {
                        assert(self.lines@[j] == s0[j]);
                        assert(v0[j] == s0[j]@);
                    }
                }
                assert(line_views(self.lines@) =~= region_up(os, top as int, bottom as int, i as int, bl));
                assert(removed == s0[top as int]);
                assert(v0[top as int] == s0[top as int]@);
                assert(line_views(ev@) =~= os.subrange(top as int, top + i));
                assert forall|j: int| 0 <= j < self.rows implies #[trigger] self.lines@[j]@.cells.len() == self.cols by {
                    assert(self.lines@[j]@ == line_views(self.lines@)[j]);
                    assert(line_views(old(self).lines@)[j] == old(self).lines@[j]@);
                    if j < bottom - i + 1 && j >= top {
                        assert(line_views(old(self).lines@)[j + i] == old(self).lines@[j + i]@);
                    }
                }
            }
        }
        ev
    }

    /// Move rows `top..=bottom-k` down by `k`, fill the `k` freed rows at the
    /// top of the region with erased rows; rows pushed past `bottom` are dropped.
    fn rotate_down(&mut self, top: usize, bottom: usize, k: usize, pen: Pen)
        requires
            old(self).wf(),
            top <= bottom < old(self).rows,
            k <= bottom - top + 1,
        ensures
            final(self).wf(),
            final(self).same_frame(old(self)),
            final(self).dirty == old(self).dirty,
            final(self).screen() == region_down(
                old(self).screen(),
                top as int,
                bottom as int,
                k as int,
                blank_line_view(old(self).cols as nat, pen),
            ),
    {
        let ghost os = old(self).screen();
        let ghost bl = blank_line_view(self.cols as nat, pen);
        let mut i: usize = 0;
        assert(self.screen() =~= region_down(os, top as int, bottom as int, 0, bl));
        while i < k
            invariant
                self.wf(),
                self.same_frame(old(self)),
                self.dirty == old(self).dirty,
                os == old(self).screen(),
                bl == blank_line_view(self.cols as nat, pen),
                top <= bottom < self.rows,
                k <= bottom - top + 1,
                i <= k,
                self.screen() == region_down(os, top as int, bottom as int, i as int, bl),
            decreases k - i,
        {
            let ghost s0 = self.lines@;
            let _dropped = self.lines.remove(bottom);
            let l = self.blank_line(pen);
            self.lines.insert(top, l);
            i = i + 1;
            proof {
                let ghost v0 = line_views(s0);
                assert(v0 == region_down(os, top as int, bottom as int, (i - 1) as int, bl));
                assert forall|j: int| 0 <= j < self.lines@.len() implies #[trigger] line_views(self.lines@)[j]
                    == region_down(os, top as int, bottom as int, i as int, bl)[j] by {
                    if top < j <= bottom {
                        assert(self.lines@[j] == s0[j - 1]);
                        assert(v0[j - 1] == s0[j - 1]@);
                    } else if j == top {
                        assert(self.lines@[j] == l);
                    } else {
                        assert(self.lines@[j] == s0[j]);
                        assert(v0[j] == s0[j]@);
                    }
                }
                assert(line_views(self.lines@) =~= region_down(os, top as int, bottom as int, i as int, bl));
                assert forall|j: int| 0 <= j < self.rows implies #[trigger] self.lines@[j]@.cells.len() == self.cols by {
                    assert(self.lines@[j]@ == line_views(self.lines@)[j]);
                    assert(line_views(old(self).lines@)[j] == old(self).lines@[j]@);
                    if j >= top + i && j <= bottom {
                        assert(line_views(old(self).lines@)[j - i] == old(self).lines@[j - i]@);
                    }
                }
            }
        }
    }

    // --- scrolling ----------------------------------------------------------

    /// Scroll the region up by `n` lines (content moves up; blank lines appear
    /// at the bottom). The top lines that scroll out of the region are returned,
    /// top first (the terminal feeds them to scrollback).
    pub fn scroll_up(&mut self, n: usize, pen: Pen) -> (evicted: Vec<Line>)
        requires
            old(self).wf(),
        ensures
            final(self).wf(),
            final(self).same_frame(old(self)),
            final(self).screen() == region_up(
                old(self).screen(),
                old(self).scroll_top as int,
                old(self).scroll_bottom as int,
                old(self).region_count(n),
                blank_line_view(old(self).cols as nat, pen),
            ),
            line_views(evicted@) == old(self).screen().subrange(
                old(self).scroll_top as int,
                old(self).scroll_top + old(self).region_count(n),
            ),
            final(self).dirty@ == if n == 0 {
                old(self).dirty@
            } else {
                dirty_range(old(self).dirty@, old(self).scroll_top as int, old(self).scroll_bottom as int)
            },
    {
        let top = self.scroll_top;
        let bottom = self.scroll_bottom;
        let region = bottom - top + 1;
        let k = if n < region { n } else { region };
        if k == 0 {
            assert(self.screen() =~= region_up(self.screen(), top as int, bottom as int, 0, blank_line_view(self.cols as nat, pen)));
            assert(self.screen().subrange(top as int, top as int) =~= Seq::<LineView>::empty());
            let e: Vec<Line> = Vec::new();
            assert(line_views(e@) =~= Seq::<LineView>::empty());
            return e;
        }
        let ev = self.rotate_up(top, bottom, k, pen);
        self.mark_range_dirty(top, bottom);
        ev
    }

    /// Scroll the region down by `n` lines (content moves down; blank lines
    /// appear at the top).
    pub fn scroll_down(&mut self, n: usize, pen: Pen)
        requires
            old(self).wf(),
        ensures
            final(self).wf(),
            final(self).same_frame(old(self)),
            final(self).screen() == edit_screen(*old(self), Edit::ScrollDown(n), pen),
            final(self).dirty@ == edit_dirty(*old(self), Edit::ScrollDown(n)),
    {
        let top = self.scroll_top;
        let bottom = self.scroll_bottom;
        let region = bottom - top + 1;
        let k = if n < region { n } else { region };
        if k == 0 {
            assert(self.screen() =~= region_down(self.screen(), top as int, bottom as int, 0, blank_line_view(self.cols as nat, pen)));
            return;
        }
        self.rotate_down(top, bottom, k, pen);
        self.mark_range_dirty(top, bottom);
    }

    // --- line editing -------------------------------------------------------

    /// Insert `n` blank lines at the cursor row, within the scroll region.
    pub fn insert_lines(&mut self, n: usize, pen: Pen)
        requires
            old(self).wf(),
        ensures
            final(self).wf(),
            final(self).same_frame(old(self)),
            final(self).screen() == edit_screen(*old(self), Edit::InsertLines(n), pen),
            final(self).dirty@ == edit_dirty(*old(self), Edit::InsertLines(n)),
    {
        let y = self.cursor.y;
        if y < self.scroll_top || y > self.scroll_bottom {
            return;
        }
        let bottom = self.scroll_bottom;
        let k = if n < bottom - y + 1 { n } else { bottom - y + 1 };
        self.rotate_down(y, bottom, k, pen);
        self.mark_range_dirty(y, bottom);
    }

    /// Delete `n` lines at the cursor row, within the scroll region.
    pub fn delete_lines(&mut self, n: usize, pen: Pen)
        requires
            old(self).wf(),
        ensures
            final(self).wf(),
            final(self).same_frame(old(self)),
            final(self).screen() == edit_screen(*old(self), Edit::DeleteLines(n), pen),
            final(self).dirty@ == edit_dirty(*old(self), Edit::DeleteLines(n)),
    {
        let y = self.cursor.y;
        if y < self.scroll_top || y > self.scroll_bottom {
            return;
        }
        let bottom = self.scroll_bottom;
        let k = if n < bottom - y + 1 { n } else { bottom - y + 1 };
        let _gone = self.rotate_up(y, bottom, k, pen);
        self.mark_range_dirty(y, bottom);
    }

    /// The number of rows a scroll by `n` moves: at most the region's height.
    pub open spec fn region_count(&self, n: usize) -> int {
        let region = self.scroll_bottom - self.scroll_top + 1;
        if n < region { n as int } else { region }
    }

    /// The number of rows an insert/delete of `n` lines at the cursor moves.
    pub open spec fn line_count(&self, n: usize) -> int {
        let span = self.scroll_bottom - self.cursor.y + 1;
        if n < span { n as int } else { span }
    }

    pub open spec fn cursor_in_region(&self) -> bool {
        self.scroll_top <= self.cursor.y <= self.scroll_bottom
    }

    // --- resize -------------------------------------------------------------

    /// Reflow-free resize: rows/cols are grown or truncated, cursor clamped.
    pub fn resize(&mut self, cols: usize, rows: usize)
        requires
            old(self).wf(),
        ensures
            final(self).wf(),
            final(self).cols == if cols == 0 { 1 } else { cols },
            final(self).rows == if rows == 0 { 1 } else { rows },
            final(self).screen() == Seq::new(
                final(self).rows as nat,
                |y: int|
                    if y < old(self).rows {
                        LineView {
                            cells: fit_cells(old(self).screen()[y].cells, final(self).cols as nat, default_cell()),
                            wrapped: old(self).screen()[y].wrapped,
                        }
                    } else {
                        default_line_view(final(self).cols as nat)
                    },
            ),
            final(self).dirty@ == all_true(final(self).rows as nat),
            final(self).scroll_top == 0,
            final(self).scroll_bottom == final(self).rows - 1,
            final(self).cursor == (Cursor {
                x: if old(self).cursor.x < final(self).cols { old(self).cursor.x } else { (final(self).cols - 1) as usize },
                y: if old(self).cursor.y < final(self).rows { old(self).cursor.y } else { (final(self).rows - 1) as usize },
                pending_wrap: false,
            }),
            final(self).saved == old(self).saved,
    {
        let cols = if cols == 0 { 1 } else { cols };
        let rows = if rows == 0 { 1 } else { rows };
        let ghost os = old(self).screen();
        let mut lines: Vec<Line> = Vec::new();
        std::mem::swap(&mut lines, &mut self.lines);
        let lines = fit_lines(lines, cols, rows);
        let mut dirty: Vec<bool> = Vec::with_capacity(rows);
        let mut i: usize = 0;
        while i < rows
            invariant
                i <= rows,
                dirty@ == all_true(i as nat),
            decreases rows - i,
        {
            dirty.push(true);
            i = i + 1;
            assert(dirty@ =~= all_true(i as nat));
        }
        self.lines = lines;
        self.cols = cols;
        self.rows = rows;
        self.dirty = dirty;
        self.scroll_top = 0;
        self.scroll_bottom = rows - 1;
        self.cursor.x = if self.cursor.x < cols { self.cursor.x } else { cols - 1 };
        self.cursor.y = if self.cursor.y < rows { self.cursor.y } else { rows - 1 };
        self.cursor.pending_wrap = false;
        assert forall|y: int| 0 <= y < self.rows implies #[trigger] self.lines@[y]@.cells.len() == self.cols by {
            assert(self.lines@[y]@ == self.screen()[y]);
        }
    }

    /// Replace the entire visible grid with `lines` (exactly `rows` rows, each
    /// padded/truncated to `cols`), reset the scroll region and dirty state, and
    /// place the cursor. Used by reflow-on-resize to install the rewrapped
    /// screen. `saved` is preserved.
    pub fn set_grid(&mut self, cols: usize, rows: usize, lines: Vec<Line>, cx: usize, cy: usize)
        requires
            old(self).wf(),
        ensures
            final(self).wf(),
            final(self).cols == if cols == 0 { 1 } else { cols },
            final(self).rows == if rows == 0 { 1 } else { rows },
            final(self).screen() == fitted_lines(lines@, final(self).cols as nat, final(self).rows as nat),
            final(self).dirty@ == all_true(final(self).rows as nat),
            final(self).scroll_top == 0,
            final(self).scroll_bottom == final(self).rows - 1,
            final(self).cursor == (Cursor {
                x: if cx < final(self).cols { cx } else { (final(self).cols - 1) as usize },
                y: if cy < final(self).rows { cy } else { (final(self).rows - 1) as usize },
                pending_wrap: false,
            }),
            final(self).saved == old(self).saved,
    {
        let cols = if cols == 0 { 1 } else { cols };
        let rows = if rows == 0 { 1 } else { rows };
        let ghost input = line_views(lines@);
        let lines = fit_lines(lines, cols, rows);
        let mut dirty: Vec<bool> = Vec::with_capacity(rows);
        let mut i: usize = 0;
        while i < rows
            invariant
                i <= rows,
                dirty@ == all_true(i as nat),
            decreases rows - i,
        {
            dirty.push(true);
            i = i + 1;
            assert(dirty@ =~= all_true(i as nat));
        }
        self.lines = lines;
        self.cols = cols;
        self.rows = rows;
        self.dirty = dirty;
        self.scroll_top = 0;
        self.scroll_bottom = rows - 1;
        self.cursor.x = if cx < cols { cx } else { cols - 1 };
        self.cursor.y = if cy < rows { cy } else { rows - 1 };
        self.cursor.pending_wrap = false;
        assert forall|y: int| 0 <= y < self.rows implies #[trigger] self.lines@[y]@.cells.len() == self.cols by {
            assert(self.lines@[y]@ == self.screen()[y]);
        }
    }

} // impl Buffer

} // verus!
