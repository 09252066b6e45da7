//! Reflow (rewrap) of the primary screen + scrollback on a width change.
//!
//! Terminals that don't reflow simply truncate or pad each physical line when
//! the window is resized, which mangles any text that had auto-wrapped. Reflow
//! instead treats the scrollback and screen as one continuous stream of
//! *logical* lines — a logical line being a maximal run of physical rows joined
//! across soft (auto-)wraps — and re-splits each logical line at the new width.
//!
//! Hard line breaks (explicit CR/LF) are preserved because only soft-wrapped
//! rows carry `Line::wrapped`. The cursor's position is tracked through the
//! rewrap so it lands on the same character.

use vstd::prelude::*;
use crate::attr;
use crate::cell::{Cell, default_cell};
use crate::grid::{Line, LineView, line_views, lemma_line_views_push, default_row, default_line_view};

verus! {

/// The rewrapped stream plus the cursor's new position within it.
pub struct Reflowed {
    /// All physical rows after rewrap, oldest first (scrollback then screen).
    pub rows: Vec<Line>,
    /// Index into `rows` of the row the cursor is on.
    pub cursor_row: usize,
    /// Column of the cursor within that row.
    pub cursor_col: usize,
}

/// Every row holds exactly `n` cells.
pub open spec fn all_width(rows: Seq<LineView>, n: nat) -> bool {
    forall|i: int| 0 <= i < rows.len() ==> (#[trigger] rows[i]).cells.len() == n
}

/// The left half of a double-width glyph.
pub open spec fn wide_cell(c: Cell) -> bool {
    c.pen.flags & attr::WIDE != 0
}

pub open spec fn min(a: int, b: int) -> int {
    if a < b { a } else { b }
}

// --- joining physical rows into logical lines ------------------------------------

/// `cells` with trailing default cells removed, but never shorter than
/// `floor`.
pub open spec fn trim_to(cells: Seq<Cell>, floor: int) -> Seq<Cell>
    decreases cells.len(),
{
    if cells.len() > 0 && cells.len() > floor && cells.last() == default_cell() {
        trim_to(cells.drop_last(), floor)
    } else {
        cells
    }
}

/// The trim floor for a logical line: one past the cursor, so the cursor's
/// column survives.
pub open spec fn cursor_floor(off: Option<int>) -> int {
    match off {
        Some(o) => o + 1,
        None => 0,
    }
}

/// Whether joining across a soft wrap drops the last cell of `cells`: a blank
/// there, before a row that starts with a wide glyph, is the pad an earlier
/// split left, not content.
pub open spec fn drops_pad(cells: Seq<Cell>, next: LineView) -> bool {
    cells.len() > 0 && cells.last() == default_cell() && next.cells.len() > 0 && wide_cell(next.cells[0])
}

/// The logical lines of `rows[i..]`, each with the cursor's offset in it when
/// it holds the cursor (at column `cc` of row `cr`). `cur` is the part of the
/// current logical line gathered so far, `off` the cursor's offset in it.
pub open spec fn logical_from(rows: Seq<LineView>, i: int, cur: Seq<Cell>, off: Option<int>, cr: int, cc: int)
    -> Seq<(Seq<Cell>, Option<int>)>
    decreases rows.len() - i,
{
    if i < 0 || i >= rows.len() {
        seq![]
    } else {
        let row = rows[i];
        let off1 = if i == cr { Some(cur.len() + min(cc, row.cells.len() as int)) } else { off };
        let cells = cur + row.cells;
        if row.wrapped && i + 1 < rows.len() {
            let next = if drops_pad(cells, rows[i + 1]) { cells.drop_last() } else { cells };
            logical_from(rows, i + 1, next, off1, cr, cc)
        } else {
            seq![(trim_to(cells, cursor_floor(off1)), off1)] + logical_from(rows, i + 1, seq![], None, cr, cc)
        }
    }
}

/// The logical lines of a stream of physical rows.
pub open spec fn logical_lines(rows: Seq<LineView>, cr: int, cc: int) -> Seq<(Seq<Cell>, Option<int>)> {
    logical_from(rows, 0, seq![], None, cr, cc)
}

// --- splitting a logical line at the new width -------------------------------------

/// The greedy split of `cells[..k]` into rows of `w`: the completed rows and
/// the row being filled. A wide glyph that would land in the last column is
/// moved to the next row, the column left blank.
pub open spec fn split_state(cells: Seq<Cell>, w: int, k: int) -> (Seq<Seq<Cell>>, Seq<Cell>)
    decreases k,
{
    if k <= 0 {
        (seq![], seq![])
    } else {
        let (done, last) = split_state(cells, w, k - 1);
        let cell = cells[k - 1];
        let (d1, l1) = if wide_cell(cell) && last.len() == w - 1 {
            (done.push(last.push(default_cell())), Seq::<Cell>::empty())
        } else {
            (done, last)
        };
        let l2 = l1.push(cell);
        if l2.len() == w { (d1.push(l2), Seq::<Cell>::empty()) } else { (d1, l2) }
    }
}

/// The rows a non-empty logical line splits into (no trailing empty row).
pub open spec fn split_rows(cells: Seq<Cell>, w: int) -> Seq<Seq<Cell>> {
    let (done, last) = split_state(cells, w, cells.len() as int);
    if last.len() > 0 || done.len() == 0 { done.push(last) } else { done }
}

/// Row and column where cell `k` of a logical line lands.
pub open spec fn cell_pos(cells: Seq<Cell>, w: int, k: int) -> (int, int) {
    let (done, last) = split_state(cells, w, k);
    if wide_cell(cells[k]) && last.len() == w - 1 { (done.len() + 1int, 0int) } else { (done.len() as int, last.len() as int) }
}

/// A row padded with default cells to `w`.
pub open spec fn pad_row(r: Seq<Cell>, w: int) -> Seq<Cell> {
    if r.len() < w { r + default_row((w - r.len()) as nat) } else { r }
}

/// The physical rows of one logical line at width `w`: all but the last
/// soft-wrapped; an empty line is one blank row.
pub open spec fn emit_line(cells: Seq<Cell>, w: int) -> Seq<LineView> {
    if cells.len() == 0 {
        seq![default_line_view(w as nat)]
    } else {
        let rs = split_rows(cells, w);
        Seq::new(rs.len(), |i: int| LineView { cells: pad_row(rs[i], w), wrapped: i + 1 != rs.len() })
    }
}

pub open spec fn emit_all(ls: Seq<(Seq<Cell>, Option<int>)>, w: int) -> Seq<LineView>
    decreases ls.len(),
{
    if ls.len() == 0 { seq![] } else { emit_all(ls.drop_last(), w) + emit_line(ls.last().0, w) }
}

/// Where the cursor lands within the rows of its logical line: on the cell it
/// was on, or, past the end of the content, after the last cell (kept inside
/// the row).
pub open spec fn line_cursor(cells: Seq<Cell>, off: Option<int>, w: int) -> Option<(int, int)> {
    match off {
        None => None,
        Some(o) => if cells.len() == 0 {
            Some((0, 0))
        } else if o < cells.len() {
            Some(cell_pos(cells, w, o))
        } else {
            let rs = split_rows(cells, w);
            Some(((rs.len() - 1) as int, min(rs.last().len() as int, w - 1)))
        },
    }
}

/// The cursor's row and column in the rewrapped stream; `(0, 0)` when it was
/// on no row.
pub open spec fn cursor_after(ls: Seq<(Seq<Cell>, Option<int>)>, w: int) -> (int, int)
    decreases ls.len(),
{
    if ls.len() == 0 {
        (0, 0)
    } else {
        match line_cursor(ls.last().0, ls.last().1, w) {
            Some(rc) => (emit_all(ls.drop_last(), w).len() + rc.0, rc.1),
            None => cursor_after(ls.drop_last(), w),
        }
    }
}

/// The rewrapped rows: every logical line re-split at `w`; at least one row.
pub open spec fn reflow_rows(rows: Seq<LineView>, cr: int, cc: int, w: int) -> Seq<LineView> {
    let out = emit_all(logical_lines(rows, cr, cc), w);
    if out.len() == 0 { seq![default_line_view(w as nat)] } else { out }
}

pub open spec fn reflow_cursor(rows: Seq<LineView>, cr: int, cc: int, w: int) -> (int, int) {
    cursor_after(logical_lines(rows, cr, cc), w)
}

// --- the executable rewrap ---------------------------------------------------------

fn is_wide_cell(c: &Cell) -> (b: bool)
    ensures
        b == wide_cell(*c),
{
    c.pen.flags & attr::WIDE != 0
}

/// A logical line: the concatenation of a run of soft-wrapped rows, and where
/// the cursor falls in it (if it does).
struct Logical {
    cells: Vec<Cell>,
    cur_off: Option<usize>,
}

spec fn off_view(o: Option<usize>) -> Option<int> {
    match o {
        Some(v) => Some(v as int),
        None => None,
    }
}

spec fn logical_view(l: Logical) -> (Seq<Cell>, Option<int>) {
    (l.cells@, off_view(l.cur_off))
}

spec fn logicals_view(ls: Seq<Logical>) -> Seq<(Seq<Cell>, Option<int>)> {
    ls.map_values(|l: Logical| logical_view(l))
}

proof fn lemma_trim_step(cells: Seq<Cell>, floor: int)
    requires
        cells.len() > 0,
        cells.len() > floor,
        cells.last() == default_cell(),
    ensures
        trim_to(cells, floor) == trim_to(cells.drop_last(), floor),
{
}

/// Join `phys` into logical lines (see `logical_lines`).
fn join_rows(phys: &[Line], cursor_row: usize, cursor_col: usize) -> (out: Vec<Logical>)
    ensures
        logicals_view(out@) == logical_lines(line_views(phys@), cursor_row as int, cursor_col as int),
{
    let ghost rows = line_views(phys@);
    let ghost cr = cursor_row as int;
    let ghost cc = cursor_col as int;
    let ghost target = logical_lines(rows, cr, cc);
    let n = phys.len();
    let mut logicals: Vec<Logical> = Vec::new();
    let mut cells: Vec<Cell> = Vec::new();
    let mut cur_off: Option<usize> = None;
    let mut i: usize = 0;
    assert(logicals_view(logicals@) + logical_from(rows, 0, cells@, off_view(cur_off), cr, cc) =~= target);
    while i < n
        invariant
            i <= n,
            n == phys@.len(),
            rows == line_views(phys@),
            rows.len() == n,
            cr == cursor_row as int,
            cc == cursor_col as int,
            logicals_view(logicals@) + logical_from(rows, i as int, cells@, off_view(cur_off), cr, cc) == target,
        decreases n - i,
    {
        let ghost lv = logicals_view(logicals@);
        let ghost before = cells@;
        let ghost off0 = off_view(cur_off);
        let row = &phys[i];
        assert(rows[i as int] == row@);
        let base = cells.len();
        let mut k: usize = 0;
        while k < row.cells.len()
            invariant
                k <= row.cells@.len(),
                cells@ == before + row.cells@.take(k as int),
                base == before.len(),
            decreases row.cells.len() - k,
        {
            cells.push(row.cells[k]);
            k = k + 1;
            assert(cells@ =~= before + row.cells@.take(k as int));
        }
        assert(row.cells@.take(k as int) =~= row.cells@);
        let len = cells.len();
        if i == cursor_row {
            let c = if cursor_col < row.cells.len() { cursor_col } else { row.cells.len() };
            assert(c as int == min(cc, row@.cells.len() as int));
            cur_off = Some(base + c);
            assert(off_view(cur_off) == Some(before.len() + min(cc, row@.cells.len() as int)));
        }
        let ghost off1 = off_view(cur_off);
        if row.wrapped && i + 1 < n {
            assert(rows[i + 1] == phys@[i + 1]@);
            if cells.len() > 0 && cells[cells.len() - 1] == Cell::empty() && phys[i + 1].cells.len() > 0
                && is_wide_cell(&phys[i + 1].cells[0]) {
                cells.pop();
            }
            i = i + 1;
        } else {
            let floor: usize = match cur_off {
                Some(o) => if o < usize::MAX { o + 1 } else { o },
                None => 0,
            };
            let ghost fl = cursor_floor(off1);
            let ghost untrimmed = cells@;
            while cells.len() > floor && cells[cells.len() - 1] == Cell::empty()
                invariant
                    trim_to(cells@, fl) == trim_to(untrimmed, fl),
                    fl == cursor_floor(off_view(cur_off)),
                    floor == fl || (floor == usize::MAX && fl == usize::MAX + 1),
                decreases cells.len(),
            {
                proof { lemma_trim_step(cells@, fl); }
                cells.pop();
            }
            let _ = cells.len();
            assert(trim_to(cells@, fl) == cells@);
            let ghost item = (cells@, off1);
            let mut fresh: Vec<Cell> = Vec::new();
            std::mem::swap(&mut fresh, &mut cells);
            logicals.push(Logical { cells: fresh, cur_off });
            cur_off = None;
            assert(logicals_view(logicals@) =~= lv.push(item));
            i = i + 1;
            assert(lv.push(item) + logical_from(rows, i as int, cells@, off_view(cur_off), cr, cc)
                =~= lv + (seq![item] + logical_from(rows, i as int, seq![], None, cr, cc)));
        }
    }
    assert(logicals_view(logicals@) + Seq::<(Seq<Cell>, Option<int>)>::empty() =~= logicals_view(logicals@));
    logicals
}

spec fn rows_view(d: Seq<Vec<Cell>>) -> Seq<Seq<Cell>> {
    d.map_values(|v: Vec<Cell>| v@)
}

/// A copy of `src` padded with default cells to `n`.
fn padded_copy(src: &Vec<Cell>, n: usize) -> (out: Vec<Cell>)
    requires
        src@.len() <= n,
    ensures
        out@ == pad_row(src@, n as int),
{
    let mut out: Vec<Cell> = Vec::new();
    let mut i: usize = 0;
    while i < src.len()
        invariant
            i <= src@.len(),
            out@ == src@.take(i as int),
        decreases src.len() - i,
    {
        out.push(src[i]);
        i = i + 1;
        assert(out@ =~= src@.take(i as int));
    }
    assert(src@.take(i as int) =~= src@);
    let ghost m = src@.len();
    while out.len() < n
        invariant
            m <= out@.len() <= n,
            out@ == src@ + default_row((out@.len() - m) as nat),
        decreases n - out.len(),
    {
        out.push(Cell::empty());
        assert(out@ =~= src@ + default_row((out@.len() - m) as nat));
    }
    assert(out@ =~= pad_row(src@, n as int));
    out
}

proof fn lemma_emit_all_push(ls: Seq<(Seq<Cell>, Option<int>)>, k: int, w: int)
    requires
        0 <= k < ls.len(),
    ensures
        emit_all(ls.take(k + 1), w) == emit_all(ls.take(k), w) + emit_line(ls[k].0, w),
        cursor_after(ls.take(k + 1), w) == (match line_cursor(ls[k].0, ls[k].1, w) {
            Some(rc) => (emit_all(ls.take(k), w).len() + rc.0, rc.1),
            None => cursor_after(ls.take(k), w),
        }),
{
    assert(ls.take(k + 1).drop_last() =~= ls.take(k));
    assert(ls.take(k + 1).last() == ls[k]);
}

/// Rewrap `phys` (a stream of physical rows, oldest first) to `new_cols`
/// (0 is taken as 1). `cursor_row` / `cursor_col` locate the cursor within
/// `phys`.
pub fn reflow(phys: &[Line], cursor_row: usize, cursor_col: usize, new_cols: usize) -> (r: Reflowed)
    ensures
        line_views(r.rows@) == reflow_rows(line_views(phys@), cursor_row as int, cursor_col as int,
            if new_cols == 0 { 1 } else { new_cols as int }),
        (r.cursor_row as int, r.cursor_col as int) == reflow_cursor(line_views(phys@), cursor_row as int,
            cursor_col as int, if new_cols == 0 { 1 } else { new_cols as int }),
        r.rows@.len() >= 1,
        all_width(line_views(r.rows@), if new_cols == 0 { 1 } else { new_cols as nat }),
        r.cursor_row < r.rows@.len(),
        r.cursor_col < if new_cols == 0 { 1 } else { new_cols },
        !line_views(r.rows@).last().wrapped,
{
    let new_cols = if new_cols == 0 { 1 } else { new_cols };
    let ghost w = new_cols as int;
    let logicals = join_rows(phys, cursor_row, cursor_col);
    let ghost ls = logicals_view(logicals@);

    let mut out: Vec<Line> = Vec::new();
    let mut cursor_row_out: usize = 0;
    let mut cursor_col_out: usize = 0;
    let mut li: usize = 0;
    assert(ls.take(0) =~= Seq::<(Seq<Cell>, Option<int>)>::empty());
    while li < logicals.len()
        invariant
            new_cols >= 1,
            w == new_cols,
            ls == logicals_view(logicals@),
            li <= logicals@.len(),
            line_views(out@) == emit_all(ls.take(li as int), w),
            (cursor_row_out as int, cursor_col_out as int) == cursor_after(ls.take(li as int), w),
            all_width(line_views(out@), new_cols as nat),
            out@.len() > 0 ==> !line_views(out@).last().wrapped,
            cursor_col_out < new_cols,
            cursor_row_out < out@.len() || (cursor_row_out == 0 && cursor_col_out == 0),
        decreases logicals.len() - li,
    {
        let cells = &logicals[li].cells;
        let cur_off = logicals[li].cur_off;
        proof { lemma_emit_all_push(ls, li as int, w); }
        assert(ls[li as int] == (cells@, off_view(cur_off)));
        li = li + 1;
        let base = out.len();
        let ghost prefix = line_views(out@);

        if cells.len() == 0 {
            if cur_off.is_some() {
                cursor_row_out = base;
                cursor_col_out = 0;
            }
            let l = Line::blank(new_cols);
            proof {
                lemma_line_views_push(out@, l);
            }
            out.push(l);
            assert(line_views(out@) =~= prefix + emit_line(cells@, w));
            continue;
        }

        // Split into rows of `new_cols`, never separating a wide glyph from its
        // spacer (break the row one column early instead).
        let mut done: Vec<Vec<Cell>> = Vec::new();
        let mut last: Vec<Cell> = Vec::new();
        let mut cpos: Option<(usize, usize)> = None;
        let mut k: usize = 0;
        while k < cells.len()
            invariant
                new_cols >= 1,
                w == new_cols,
                k <= cells@.len(),
                (rows_view(done@), last@) == split_state(cells@, w, k as int),
                last@.len() < new_cols,
                forall|j: int| 0 <= j < done@.len() ==> (#[trigger] done@[j])@.len() == new_cols,
                cpos matches Some((r, c)) ==> r <= done@.len() && c < new_cols && (r == done@.len() ==> c < last@.len()),
                match cur_off {
                    Some(o) => if (o as int) < k {
                        cpos matches Some((r, c)) && (r as int, c as int) == cell_pos(cells@, w, o as int)
                    } else {
                        cpos is None
                    },
                    None => cpos is None,
                },
            decreases cells.len() - k,
        {
            let cell = cells[k];
            let ghost d0 = rows_view(done@);
            let ghost l0 = last@;
            if is_wide_cell(&cell) && last.len() == new_cols - 1 {
                last.push(Cell::empty()); // pad the odd last column
                let mut full: Vec<Cell> = Vec::new();
                std::mem::swap(&mut full, &mut last);
                done.push(full);
                assert(rows_view(done@) =~= d0.push(l0.push(default_cell())));
            }
            if cur_off == Some(k) {
                cpos = Some((done.len(), last.len()));
            }
            let ghost d1 = rows_view(done@);
            let ghost l1 = last@;
            last.push(cell);
            if last.len() == new_cols {
                let mut full: Vec<Cell> = Vec::new();
                std::mem::swap(&mut full, &mut last);
                done.push(full);
                assert(rows_view(done@) =~= d1.push(l1.push(cell)));
            }
            k = k + 1;
        }
        // A trailing empty row left by an exact-width fill is dropped: the last
        // completed row becomes the final one.
        let ghost dv = rows_view(done@);
        let ghost lv = last@;
        let mut rows = done;
        if last.len() > 0 || rows.len() == 0 {
            rows.push(last);
            assert(rows_view(rows@) =~= dv.push(lv));
        }
        assert(rows_view(rows@) == split_rows(cells@, w));
        // Cursor at or past the end of content (e.g. pending-wrap state).
        if let Some(o) = cur_off {
            if o >= cells.len() {
                let r = rows.len() - 1;
                let len = rows[r].len();
                cpos = Some((r, if len < new_cols - 1 { len } else { new_cols - 1 }));
            }
        }
        let nrows = rows.len();
        let ghost rs = rows_view(rows@);
        let mut ri: usize = 0;
        while ri < nrows
            invariant
                nrows == rows@.len(),
                rs == rows_view(rows@),
                ri <= nrows,
                new_cols >= 1,
                w == new_cols,
                line_views(out@) == prefix + Seq::new(ri as nat, |i: int|
                    LineView { cells: pad_row(rs[i], w), wrapped: i + 1 != nrows }),
                all_width(line_views(out@), new_cols as nat),
                out@.len() == base + ri,
                ri == nrows && nrows > 0 ==> !line_views(out@).last().wrapped,
                forall|j: int| 0 <= j < rows@.len() ==> (#[trigger] rows@[j])@.len() <= new_cols,
            decreases nrows - ri,
        {
            let src = padded_copy(&rows[ri], new_cols);
            let l = Line::from_cells(src, ri + 1 != nrows);
            proof {
                lemma_line_views_push(out@, l);
            }
            out.push(l);
            ri = ri + 1;
            assert(line_views(out@) =~= prefix + Seq::new(ri as nat, |i: int|
                LineView { cells: pad_row(rs[i], w), wrapped: i + 1 != nrows }));
        }
        assert(line_views(out@) =~= prefix + emit_line(cells@, w));
        if let Some((r, c)) = cpos {
            let total = out.len();
            assert(total == base + nrows);
            if r < nrows {
                cursor_row_out = base + r;
                cursor_col_out = c;
            }
        }
    }
    assert(ls.take(li as int) =~= ls);
    if out.len() == 0 {
        let l = Line::blank(new_cols);
        proof {
            lemma_line_views_push(out@, l);
        }
        out.push(l);
    }

    Reflowed { rows: out, cursor_row: cursor_row_out, cursor_col: cursor_col_out }
}

// --- what a reflow keeps ------------------------------------------------------------

/// The text of the logical lines of `rows[i..]`, each with its trailing
/// default cells dropped, `cur` being the part of the current logical line
/// gathered so far: the content a rewrap must keep.
pub open spec fn content_from(rows: Seq<LineView>, i: int, cur: Seq<Cell>) -> Seq<Seq<Cell>>
    decreases rows.len() - i,
{
    if i < 0 || i >= rows.len() {
        seq![]
    } else {
        let cells = cur + rows[i].cells;
        if rows[i].wrapped && i + 1 < rows.len() {
            content_from(rows, i + 1, if drops_pad(cells, rows[i + 1]) { cells.drop_last() } else { cells })
        } else {
            seq![trim_to(cells, 0)] + content_from(rows, i + 1, seq![])
        }
    }
}

pub open spec fn content(rows: Seq<LineView>) -> Seq<Seq<Cell>> {
    content_from(rows, 0, seq![])
}

proof fn lemma_trim_twice(cells: Seq<Cell>, floor: int)
    ensures
        trim_to(trim_to(cells, floor), 0) == trim_to(cells, 0),
    decreases cells.len(),
{
    if cells.len() > 0 && cells.len() > floor && cells.last() == default_cell() {
        lemma_trim_twice(cells.drop_last(), floor);
    } else if cells.len() > 0 && cells.last() == default_cell() {
    }
}

/// The content of the logical lines, with or without a cursor.
proof fn lemma_content_logical(rows: Seq<LineView>, i: int, cur: Seq<Cell>, off: Option<int>, cr: int, cc: int)
    ensures
        content_from(rows, i, cur) == logical_from(rows, i, cur, off, cr, cc).map_values(
            |p: (Seq<Cell>, Option<int>)| trim_to(p.0, 0)),
    decreases rows.len() - i,
{
    if i < 0 || i >= rows.len() {
        assert(logical_from(rows, i, cur, off, cr, cc).map_values(|p: (Seq<Cell>, Option<int>)| trim_to(p.0, 0))
            =~= Seq::<Seq<Cell>>::empty());
    } else {
        let row = rows[i];
        let off1 = if i == cr { Some(cur.len() + min(cc, row.cells.len() as int)) } else { off };
        let cells = cur + row.cells;
        if row.wrapped && i + 1 < rows.len() {
            let next = if drops_pad(cells, rows[i + 1]) { cells.drop_last() } else { cells };
            lemma_content_logical(rows, i + 1, next, off1, cr, cc);
        } else {
            lemma_content_logical(rows, i + 1, seq![], None, cr, cc);
            lemma_trim_twice(cells, cursor_floor(off1));
            let tail = logical_from(rows, i + 1, seq![], None, cr, cc);
            let f = |p: (Seq<Cell>, Option<int>)| trim_to(p.0, 0);
            assert((seq![(trim_to(cells, cursor_floor(off1)), off1)] + tail).map_values(f)
                =~= seq![trim_to(cells, 0)] + tail.map_values(f));
        }
    }
}

proof fn lemma_content_shift(a: Seq<LineView>, r: Seq<LineView>, j: int, cur: Seq<Cell>)
    requires
        0 <= j,
    ensures
        content_from(a + r, a.len() + j, cur) == content_from(r, j, cur),
    decreases r.len() - j,
{
    if j < r.len() {
        let cells = cur + r[j].cells;
        assert((a + r)[a.len() + j] == r[j]);
        if r[j].wrapped && j + 1 < r.len() {
            assert((a + r)[a.len() + j + 1] == r[j + 1]);
            let next = if drops_pad(cells, r[j + 1]) { cells.drop_last() } else { cells };
            lemma_content_shift(a, r, j + 1, next);
        } else {
            lemma_content_shift(a, r, j + 1, seq![]);
        }
    }
}

/// The content of two blocks of rows, the first ending on a hard line end,
/// is the content of each in turn.
proof fn lemma_content_append(a: Seq<LineView>, r: Seq<LineView>, i: int, cur: Seq<Cell>)
    requires
        0 <= i < a.len(),
        !a.last().wrapped,
    ensures
        content_from(a + r, i, cur) == content_from(a, i, cur) + content(r),
    decreases a.len() - i,
{
    let cells = cur + a[i].cells;
    assert((a + r)[i] == a[i]);
    if a[i].wrapped && i + 1 < a.len() {
        assert((a + r)[i + 1] == a[i + 1]);
        let next = if drops_pad(cells, a[i + 1]) { cells.drop_last() } else { cells };
        lemma_content_append(a, r, i + 1, next);
    } else if i + 1 < a.len() {
        lemma_content_append(a, r, i + 1, seq![]);
        assert(seq![trim_to(cells, 0)] + (content_from(a, i + 1, seq![]) + content(r))
            =~= (seq![trim_to(cells, 0)] + content_from(a, i + 1, seq![])) + content(r));
    } else {
        lemma_content_shift(a, r, 0, seq![]);
        assert(content_from(a, i + 1, seq![]) =~= Seq::<Seq<Cell>>::empty());
        assert(seq![trim_to(cells, 0)] + content(r) =~= seq![trim_to(cells, 0)] + Seq::<Seq<Cell>>::empty() + content(r));
    }
}

/// `acc` followed by row `r` across a soft wrap: a blank ending `acc` before
/// a row that starts with a wide glyph is the split's pad and goes.
pub open spec fn glue(acc: Seq<Cell>, r: Seq<Cell>) -> Seq<Cell> {
    (if r.len() > 0 && acc.len() > 0 && acc.last() == default_cell() && wide_cell(r[0]) { acc.drop_last() } else { acc })
        + r
}

/// Rows joined across soft wraps.
pub open spec fn joined(rs: Seq<Seq<Cell>>) -> Seq<Cell>
    decreases rs.len(),
{
    if rs.len() == 0 { seq![] } else { glue(joined(rs.drop_last()), rs.last()) }
}

/// The split can be undone: no blank that is content lands in the last
/// column just before a wide glyph (joining would take it for a pad).
pub open spec fn split_keeps(cells: Seq<Cell>, w: int) -> bool {
    w >= 2 ==> forall|k: int| 0 <= k < cells.len() - 1 && cells[k] == default_cell() && wide_cell(cells[k + 1])
        ==> (#[trigger] cell_pos(cells, w, k)).1 != w - 1
}

proof fn lemma_default_not_wide()
    ensures
        !wide_cell(default_cell()),
{
    assert(0u16 & 256u16 == 0) by (bit_vector);
}

proof fn lemma_glue_push(acc: Seq<Cell>, r: Seq<Cell>, c: Cell)
    requires
        r.len() > 0,
    ensures
        glue(acc, r.push(c)) == glue(acc, r).push(c),
{
    assert(r.push(c)[0] == r[0]);
    assert((if r.len() > 0 && acc.len() > 0 && acc.last() == default_cell() && wide_cell(r[0]) { acc.drop_last() } else { acc })
        + r.push(c) =~= ((if r.len() > 0 && acc.len() > 0 && acc.last() == default_cell() && wide_cell(r[0]) { acc.drop_last() } else { acc }) + r).push(c));
}

proof fn lemma_joined_push(rs: Seq<Seq<Cell>>, r: Seq<Cell>)
    ensures
        joined(rs.push(r)) == glue(joined(rs), r),
{
    assert(rs.push(r).drop_last() =~= rs);
}

/// The greedy split of `cells[..k]` joins back to `cells[..k]` when the
/// split can be undone; completed rows are full, the open row is not.
proof fn lemma_split_joins(cells: Seq<Cell>, w: int, k: int)
    requires
        w >= 1,
        0 <= k <= cells.len(),
        split_keeps(cells, w),
    ensures
        joined(split_state(cells, w, k).0.push(split_state(cells, w, k).1)) == cells.take(k),
        forall|j: int| 0 <= j < split_state(cells, w, k).0.len() ==> (#[trigger] split_state(cells, w, k).0[j]).len() == w,
        split_state(cells, w, k).1.len() < w,
        k >= 1 && w >= 2 && split_state(cells, w, k).1.len() == 0 ==> cell_pos(cells, w, k - 1).1 == w - 1,
    decreases k,
{
    if k == 0 {
        assert(joined(seq![Seq::<Cell>::empty()]) == glue(joined(Seq::<Seq<Cell>>::empty()), Seq::<Cell>::empty())) by {
            assert(seq![Seq::<Cell>::empty()].drop_last() =~= Seq::<Seq<Cell>>::empty());
        }
        assert(glue(Seq::<Cell>::empty(), Seq::<Cell>::empty()) =~= Seq::<Cell>::empty());
        assert(cells.take(0) =~= Seq::<Cell>::empty());
    } else {
        lemma_split_joins(cells, w, k - 1);
        let (done, last) = split_state(cells, w, k - 1);
        let cell = cells[k - 1];
        let pre = cells.take(k - 1);
        assert(cells.take(k) =~= pre.push(cell));
        lemma_joined_push(done, last);
        // joined(done) + last glued gives the prefix so far.
        assert(glue(joined(done), last) == pre);
        if wide_cell(cell) && last.len() == w - 1 {
            let d1 = done.push(last.push(default_cell()));
            lemma_joined_push(done, last.push(default_cell()));
            if last.len() > 0 {
                lemma_glue_push(joined(done), last, default_cell());
            } else {
                lemma_default_not_wide();
                assert(glue(joined(done), last) =~= joined(done));
                assert(last.push(default_cell())[0] == default_cell());
                assert(glue(joined(done), last.push(default_cell())) =~= joined(done).push(default_cell()));
            }
            assert(joined(d1) == pre.push(default_cell()));
            let l2 = seq![cell];
            lemma_joined_push(d1, l2);
            assert(glue(pre.push(default_cell()), l2) =~= pre.push(cell));
            if l2.len() == w {
                let d2 = d1.push(l2);
                lemma_joined_push(d2, Seq::<Cell>::empty());
                assert(glue(joined(d2), Seq::<Cell>::empty()) =~= joined(d2));
            }
        } else {
            let l2 = last.push(cell);
            if last.len() > 0 {
                lemma_glue_push(joined(done), last, cell);
            } else {
                assert(glue(joined(done), last) =~= joined(done));
                if k - 1 >= 1 && w >= 2 && wide_cell(cell) {
                    assert(cell_pos(cells, w, k - 2).1 == w - 1);
                    assert(cells[k - 2] != default_cell());
                    assert(pre.last() == cells[k - 2]);
                }
                assert(glue(joined(done), l2) =~= joined(done).push(cell));
            }
            lemma_joined_push(done, l2);
            if l2.len() == w {
                let d2 = done.push(l2);
                lemma_joined_push(d2, Seq::<Cell>::empty());
                assert(glue(joined(d2), Seq::<Cell>::empty()) =~= joined(d2));
            }
        }
    }
}

pub open spec fn cells_of(rows: Seq<LineView>) -> Seq<Seq<Cell>> {
    rows.map_values(|l: LineView| l.cells)
}

/// Walking a block of rows soft-wrapped into one logical line gathers their
/// join.
proof fn lemma_block_content(e: Seq<LineView>, i: int, cur: Seq<Cell>)
    requires
        e.len() >= 1,
        forall|j: int| 0 <= j < e.len() ==> (#[trigger] e[j]).wrapped == (j + 1 < e.len()),
        0 <= i < e.len(),
        cur + e[i].cells == joined(cells_of(e).take(i + 1)),
    ensures
        content_from(e, i, cur) == seq![trim_to(joined(cells_of(e)), 0)],
    decreases e.len() - i,
{
    let cells = cur + e[i].cells;
    if i + 1 < e.len() {
        let next = if drops_pad(cells, e[i + 1]) { cells.drop_last() } else { cells };
        lemma_joined_push(cells_of(e).take(i + 1), e[i + 1].cells);
        assert(cells_of(e).take(i + 2) =~= cells_of(e).take(i + 1).push(e[i + 1].cells));
        lemma_block_content(e, i + 1, next);
    } else {
        assert(cells_of(e).take(i + 1) =~= cells_of(e));
        assert(content_from(e, i + 1, seq![]) =~= Seq::<Seq<Cell>>::empty());
        assert(seq![trim_to(cells, 0)] + Seq::<Seq<Cell>>::empty() =~= seq![trim_to(cells, 0)]);
    }
}

proof fn lemma_trim_pad(cells: Seq<Cell>, n: nat)
    ensures
        trim_to(cells + default_row(n), 0) == trim_to(cells, 0),
    decreases n,
{
    if n > 0 {
        let x = cells + default_row(n);
        assert(x.drop_last() =~= cells + default_row((n - 1) as nat));
        assert(x.last() == default_cell());
        lemma_trim_pad(cells, (n - 1) as nat);
    } else {
        assert(cells + default_row(0) =~= cells);
    }
}

proof fn lemma_trim_default_row(n: nat)
    ensures
        trim_to(default_row(n), 0) == Seq::<Cell>::empty(),
{
    lemma_trim_pad(Seq::<Cell>::empty(), n);
    assert(Seq::<Cell>::empty() + default_row(n) =~= default_row(n));
}

/// The split rows of a non-empty line: all full but the last, which holds
/// at least one cell; joined they give the line back when the split can be
/// undone.
proof fn lemma_split_rows(cells: Seq<Cell>, w: int)
    requires
        w >= 1,
        cells.len() > 0,
        split_keeps(cells, w),
    ensures
        joined(split_rows(cells, w)) == cells,
        split_rows(cells, w).len() >= 1,
        forall|j: int| 0 <= j < split_rows(cells, w).len() - 1 ==> (#[trigger] split_rows(cells, w)[j]).len() == w,
        0 < split_rows(cells, w).last().len() <= w,
{
    lemma_split_joins(cells, w, cells.len() as int);
    let (done, last) = split_state(cells, w, cells.len() as int);
    assert(cells.take(cells.len() as int) =~= cells);
    lemma_joined_push(done, last);
    if last.len() > 0 || done.len() == 0 {
        if done.len() == 0 && last.len() == 0 {
            assert(joined(done) =~= Seq::<Cell>::empty());
            assert(glue(joined(done), last) =~= Seq::<Cell>::empty());
        }
        assert(split_rows(cells, w) == done.push(last));
    } else {
        assert(glue(joined(done), last) =~= joined(done));
        assert(done.last().len() == w);
    }
}

/// One logical line rewrapped and joined back keeps its content.
proof fn lemma_emit_line_content(cells: Seq<Cell>, w: int)
    requires
        w >= 1,
        split_keeps(cells, w),
    ensures
        content(emit_line(cells, w)) == seq![trim_to(cells, 0)],
        emit_line(cells, w).len() >= 1,
        !emit_line(cells, w).last().wrapped,
{
    let e = emit_line(cells, w);
    if cells.len() == 0 {
        lemma_trim_default_row(w as nat);
        assert(content_from(e, 1, seq![]) =~= Seq::<Seq<Cell>>::empty());
        assert(Seq::<Cell>::empty() + e[0].cells =~= e[0].cells);
        assert(content(e) =~= seq![trim_to(default_row(w as nat), 0)]);
        assert(trim_to(cells, 0) == cells);
        assert(cells =~= Seq::<Cell>::empty());
        assert(content(e) =~= seq![trim_to(cells, 0)]);
    } else {
        lemma_split_rows(cells, w);
        let rs = split_rows(cells, w);
        let m = rs.len();
        // Padding leaves the full rows alone and fills out the last.
        let padded = cells_of(e);
        let pad = (w - rs.last().len()) as nat;
        assert(padded =~= rs.update(m - 1, rs.last() + default_row(pad)));
        assert(rs.update(m - 1, rs.last() + default_row(pad)).drop_last() =~= rs.drop_last());
        assert(rs.drop_last().push(rs.last()) =~= rs);
        lemma_joined_push(rs.drop_last(), rs.last());
        lemma_joined_push(rs.drop_last(), rs.last() + default_row(pad));
        lemma_glue_pad(joined(rs.drop_last()), rs.last(), pad);
        assert(joined(padded) == cells + default_row(pad));
        lemma_trim_pad(cells, pad);
        assert(Seq::<Cell>::empty() + e[0].cells == joined(cells_of(e).take(1))) by {
            assert(cells_of(e).take(1) =~= seq![e[0].cells]);
            lemma_joined_push(Seq::<Seq<Cell>>::empty(), e[0].cells);
            assert(glue(Seq::<Cell>::empty(), e[0].cells) =~= e[0].cells);
            assert(seq![e[0].cells] =~= Seq::<Seq<Cell>>::empty().push(e[0].cells));
            assert(Seq::<Cell>::empty() + e[0].cells =~= e[0].cells);
        }
        lemma_block_content(e, 0, seq![]);
        assert(content(e) == seq![trim_to(joined(cells_of(e)), 0)]);
        assert(trim_to(joined(cells_of(e)), 0) == trim_to(cells, 0));
    }
}

proof fn lemma_glue_pad(acc: Seq<Cell>, r: Seq<Cell>, n: nat)
    requires
        r.len() > 0,
    ensures
        glue(acc, r + default_row(n)) == glue(acc, r) + default_row(n),
{
    assert((r + default_row(n))[0] == r[0]);
    let a = if r.len() > 0 && acc.len() > 0 && acc.last() == default_cell() && wide_cell(r[0]) { acc.drop_last() } else { acc };
    assert(a + (r + default_row(n)) =~= (a + r) + default_row(n));
}

proof fn lemma_emit_all_content(ls: Seq<(Seq<Cell>, Option<int>)>, w: int)
    requires
        w >= 1,
        forall|i: int| 0 <= i < ls.len() ==> split_keeps(#[trigger] ls[i].0, w),
    ensures
        content(emit_all(ls, w)) == ls.map_values(|p: (Seq<Cell>, Option<int>)| trim_to(p.0, 0)),
        ls.len() > 0 ==> emit_all(ls, w).len() > 0 && !emit_all(ls, w).last().wrapped,
    decreases ls.len(),
{
    let f = |p: (Seq<Cell>, Option<int>)| trim_to(p.0, 0);
    if ls.len() == 0 {
        assert(content(Seq::<LineView>::empty()) =~= Seq::<Seq<Cell>>::empty());
        assert(ls.map_values(f) =~= Seq::<Seq<Cell>>::empty());
    } else {
        let init = ls.drop_last();
        assert forall|i: int| 0 <= i < init.len() implies split_keeps(#[trigger] init[i].0, w) by {
            assert(init[i] == ls[i]);
        }
        lemma_emit_all_content(init, w);
        assert(split_keeps(ls[ls.len() - 1].0, w));
        lemma_emit_line_content(ls.last().0, w);
        let a = emit_all(init, w);
        let e = emit_line(ls.last().0, w);
        if a.len() == 0 {
            assert(a + e =~= e);
            assert(init.len() == 0);
            assert(ls.map_values(f) =~= seq![trim_to(ls.last().0, 0)]);
        } else {
            lemma_content_append(a, e, 0, seq![]);
            assert(ls.map_values(f) =~= init.map_values(f) + seq![trim_to(ls.last().0, 0)]);
        }
        assert((a + e).last() == e.last());
    }
}

proof fn lemma_logical_nonempty(rows: Seq<LineView>, i: int, cur: Seq<Cell>, off: Option<int>, cr: int, cc: int)
    requires
        0 <= i < rows.len(),
    ensures
        logical_from(rows, i, cur, off, cr, cc).len() > 0,
    decreases rows.len() - i,
{
    let row = rows[i];
    let off1 = if i == cr { Some(cur.len() + min(cc, row.cells.len() as int)) } else { off };
    let cells = cur + row.cells;
    if row.wrapped && i + 1 < rows.len() {
        let next = if drops_pad(cells, rows[i + 1]) { cells.drop_last() } else { cells };
        lemma_logical_nonempty(rows, i + 1, next, off1, cr, cc);
    }
}

/// Reflow keeps the text: joined back across soft wraps, the rewrapped rows
/// hold the same logical lines, with the same hard line ends, as the rows
/// before (trailing blanks aside), at any new width, provided no blank that
/// is content lands in a last column just before a wide glyph.
pub proof fn lemma_reflow_keeps_content(rows: Seq<LineView>, cr: int, cc: int, w: int)
    requires
        w >= 1,
        rows.len() > 0,
        forall|i: int| 0 <= i < logical_lines(rows, cr, cc).len()
            ==> split_keeps(#[trigger] logical_lines(rows, cr, cc)[i].0, w),
    ensures
        content(reflow_rows(rows, cr, cc, w)) == content(rows),
{
    let ls = logical_lines(rows, cr, cc);
    lemma_logical_nonempty(rows, 0, seq![], None, cr, cc);
    lemma_emit_all_content(ls, w);
    lemma_content_logical(rows, 0, seq![], None, cr, cc);
}

/// Without a cursor, the logical lines are exactly the content.
proof fn lemma_logical_plain(rows: Seq<LineView>, i: int, cur: Seq<Cell>, cc: int)
    requires
        0 <= i,
    ensures
        logical_from(rows, i, cur, None, -1, cc) == content_from(rows, i, cur).map_values(
            |c: Seq<Cell>| (c, None::<int>)),
    decreases rows.len() - i,
{
    let g = |c: Seq<Cell>| (c, None::<int>);
    if i >= rows.len() {
        assert(content_from(rows, i, cur).map_values(g) =~= Seq::<(Seq<Cell>, Option<int>)>::empty());
    } else {
        let cells = cur + rows[i].cells;
        if rows[i].wrapped && i + 1 < rows.len() {
            let next = if drops_pad(cells, rows[i + 1]) { cells.drop_last() } else { cells };
            lemma_logical_plain(rows, i + 1, next, cc);
        } else {
            lemma_logical_plain(rows, i + 1, seq![], cc);
            assert((seq![trim_to(cells, 0)] + content_from(rows, i + 1, seq![])).map_values(g)
                =~= seq![(trim_to(cells, 0), None::<int>)] + content_from(rows, i + 1, seq![]).map_values(g));
        }
    }
}

/// Resizing through an intermediate width ends where resizing directly
/// does: rewrapping (with no cursor to track) to `w1` and then to `w2` gives
/// the rows rewrapping straight to `w2` gives, provided the first split can
/// be undone.
pub proof fn lemma_reflow_through(rows: Seq<LineView>, w1: int, w2: int, cc: int)
    requires
        w1 >= 1,
        w2 >= 1,
        rows.len() > 0,
        forall|i: int| 0 <= i < logical_lines(rows, -1, cc).len()
            ==> split_keeps(#[trigger] logical_lines(rows, -1, cc)[i].0, w1),
    ensures
        reflow_rows(reflow_rows(rows, -1, cc, w1), -1, cc, w2) == reflow_rows(rows, -1, cc, w2),
{
    let once = reflow_rows(rows, -1, cc, w1);
    lemma_reflow_keeps_content(rows, -1, cc, w1);
    lemma_logical_plain(rows, 0, seq![], cc);
    lemma_logical_plain(once, 0, seq![], cc);
    assert(logical_lines(once, -1, cc) == logical_lines(rows, -1, cc));
}

// --- the cursor keeps its character -------------------------------------------------

/// Cells already placed keep their place as the split goes on.
proof fn lemma_split_places(cells: Seq<Cell>, w: int, k: int)
    requires
        w >= 1,
        0 <= k <= cells.len(),
    ensures
        forall|j: int| 0 <= j < k ==> {
            let rows = split_state(cells, w, k).0.push(split_state(cells, w, k).1);
            let pos = #[trigger] cell_pos(cells, w, j);
            &&& 0 <= pos.0 < rows.len()
            &&& 0 <= pos.1 < rows[pos.0].len()
            &&& rows[pos.0][pos.1] == cells[j]
        },
        split_state(cells, w, k).1.len() < w || w < 1,
    decreases k,
{
    if k > 0 {
        lemma_split_places(cells, w, k - 1);
        let (done, last) = split_state(cells, w, k - 1);
        let old_rows = done.push(last);
        let (d2, l2) = split_state(cells, w, k);
        let new_rows = d2.push(l2);
        let cell = cells[k - 1];
        // Every row index of the old rows still holds its old cells as a prefix.
        assert forall|r: int, c: int| 0 <= r < old_rows.len() && 0 <= c < old_rows[r].len()
            implies r < new_rows.len() && c < new_rows[r].len() && #[trigger] new_rows[r][c] == old_rows[r][c] by {
            if wide_cell(cell) && last.len() == w - 1 {
                let d1 = done.push(last.push(default_cell()));
                if w == 1 {
                    assert(new_rows == d1.push(seq![cell]).push(Seq::<Cell>::empty()));
                } else {
                    assert(new_rows == d1.push(seq![cell]));
                }
                if r == done.len() {
                    assert(new_rows[r] == last.push(default_cell()));
                }
            } else {
                let l = last.push(cell);
                if l.len() == w {
                    assert(new_rows == done.push(l).push(Seq::<Cell>::empty()));
                } else {
                    assert(new_rows == done.push(l));
                }
                if r == done.len() {
                    assert(new_rows[r] == l);
                }
            }
        }
        assert forall|j: int| 0 <= j < k implies {
            let pos = #[trigger] cell_pos(cells, w, j);
            &&& 0 <= pos.0 < new_rows.len()
            &&& 0 <= pos.1 < new_rows[pos.0].len()
            &&& new_rows[pos.0][pos.1] == cells[j]
        } by {
            if j < k - 1 {
                let pos = cell_pos(cells, w, j);
                assert(old_rows[pos.0][pos.1] == cells[j]);
            } else {
                if wide_cell(cell) && last.len() == w - 1 {
                    let d1 = done.push(last.push(default_cell()));
                    if w == 1 {
                        assert(new_rows == d1.push(seq![cell]).push(Seq::<Cell>::empty()));
                    } else {
                        assert(new_rows == d1.push(seq![cell]));
                    }
                    assert(new_rows[done.len() + 1int] == seq![cell]);
                } else {
                    let l = last.push(cell);
                    if l.len() == w {
                        assert(new_rows == done.push(l).push(Seq::<Cell>::empty()));
                    } else {
                        assert(new_rows == done.push(l));
                    }
                    assert(new_rows[done.len() as int] == l);
                }
            }
        }
    }
}

/// Cell `k` of a non-empty logical line sits where `cell_pos` says in the
/// rows the line is emitted as.
proof fn lemma_emit_places(cells: Seq<Cell>, w: int, k: int)
    requires
        w >= 1,
        0 <= k < cells.len(),
    ensures
        0 <= cell_pos(cells, w, k).0 < emit_line(cells, w).len(),
        0 <= cell_pos(cells, w, k).1 < w,
        emit_line(cells, w)[cell_pos(cells, w, k).0].cells[cell_pos(cells, w, k).1] == cells[k],
{
    lemma_split_places(cells, w, cells.len() as int);
    lemma_split_widths(cells, w, cells.len() as int);
    let (done, last) = split_state(cells, w, cells.len() as int);
    let rows = done.push(last);
    let pos = cell_pos(cells, w, k);
    assert(rows[pos.0][pos.1] == cells[k]);
    let rs = split_rows(cells, w);
    if last.len() > 0 || done.len() == 0 {
        assert(rs == rows);
    } else {
        assert(rs == done);
        assert(pos.0 < done.len());
    }
    assert(rs[pos.0].len() <= w);
    assert(pad_row(rs[pos.0], w)[pos.1] == rs[pos.0][pos.1]);
}

proof fn lemma_split_widths(cells: Seq<Cell>, w: int, k: int)
    requires
        w >= 1,
        0 <= k <= cells.len(),
    ensures
        forall|j: int| 0 <= j < split_state(cells, w, k).0.len() ==> (#[trigger] split_state(cells, w, k).0[j]).len() == w,
        split_state(cells, w, k).1.len() < w,
    decreases k,
{
    if k > 0 {
        lemma_split_widths(cells, w, k - 1);
    }
}

proof fn lemma_emit_all_prefix(ls: Seq<(Seq<Cell>, Option<int>)>, i: int, w: int)
    requires
        0 <= i < ls.len(),
    ensures
        emit_all(ls.take(i + 1), w).is_prefix_of(emit_all(ls, w)),
        emit_all(ls.take(i + 1), w) == emit_all(ls.take(i), w) + emit_line(ls[i].0, w),
    decreases ls.len() - i,
{
    lemma_emit_all_push(ls, i, w);
    if i + 1 == ls.len() {
        assert(ls.take(i + 1) =~= ls);
    } else {
        lemma_emit_all_prefix(ls, i + 1, w);
        lemma_emit_all_push(ls, i + 1, w);
    }
}

/// Lines past the cursor's row carry no cursor offset.
proof fn lemma_no_cursor_after(rows: Seq<LineView>, i: int, cur: Seq<Cell>, cr: int, cc: int)
    requires
        cr < i,
    ensures
        forall|j: int| 0 <= j < logical_from(rows, i, cur, None, cr, cc).len()
            ==> (#[trigger] logical_from(rows, i, cur, None, cr, cc)[j]).1 is None,
    decreases rows.len() - i,
{
    if 0 <= i < rows.len() {
        let cells = cur + rows[i].cells;
        if rows[i].wrapped && i + 1 < rows.len() {
            let next = if drops_pad(cells, rows[i + 1]) { cells.drop_last() } else { cells };
            lemma_no_cursor_after(rows, i + 1, next, cr, cc);
        } else {
            lemma_no_cursor_after(rows, i + 1, seq![], cr, cc);
        }
    }
}

/// At most one logical line carries the cursor.
proof fn lemma_one_cursor(rows: Seq<LineView>, i: int, cur: Seq<Cell>, off: Option<int>, cr: int, cc: int)
    requires
        0 <= i,
        off is Some ==> cr < i,
    ensures
        forall|j1: int, j2: int| 0 <= j1 < j2 < logical_from(rows, i, cur, off, cr, cc).len()
            ==> !((#[trigger] logical_from(rows, i, cur, off, cr, cc)[j1]).1 is Some
                && (#[trigger] logical_from(rows, i, cur, off, cr, cc)[j2]).1 is Some),
    decreases rows.len() - i,
{
    if i < rows.len() {
        let row = rows[i];
        let off1 = if i == cr { Some(cur.len() + min(cc, row.cells.len() as int)) } else { off };
        let cells = cur + row.cells;
        if row.wrapped && i + 1 < rows.len() {
            let next = if drops_pad(cells, rows[i + 1]) { cells.drop_last() } else { cells };
            lemma_one_cursor(rows, i + 1, next, off1, cr, cc);
        } else {
            let first = (trim_to(cells, cursor_floor(off1)), off1);
            let rest = logical_from(rows, i + 1, seq![], None, cr, cc);
            lemma_one_cursor(rows, i + 1, seq![], None, cr, cc);
            if off1 is Some {
                lemma_no_cursor_after(rows, i + 1, seq![], cr, cc);
            }
            let all = seq![first] + rest;
            assert forall|j1: int, j2: int| 0 <= j1 < j2 < all.len()
                implies !((#[trigger] all[j1]).1 is Some && (#[trigger] all[j2]).1 is Some) by {
                if j1 > 0 {
                    assert(all[j1] == rest[j1 - 1]);
                    assert(all[j2] == rest[j2 - 1]);
                } else {
                    assert(all[j2] == rest[j2 - 1]);
                }
            }
        }
    }
}

/// Only the cursor's line decides the cursor.
proof fn lemma_cursor_from_line(ls: Seq<(Seq<Cell>, Option<int>)>, i: int, j: int, w: int)
    requires
        0 <= i < j <= ls.len(),
        line_cursor(ls[i].0, ls[i].1, w) is Some,
        forall|k: int| i < k < ls.len() ==> (#[trigger] ls[k]).1 is None,
    ensures
        cursor_after(ls.take(j), w) == (emit_all(ls.take(i), w).len() + line_cursor(ls[i].0, ls[i].1, w).unwrap().0,
            line_cursor(ls[i].0, ls[i].1, w).unwrap().1),
    decreases j,
{
    lemma_emit_all_push(ls, j - 1, w);
    if j - 1 > i {
        lemma_cursor_from_line(ls, i, j - 1, w);
        assert(ls[j - 1].1 is None);
    }
}

/// The cursor lands on the character it was on: when its offset in its
/// logical line points at a cell of the line, the row and column the rewrap
/// gives the cursor hold that same cell.
pub proof fn lemma_reflow_cursor_cell(rows: Seq<LineView>, cr: int, cc: int, w: int, i: int, o: int)
    requires
        w >= 1,
        0 <= i < logical_lines(rows, cr, cc).len(),
        logical_lines(rows, cr, cc)[i].1 == Some(o),
        0 <= o < logical_lines(rows, cr, cc)[i].0.len(),
    ensures
        ({
            let rc = reflow_cursor(rows, cr, cc, w);
            let out = reflow_rows(rows, cr, cc, w);
            &&& 0 <= rc.0 < out.len()
            &&& 0 <= rc.1 < out[rc.0].cells.len()
            &&& out[rc.0].cells[rc.1] == logical_lines(rows, cr, cc)[i].0[o]
        }),
{
    let ls = logical_lines(rows, cr, cc);
    let cells = ls[i].0;
    lemma_one_cursor(rows, 0, seq![], None, cr, cc);
    assert forall|k: int| i < k < ls.len() implies (#[trigger] ls[k]).1 is None by {
        if ls[k].1 is Some {
            assert(ls[i].1 is Some);
        }
    }
    lemma_cursor_from_line(ls, i, ls.len() as int, w);
    assert(ls.take(ls.len() as int) =~= ls);
    lemma_emit_all_prefix(ls, i, w);
    lemma_emit_places(cells, w, o);
    let base = emit_all(ls.take(i), w).len();
    let pos = cell_pos(cells, w, o);
    let prefix = emit_all(ls.take(i + 1), w);
    let out = emit_all(ls, w);
    assert(prefix[base + pos.0] == emit_line(cells, w)[pos.0]);
    assert(out[base + pos.0] == prefix[base + pos.0]);
    assert(out.len() > 0);
    lemma_emit_line_width(cells, w, pos.0);
}

proof fn lemma_emit_line_width(cells: Seq<Cell>, w: int, r: int)
    requires
        w >= 1,
        cells.len() > 0,
        0 <= r < emit_line(cells, w).len(),
    ensures
        emit_line(cells, w)[r].cells.len() == w,
{
    lemma_split_widths(cells, w, cells.len() as int);
    let (done, last) = split_state(cells, w, cells.len() as int);
    let rs = split_rows(cells, w);
    if last.len() > 0 || done.len() == 0 {
        assert(rs == done.push(last));
    }
    assert(rs[r].len() <= w);
}

// --- hard line ends -----------------------------------------------------------------

/// The hard line ends of `rows[i..]`: rows not soft-wrapped onto a next row
/// (the last row ends its line whatever its flag says).
pub open spec fn ends_from(rows: Seq<LineView>, i: int) -> nat
    decreases rows.len() - i,
{
    if i < 0 || i >= rows.len() {
        0
    } else {
        (if rows[i].wrapped && i + 1 < rows.len() { 0nat } else { 1nat }) + ends_from(rows, i + 1)
    }
}

/// The number of logical lines of `rows`.
pub open spec fn line_ends(rows: Seq<LineView>) -> nat {
    ends_from(rows, 0)
}

proof fn lemma_logical_count(rows: Seq<LineView>, i: int, cur: Seq<Cell>, off: Option<int>, cr: int, cc: int)
    requires
        0 <= i,
    ensures
        logical_from(rows, i, cur, off, cr, cc).len() == ends_from(rows, i),
    decreases rows.len() - i,
{
    if i < rows.len() {
        let row = rows[i];
        let off1 = if i == cr { Some(cur.len() + min(cc, row.cells.len() as int)) } else { off };
        let cells = cur + row.cells;
        if row.wrapped && i + 1 < rows.len() {
            let next = if drops_pad(cells, rows[i + 1]) { cells.drop_last() } else { cells };
            lemma_logical_count(rows, i + 1, next, off1, cr, cc);
        } else {
            lemma_logical_count(rows, i + 1, seq![], None, cr, cc);
        }
    }
}

proof fn lemma_ends_shift(a: Seq<LineView>, b: Seq<LineView>, j: int)
    requires
        0 <= j,
    ensures
        ends_from(a + b, a.len() + j) == ends_from(b, j),
    decreases b.len() - j,
{
    if j < b.len() {
        assert((a + b)[a.len() + j] == b[j]);
        lemma_ends_shift(a, b, j + 1);
    }
}

proof fn lemma_ends_append(a: Seq<LineView>, b: Seq<LineView>, i: int)
    requires
        0 <= i <= a.len(),
        a.len() > 0 ==> !a.last().wrapped,
    ensures
        ends_from(a + b, i) == ends_from(a, i) + ends_from(b, 0),
    decreases a.len() - i,
{
    if i == a.len() {
        lemma_ends_shift(a, b, 0);
    } else {
        assert((a + b)[i] == a[i]);
        lemma_ends_append(a, b, i + 1);
    }
}

proof fn lemma_emit_line_ends(cells: Seq<Cell>, w: int, i: int)
    requires
        0 <= i < emit_line(cells, w).len(),
    ensures
        ends_from(emit_line(cells, w), i) == 1,
        !emit_line(cells, w).last().wrapped,
    decreases emit_line(cells, w).len() - i,
{
    let e = emit_line(cells, w);
    if cells.len() > 0 {
        assert(e[i].wrapped == (i + 1 != e.len()));
        assert(e.last().wrapped == false);
    }
    if i + 1 < e.len() {
        lemma_emit_line_ends(cells, w, i + 1);
    } else {
        assert(ends_from(e, i + 1) == 0);
    }
}

proof fn lemma_emit_line_nonempty(cells: Seq<Cell>, w: int)
    ensures
        emit_line(cells, w).len() >= 1,
{
    if cells.len() > 0 {
        let (done, last) = split_state(cells, w, cells.len() as int);
        if !(last.len() > 0 || done.len() == 0) {
            assert(split_rows(cells, w) == done);
        }
    }
}

proof fn lemma_emit_all_ends(ls: Seq<(Seq<Cell>, Option<int>)>, w: int)
    ensures
        ends_from(emit_all(ls, w), 0) == ls.len(),
        ls.len() > 0 ==> emit_all(ls, w).len() > 0 && !emit_all(ls, w).last().wrapped,
    decreases ls.len(),
{
    if ls.len() > 0 {
        lemma_emit_all_ends(ls.drop_last(), w);
        let a = emit_all(ls.drop_last(), w);
        let e = emit_line(ls.last().0, w);
        lemma_emit_line_nonempty(ls.last().0, w);
        lemma_emit_line_ends(ls.last().0, w, 0);
        lemma_ends_append(a, e, 0);
        assert((a + e).last() == e.last());
    }
}

/// Reflow keeps the hard line breaks: the rewrapped rows end as many logical
/// lines as the rows before, and only the last of a line's rows is not
/// soft-wrapped, at any width and whatever the cells hold.
pub proof fn lemma_reflow_keeps_line_ends(rows: Seq<LineView>, cr: int, cc: int, w: int)
    requires
        rows.len() > 0,
    ensures
        line_ends(reflow_rows(rows, cr, cc, w)) == line_ends(rows),
        !reflow_rows(rows, cr, cc, w).last().wrapped,
{
    let ls = logical_lines(rows, cr, cc);
    lemma_logical_nonempty(rows, 0, seq![], None, cr, cc);
    lemma_logical_count(rows, 0, seq![], None, cr, cc);
    lemma_emit_all_ends(ls, w);
}

// --- wide glyphs stay whole ---------------------------------------------------------

/// A row of `w` cells whose last column holds no left half of a wide glyph.
pub open spec fn edge_free(r: Seq<Cell>, w: int) -> bool {
    r.len() == w ==> !wide_cell(r[w - 1])
}

proof fn lemma_split_edge_free(cells: Seq<Cell>, w: int, k: int)
    requires
        w >= 2,
        0 <= k <= cells.len(),
    ensures
        forall|j: int| 0 <= j < split_state(cells, w, k).0.len() ==> edge_free(#[trigger] split_state(cells, w, k).0[j], w),
        split_state(cells, w, k).1.len() < w,
    decreases k,
{
    if k > 0 {
        lemma_split_edge_free(cells, w, k - 1);
        lemma_default_not_wide();
        let (done, last) = split_state(cells, w, k - 1);
        let cell = cells[k - 1];
        if wide_cell(cell) && last.len() == w - 1 {
            let r = last.push(default_cell());
            assert(r[w - 1] == default_cell());
            let d1 = done.push(r);
            assert forall|j: int| 0 <= j < d1.len() implies edge_free(#[trigger] d1[j], w) by {
                if j < done.len() {
                    assert(d1[j] == done[j]);
                }
            }
        }
    }
}

/// Reflow never leaves the left half of a wide glyph in the last column,
/// where it would be parted from its spacer: a glyph that would land there
/// moves to the next row.
pub proof fn lemma_reflow_wide_fits(rows: Seq<LineView>, cr: int, cc: int, w: int)
    requires
        w >= 2,
    ensures
        forall|i: int, x: int|
            0 <= i < reflow_rows(rows, cr, cc, w).len() && 0 <= x < reflow_rows(rows, cr, cc, w)[i].cells.len()
                && wide_cell(#[trigger] reflow_rows(rows, cr, cc, w)[i].cells[x]) ==> x + 1 < w,
{
    lemma_default_not_wide();
    let ls = logical_lines(rows, cr, cc);
    assert forall|k: int| 0 <= k <= ls.len() implies ({
        let e = #[trigger] emit_all(ls.take(k), w);
        forall|i: int, x: int| 0 <= i < e.len() && 0 <= x < e[i].cells.len() && wide_cell(e[i].cells[x]) ==> x + 1 < w
    }) by {
        lemma_emit_all_edge(ls, k, w);
    }
    assert(ls.take(ls.len() as int) =~= ls);
    let out = reflow_rows(rows, cr, cc, w);
    if emit_all(ls, w).len() == 0 {
        assert forall|i: int, x: int| 0 <= i < out.len() && 0 <= x < out[i].cells.len() implies !wide_cell(
            #[trigger] out[i].cells[x]) by {
            assert(out[i].cells[x] == default_cell());
        }
    }
}

proof fn lemma_emit_line_edge(cells: Seq<Cell>, w: int)
    requires
        w >= 2,
    ensures
        forall|i: int, x: int| 0 <= i < emit_line(cells, w).len() && 0 <= x < emit_line(cells, w)[i].cells.len()
            && wide_cell(#[trigger] emit_line(cells, w)[i].cells[x]) ==> x + 1 < w,
{
    lemma_default_not_wide();
    let e = emit_line(cells, w);
    if cells.len() > 0 {
        lemma_split_edge_free(cells, w, cells.len() as int);
        let (done, last) = split_state(cells, w, cells.len() as int);
        let rs = split_rows(cells, w);
        if last.len() > 0 || done.len() == 0 {
            assert(rs == done.push(last));
        }
        assert forall|i: int, x: int| 0 <= i < e.len() && 0 <= x < e[i].cells.len()
            && wide_cell(#[trigger] e[i].cells[x]) implies x + 1 < w by {
            lemma_emit_line_width(cells, w, i);
            if i < done.len() {
                assert(edge_free(done[i], w));
                assert(rs[i] == done[i]);
            } else {
                assert(rs[i] == last);
                if x >= last.len() {
                    assert(pad_row(last, w)[x] == default_cell());
                }
            }
        }
    } else {
        assert forall|i: int, x: int| 0 <= i < e.len() && 0 <= x < e[i].cells.len() implies !wide_cell(
            #[trigger] e[i].cells[x]) by {
            assert(e[i].cells[x] == default_cell());
        }
    }
}

proof fn lemma_emit_all_edge(ls: Seq<(Seq<Cell>, Option<int>)>, k: int, w: int)
    requires
        w >= 2,
        0 <= k <= ls.len(),
    ensures
        ({
            let e = emit_all(ls.take(k), w);
            forall|i: int, x: int| 0 <= i < e.len() && 0 <= x < e[i].cells.len() && wide_cell(#[trigger] e[i].cells[x])
                ==> x + 1 < w
        }),
    decreases k,
{
    if k > 0 {
        lemma_emit_all_edge(ls, k - 1, w);
        let t = ls.take(k);
        assert(t.drop_last() =~= ls.take(k - 1));
        let a = emit_all(ls.take(k - 1), w);
        let l = emit_line(t.last().0, w);
        lemma_emit_line_edge(t.last().0, w);
        let e = emit_all(t, w);
        assert(e == a + l);
        assert forall|i: int, x: int| 0 <= i < e.len() && 0 <= x < e[i].cells.len() && wide_cell(#[trigger] e[i].cells[x])
            implies x + 1 < w by {
            if i < a.len() {
                assert(e[i] == a[i]);
            } else {
                assert(e[i] == l[i - a.len()]);
            }
        }
    }
}

// --- rows without wide glyphs -------------------------------------------------------

/// No cell of `rows` is the left half of a wide glyph.
pub open spec fn no_wide_rows(rows: Seq<LineView>) -> bool {
    forall|i: int, x: int| 0 <= i < rows.len() && 0 <= x < rows[i].cells.len() ==> !wide_cell(#[trigger] rows[i].cells[x])
}

pub open spec fn no_wide(cells: Seq<Cell>) -> bool {
    forall|k: int| 0 <= k < cells.len() ==> !wide_cell(#[trigger] cells[k])
}

proof fn lemma_trim_no_wide(cells: Seq<Cell>, floor: int)
    requires
        no_wide(cells),
    ensures
        no_wide(trim_to(cells, floor)),
    decreases cells.len(),
{
    if cells.len() > 0 && cells.len() > floor && cells.last() == default_cell() {
        let d = cells.drop_last();
        assert forall|k: int| 0 <= k < d.len() implies !wide_cell(#[trigger] d[k]) by {
            assert(d[k] == cells[k]);
        }
        lemma_trim_no_wide(d, floor);
    }
}

proof fn lemma_logical_no_wide(rows: Seq<LineView>, i: int, cur: Seq<Cell>, off: Option<int>, cr: int, cc: int)
    requires
        0 <= i,
        no_wide_rows(rows),
        no_wide(cur),
    ensures
        forall|j: int| 0 <= j < logical_from(rows, i, cur, off, cr, cc).len()
            ==> no_wide(#[trigger] logical_from(rows, i, cur, off, cr, cc)[j].0),
    decreases rows.len() - i,
{
    if i < rows.len() {
        let row = rows[i];
        let off1 = if i == cr { Some(cur.len() + min(cc, row.cells.len() as int)) } else { off };
        let cells = cur + row.cells;
        assert forall|k: int| 0 <= k < cells.len() implies !wide_cell(#[trigger] cells[k]) by {
            if k >= cur.len() {
                assert(cells[k] == rows[i].cells[k - cur.len()]);
            }
        }
        if row.wrapped && i + 1 < rows.len() {
            let next = if drops_pad(cells, rows[i + 1]) { cells.drop_last() } else { cells };
            assert forall|k: int| 0 <= k < next.len() implies !wide_cell(#[trigger] next[k]) by {
                assert(next[k] == cells[k]);
            }
            lemma_logical_no_wide(rows, i + 1, next, off1, cr, cc);
            assert(logical_from(rows, i, cur, off, cr, cc) == logical_from(rows, i + 1, next, off1, cr, cc));
        } else {
            lemma_logical_no_wide(rows, i + 1, seq![], None, cr, cc);
            lemma_trim_no_wide(cells, cursor_floor(off1));
            let tail = logical_from(rows, i + 1, seq![], None, cr, cc);
            let all = seq![(trim_to(cells, cursor_floor(off1)), off1)] + tail;
            assert forall|j: int| 0 <= j < all.len() implies no_wide(#[trigger] all[j].0) by {
                if j > 0 {
                    assert(all[j] == tail[j - 1]);
                }
            }
            assert(logical_from(rows, i, cur, off, cr, cc) == all);
        }
    }
}

/// Text without wide glyphs is only re-split by a reflow, never lost, added
/// or reordered: the rewrapped rows hold the same logical lines, trailing
/// blanks aside, at any new width.
pub proof fn lemma_reflow_keeps_plain_content(rows: Seq<LineView>, cr: int, cc: int, w: int)
    requires
        w >= 1,
        rows.len() > 0,
        no_wide_rows(rows),
    ensures
        content(reflow_rows(rows, cr, cc, w)) == content(rows),
{
    let ls = logical_lines(rows, cr, cc);
    lemma_logical_no_wide(rows, 0, seq![], None, cr, cc);
    assert forall|i: int| 0 <= i < ls.len() implies split_keeps(#[trigger] ls[i].0, w) by {
        assert(no_wide(ls[i].0));
        if w >= 2 {
            assert forall|k: int| 0 <= k < ls[i].0.len() - 1 && ls[i].0[k] == default_cell() && wide_cell(ls[i].0[k + 1])
                implies (#[trigger] cell_pos(ls[i].0, w, k)).1 != w - 1 by {
                assert(!wide_cell(ls[i].0[k + 1]));
            }
        }
    }
    lemma_reflow_keeps_content(rows, cr, cc, w);
}

} // verus!
