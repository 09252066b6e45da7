//! Window geometry for the desktop front-ends, and the events their PTY
//! reader threads deliver to the UI loop.

use vstd::prelude::*;

verus! {

/// Events delivered to the window's event loop from the PTY reader thread.
#[derive(Debug)]
pub enum UserEvent {
    PtyData(Vec<u8>),
    PtyExit,
}

/// Messages the PTY reader thread sends to the UI thread.
#[derive(Debug)]
pub enum PtyMsg {
    Data(Vec<u8>),
    Exit,
}

/// A color packed as `0xRRGGBB`.
pub open spec fn rgb_spec(c: (u8, u8, u8)) -> u32 {
    (c.0 * 0x1_0000 + c.1 * 0x100 + c.2) as u32
}

pub fn rgb(c: (u8, u8, u8)) -> (v: u32)
    ensures
        v == rgb_spec(c),
{
    let (r, g, b) = c;
    let v = ((r as u32) << 16) | ((g as u32) << 8) | b as u32;
    assert(((r as u32) << 16) | ((g as u32) << 8) | b as u32 == r as u32 * 0x1_0000 + g as u32 * 0x100 + b as u32)
        by (bit_vector);
    v
}

pub open spec fn sat_sub(a: int, b: int) -> int {
    if a > b { a - b } else { 0 }
}

/// The grid for a `w` x `h` window with `cw` x `ch` cells and a `pad` inset
/// on every side: as many whole cells as fit (at least one each way), then
/// centered so the leftover pixels make balanced margins. Gives
/// `(cols, rows, origin_x, origin_y)`, the origin in device pixels.
pub open spec fn grid_layout_spec(w: int, h: int, cw: int, ch: int, pad: int) -> (int, int, int, int) {
    let avail_w = sat_sub(w, 2 * pad);
    let avail_h = sat_sub(h, 2 * pad);
    let cols = if avail_w / cw >= 1 { avail_w / cw } else { 1 };
    let rows = if avail_h / ch >= 1 { avail_h / ch } else { 1 };
    (cols, rows, pad + sat_sub(avail_w, cols * cw) / 2, pad + sat_sub(avail_h, rows * ch) / 2)
}

pub fn grid_layout(w: u32, h: u32, cw: u32, ch: u32, pad: u32) -> (r: (usize, usize, u32, u32))
    requires
        cw > 0,
        ch > 0,
        2 * pad <= u32::MAX,
    ensures
        (r.0 as int, r.1 as int, r.2 as int, r.3 as int) == grid_layout_spec(w as int, h as int, cw as int, ch as int, pad as int),
{
    let avail_w = w.saturating_sub(2 * pad);
    let avail_h = h.saturating_sub(2 * pad);
    let cols = if avail_w / cw >= 1 { avail_w / cw } else { 1 };
    let rows = if avail_h / ch >= 1 { avail_h / ch } else { 1 };
    assert(cols * cw <= if avail_w >= cw { avail_w as int } else { cw as int }) by (nonlinear_arith)
        requires
            cw > 0,
            cols == (if avail_w / cw >= 1 { avail_w / cw } else { 1 }),
    ;
    assert(rows * ch <= if avail_h >= ch { avail_h as int } else { ch as int }) by (nonlinear_arith)
        requires
            ch > 0,
            rows == (if avail_h / ch >= 1 { avail_h / ch } else { 1 }),
    ;
    let ox = pad + avail_w.saturating_sub(cols * cw) / 2;
    let oy = pad + avail_h.saturating_sub(rows * ch) / 2;
    (cols as usize, rows as usize, ox, oy)
}

// --- the frame loop's decisions -------------------------------------------------

/// Cursor blink half-period in frames (about 530 ms at 60 Hz).
pub const BLINK_FRAMES: u32 = 32;

/// What the frame loop remembers between frames.
#[derive(Clone, Copy, Debug, PartialEq, Eq)]
pub struct FrameState {
    pub cols: usize,
    pub rows: usize,
    /// The window size last seen, in device pixels.
    pub px_w: usize,
    pub px_h: usize,
    /// A repaint is due.
    pub dirty: bool,
    pub blink_frames: u32,
    pub blink_on: bool,
}

/// What a frame's first half decides: resize the terminal and the PTY to
/// `(cols, rows)`, and whether to go on with the frame at all.
#[derive(Clone, Copy, Debug, PartialEq, Eq)]
pub struct SizeAction {
    pub resize: Option<(usize, usize)>,
    pub proceed: bool,
}

/// What a frame's second half decides: quit, or repaint.
#[derive(Clone, Copy, Debug, PartialEq, Eq)]
pub struct FinishAction {
    pub quit: bool,
    pub paint: bool,
}

/// The size step. A window with no area skips the frame. A new window size
/// sets the grid to as many whole cells as fit (at least one each way),
/// asks for a resize when that changes the grid, and marks a repaint due.
pub open spec fn frame_size_spec(s: FrameState, pw: usize, ph: usize, cw: usize, ch: usize) -> (FrameState, SizeAction) {
    if pw == 0 || ph == 0 {
        (s, SizeAction { resize: None, proceed: false })
    } else if pw != s.px_w || ph != s.px_h {
        let cols = if pw / cw >= 1 { pw / cw } else { 1 };
        let rows = if ph / ch >= 1 { ph / ch } else { 1 };
        let changed = cols != s.cols || rows != s.rows;
        (
            FrameState { cols, rows, px_w: pw, px_h: ph, dirty: true, ..s },
            SizeAction { resize: if changed { Some((cols, rows)) } else { None }, proceed: true },
        )
    } else {
        (s, SizeAction { resize: None, proceed: true })
    }
}

/// The size step of a frame for a `pw` x `ph` window of `cw` x `ch` cells.
pub fn frame_size(s: FrameState, pw: usize, ph: usize, cw: usize, ch: usize) -> (r: (FrameState, SizeAction))
    requires
        cw >= 1,
        ch >= 1,
    ensures
        r == frame_size_spec(s, pw, ph, cw, ch),
{
    if pw == 0 || ph == 0 {
        return (s, SizeAction { resize: None, proceed: false });
    }
    if pw != s.px_w || ph != s.px_h {
        let cols = if pw / cw >= 1 { pw / cw } else { 1 };
        let rows = if ph / ch >= 1 { ph / ch } else { 1 };
        let changed = cols != s.cols || rows != s.rows;
        (
            FrameState { cols, rows, px_w: pw, px_h: ph, dirty: true, ..s },
            SizeAction { resize: if changed { Some((cols, rows)) } else { None }, proceed: true },
        )
    } else {
        (s, SizeAction { resize: None, proceed: true })
    }
}

/// The finishing step, after the shell's output was drained: quit when the
/// shell exited; else new output marks a repaint due, the blink phase flips
/// every `BLINK_FRAMES` frames (marking a repaint due), and a due repaint is
/// made and cleared.
pub open spec fn frame_finish_spec(s: FrameState, got_output: bool, exited: bool) -> (FrameState, FinishAction) {
    if exited {
        (s, FinishAction { quit: true, paint: false })
    } else {
        let next = s.blink_frames + 1;
        let flip = next >= BLINK_FRAMES;
        let dirty = s.dirty || got_output || flip;
        (
            FrameState {
                dirty: false,
                blink_frames: if flip { 0 } else { next as u32 },
                blink_on: if flip { !s.blink_on } else { s.blink_on },
                ..s
            },
            FinishAction { quit: false, paint: dirty },
        )
    }
}

pub fn frame_finish(s: FrameState, got_output: bool, exited: bool) -> (r: (FrameState, FinishAction))
    ensures
        r == frame_finish_spec(s, got_output, exited),
{
    if exited {
        return (s, FinishAction { quit: true, paint: false });
    }
    let flip = s.blink_frames >= BLINK_FRAMES - 1;
    let dirty = s.dirty || got_output || flip;
    (
        FrameState {
            dirty: false,
            blink_frames: if flip { 0 } else { s.blink_frames + 1 },
            blink_on: if flip { !s.blink_on } else { s.blink_on },
            ..s
        },
        FinishAction { quit: false, paint: dirty },
    )
}

} // verus!
