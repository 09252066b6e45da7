//! The handle a browser front-end drives: `feed` bytes in from a PTY,
//! `snapshot` a packed frame out, and `key` / `char_input` / `mouse` to turn
//! user input into the bytes a host program expects. Input arrives as the
//! plain numbers the JavaScript side uses (key codes, modifier bitmasks,
//! button and action codes).

use vstd::prelude::*;
use crate::keys::{char_bytes, dec, encode_char, encode_key, key_bytes, push_decimal, Key, Mods};
use crate::terminal::{ImageRec, Modes, Terminal as CoreTerminal, offset_up, offset_down, rewrap_history, rewrap_screen};
use crate::parser::m_run;

verus! {

/// The modifier bitmask: 1 = shift, 2 = alt, 4 = ctrl, 8 = meta.
pub open spec fn mods_of(m: u32) -> Mods {
    Mods { shift: m & 1 != 0, alt: m & 2 != 0, ctrl: m & 4 != 0, meta: m & 8 != 0 }
}

pub fn decode_mods(m: u32) -> (r: Mods)
    ensures
        r == mods_of(m),
{
    Mods { shift: m & 1 != 0, alt: m & 2 != 0, ctrl: m & 4 != 0, meta: m & 8 != 0 }
}

/// The numeric key codes shared with the JavaScript side: 1..=14 for the
/// navigation and editing keys, 100..=111 for F1..F12.
pub open spec fn keycode_of(k: u32) -> Option<Key> {
    if k == 1 { Some(Key::Up) }
    else if k == 2 { Some(Key::Down) }
    else if k == 3 { Some(Key::Right) }
    else if k == 4 { Some(Key::Left) }
    else if k == 5 { Some(Key::Home) }
    else if k == 6 { Some(Key::End) }
    else if k == 7 { Some(Key::Insert) }
    else if k == 8 { Some(Key::Delete) }
    else if k == 9 { Some(Key::PageUp) }
    else if k == 10 { Some(Key::PageDown) }
    else if k == 11 { Some(Key::Enter) }
    else if k == 12 { Some(Key::Backspace) }
    else if k == 13 { Some(Key::Tab) }
    else if k == 14 { Some(Key::Escape) }
    else if 100 <= k <= 111 { Some(Key::F((k - 99) as u8)) }
    else { None }
}

pub fn decode_keycode(k: u32) -> (r: Option<Key>)
    ensures
        r == keycode_of(k),
{
    match k {
        1 => Some(Key::Up),
        2 => Some(Key::Down),
        3 => Some(Key::Right),
        4 => Some(Key::Left),
        5 => Some(Key::Home),
        6 => Some(Key::End),
        7 => Some(Key::Insert),
        8 => Some(Key::Delete),
        9 => Some(Key::PageUp),
        10 => Some(Key::PageDown),
        11 => Some(Key::Enter),
        12 => Some(Key::Backspace),
        13 => Some(Key::Tab),
        14 => Some(Key::Escape),
        100..=111 => Some(Key::F((k - 99) as u8)),
        _ => None,
    }
}

/// Whether a mouse event with `action` (0 press, 1 release, 2 motion) is
/// reported under `modes`: reporting must be on, and motion only in the
/// drag (1002) and any-motion (1003) modes.
pub open spec fn mouse_reported(modes: Modes, action: u32) -> bool {
    modes.mouse_mode != 0 && !(action == 2 && modes.mouse_mode != 1002 && modes.mouse_mode != 1003)
}

/// The button byte before encoding: the low byte of `button`, plus 4 for
/// shift, 8 for alt, 16 for ctrl and 32 for motion.
pub open spec fn mouse_cb(button: u32, m: Mods, action: u32) -> u32 {
    (button & 0xff) | (if m.shift { 4u32 } else { 0 }) | (if m.alt { 8u32 } else { 0 })
        | (if m.ctrl { 16u32 } else { 0 }) | (if action == 2 { 32u32 } else { 0 })
}

/// A legacy (X10) coordinate byte: offset by 32, clamped to 223.
pub open spec fn x10_coord(v: int) -> u8 {
    ((if v < 223 { v } else { 223 }) + 32) as u8
}

/// The report for a mouse event, 0-based `col` / `row`: SGR
/// (`CSI < cb ; col ; row M|m`, `m` on release) or legacy X10
/// (`CSI M b col row`, release as button 3); empty when not reported.
pub open spec fn mouse_bytes(modes: Modes, button: u32, col: u32, row: u32, action: u32, mods: u32) -> Seq<u8> {
    if !mouse_reported(modes, action) {
        Seq::empty()
    } else {
        let cb = mouse_cb(button, mods_of(mods), action);
        if modes.mouse_sgr {
            seq![0x1bu8, 0x5b, 0x3c] + dec(cb as nat) + seq![0x3bu8] + dec((col + 1) as nat) + seq![0x3bu8]
                + dec((row + 1) as nat) + seq![if action == 1 { 0x6du8 } else { 0x4du8 }]
        } else {
            let b: u8 = if action == 1 { 35 } else { ((cb + 32) % 256) as u8 };
            seq![0x1bu8, 0x5b, 0x4d, b, x10_coord(col + 1), x10_coord(row + 1)]
        }
    }
}

/// A packed palette override list, as `palette_export` returns it.
pub open spec fn exported_palette(t: CoreTerminal) -> Seq<u32> {
    seq![crate::terminal::pack_rgb(t.palette_overrides().0), crate::terminal::pack_rgb(t.palette_overrides().1),
        crate::terminal::pack_rgb(t.palette_overrides().2)]
        + t.palette_overrides().3.map_values(|c: Option<(u8, u8, u8)>| crate::terminal::pack_rgb(c))
}

/// A terminal instance for a JavaScript front-end.
pub struct Terminal {
    inner: CoreTerminal,
    /// Reused buffer for input encoding.
    scratch: Vec<u8>,
}

impl Terminal {
    /// The terminal this handle drives.
    pub closed spec fn engine(&self) -> CoreTerminal {
        self.inner
    }

    pub closed spec fn wf(&self) -> bool {
        self.inner.wf()
    }

    /// Create a terminal of `cols` x `rows` with `scrollback` lines of history.
    pub fn new(cols: usize, rows: usize, scrollback: usize) -> (t: Terminal)
        ensures
            t.wf(),
            t.engine().spec_cols() == if cols == 0 { 1 } else { cols },
            t.engine().spec_rows() == if rows == 0 { 1 } else { rows },
            t.engine().history().len() == 0,
            t.engine().spec_max_scrollback() == scrollback,
            t.engine().spec_modes() == crate::terminal::default_modes(),
            t.engine().spec_display_offset() == 0,
    {
        Terminal { inner: CoreTerminal::new(cols, rows, scrollback), scratch: Vec::with_capacity(16) }
    }

    /// Feed raw bytes received from the host / PTY.
    pub fn feed(&mut self, bytes: &[u8])
        requires
            old(self).wf(),
        ensures
            final(self).wf(),
            final(self).engine().parser_state() == m_run(old(self).engine().parser_state(), bytes@).0,
            final(self).engine().spec_display_offset() == 0,
            final(self).engine().continues(&old(self).engine()),
            final(self).engine().events_applied(&old(self).engine().feed_start(&final(self).engine()),
                m_run(old(self).engine().parser_state(), bytes@).1),
    {
        self.inner.feed(bytes);
    }

    /// Feed a string (UTF-8 encoded on the boundary).
    pub fn feed_str(&mut self, s: &str)
        requires
            old(self).wf(),
        ensures
            final(self).wf(),
            final(self).engine().parser_state() == m_run(old(self).engine().parser_state(), vstd::utf8::encode_utf8(s@)).0,
            final(self).engine().spec_display_offset() == 0,
            final(self).engine().continues(&old(self).engine()),
            final(self).engine().events_applied(&old(self).engine().feed_start(&final(self).engine()),
                m_run(old(self).engine().parser_state(), vstd::utf8::encode_utf8(s@)).1),
    {
        self.inner.feed(s.as_bytes());
    }

    /// A packed render snapshot; `force` emits every row.
    pub fn snapshot(&mut self, force: bool) -> (out: Vec<u32>)
        requires
            old(self).wf(),
        ensures
            final(self).wf(),
            out@ == old(self).engine().snapshot_words(force),
            final(self).engine().snapshot_taken(&old(self).engine()),
    {
        self.inner.snapshot(force)
    }

    /// Resize the grid (0 is taken as 1).
    pub fn resize(&mut self, cols: usize, rows: usize)
        requires
            old(self).wf(),
        ensures
            final(self).wf(),
            final(self).engine().spec_cols() == if cols == 0 { 1 } else { cols },
            final(self).engine().spec_rows() == if rows == 0 { 1 } else { rows },
            (final(self).engine().spec_cols() != old(self).engine().spec_cols()
                || final(self).engine().spec_rows() != old(self).engine().spec_rows())
                ==> final(self).engine().spec_display_offset() == 0,
            final(self).engine().spec_cols() == old(self).engine().spec_cols()
                && final(self).engine().spec_rows() == old(self).engine().spec_rows()
                ==> final(self).engine() == old(self).engine(),
            (final(self).engine().spec_cols() != old(self).engine().spec_cols()
                || final(self).engine().spec_rows() != old(self).engine().spec_rows()) ==> {
                let c = final(self).engine().spec_cols() as int;
                let r = final(self).engine().spec_rows() as int;
                &&& final(self).engine().history() == rewrap_history(old(self).engine().history(),
                    old(self).engine().primary_buffer(), c, r, old(self).engine().spec_max_scrollback() as int)
                &&& final(self).engine().primary_buffer().screen() == rewrap_screen(old(self).engine().history(),
                    old(self).engine().primary_buffer(), c, r)
            },
    {
        self.inner.resize(cols, rows);
    }

    pub fn cols(&self) -> (n: usize)
        ensures
            n == self.engine().spec_cols(),
    {
        self.inner.cols()
    }

    pub fn rows(&self) -> (n: usize)
        ensures
            n == self.engine().spec_rows(),
    {
        self.inner.rows()
    }

    /// Drain the bytes the terminal wants sent back to the host.
    pub fn take_output(&mut self) -> (out: Vec<u8>)
        requires
            old(self).wf(),
        ensures
            final(self).wf(),
            out@ == old(self).engine().spec_output(),
            final(self).engine().spec_output().len() == 0,
            final(self).engine().same_except_output(&old(self).engine()),
    {
        self.inner.take_output()
    }

    /// The window title (OSC 0/2).
    pub fn title(&self) -> (s: String)
        ensures
            s@ == self.engine().spec_title(),
    {
        self.inner.title().to_owned()
    }

    /// Whether the title changed since the last call; clears the flag.
    pub fn title_changed(&mut self) -> (d: bool)
        requires
            old(self).wf(),
        ensures
            final(self).wf(),
            d == old(self).engine().spec_title_dirty(),
            !final(self).engine().spec_title_dirty(),
            final(self).engine().same_except_title_flag(&old(self).engine()),
    {
        self.inner.take_title_dirty()
    }

    /// How many times BEL has rung (wrapping).
    pub fn bell_count(&self) -> (n: u32)
        ensures
            n == self.engine().spec_bell_count(),
    {
        self.inner.bell_count()
    }

    /// The URI of OSC 8 hyperlink `id`.
    pub fn link_uri(&self, id: u32) -> (r: Option<String>)
        ensures
            r is Some <==> (1 <= id <= self.engine().link_table().len()),
            r matches Some(s) ==> s@ == self.engine().link_table()[id - 1],
    {
        match self.inner.link_uri(id) {
            Some(s) => Some(s.to_owned()),
            None => None,
        }
    }

    /// The grapheme cluster with id `id`.
    pub fn grapheme(&self, id: u32) -> (r: Option<String>)
        ensures
            r is Some <==> (1 <= id <= self.engine().grapheme_table().len()),
            r matches Some(s) ==> s@ == self.engine().grapheme_table()[id - 1],
    {
        match self.inner.grapheme(id) {
            Some(s) => Some(s.to_owned()),
            None => None,
        }
    }

    pub fn palette_version(&self) -> (v: u32)
        ensures
            v == self.engine().spec_palette_version(),
    {
        self.inner.palette_version()
    }

    /// `[fg, bg, cursor, c0..c255]`, each 0 or a packed `0x02_RRGGBB`.
    pub fn palette_export(&self) -> (out: Vec<u32>)
        requires
            self.wf(),
        ensures
            out@ == exported_palette(self.engine()),
    {
        self.inner.palette_export()
    }

    /// The theme's default fg / bg / cursor (packed RGB, low 24 bits).
    pub fn set_default_colors(&mut self, fg: u32, bg: u32, cursor: u32)
        requires
            old(self).wf(),
        ensures
            final(self).wf(),
            final(self).engine().theme_defaults() == (crate::terminal::unpack_rgb(fg), crate::terminal::unpack_rgb(bg),
                crate::terminal::unpack_rgb(cursor)),
            final(self).engine().same_except_theme(&old(self).engine()),
    {
        self.inner.set_default_colors(fg, bg, cursor);
    }

    /// The cell size in device pixels (0 is taken as 1).
    pub fn set_cell_pixels(&mut self, w: usize, h: usize)
        requires
            old(self).wf(),
        ensures
            final(self).wf(),
            final(self).engine().cell_pixels() == (if w == 0 { 1usize } else { w }, if h == 0 { 1usize } else { h }),
            final(self).engine().same_except_cell_pixels(&old(self).engine()),
    {
        self.inner.set_cell_pixels(w, h);
    }

    pub fn images_version(&self) -> (v: u32)
        ensures
            v == self.engine().spec_images_version(),
    {
        self.inner.images_version()
    }

    /// Live image ids, oldest first.
    pub fn image_ids(&self) -> (ids: Vec<u32>)
        ensures
            ids@ == self.engine().spec_images().map_values(|im: ImageRec| im.id),
    {
        self.inner.image_ids()
    }

    /// RGBA bytes of image `id`, empty if gone.
    pub fn image_rgba(&self, id: u32) -> (v: Vec<u8>)
        ensures
            v@ == match crate::terminal::image_index(self.engine().spec_images(), id) {
                Some(i) => self.engine().spec_images()[i].rgba@,
                None => Seq::<u8>::empty(),
            },
    {
        self.inner.image_rgba(id)
    }

    /// `[width, height]` of image `id`, `[0, 0]` if gone.
    pub fn image_size(&self, id: u32) -> (v: Vec<u32>)
        ensures
            v@ == match crate::terminal::image_index(self.engine().spec_images(), id) {
                Some(i) => seq![self.engine().spec_images()[i].width as u32, self.engine().spec_images()[i].height as u32],
                None => seq![0u32, 0u32],
            },
    {
        self.inner.image_size(id)
    }

    /// Flat `[id, viewport_row, col, width_px, height_px] ...` placements.
    pub fn image_placements(&self) -> (v: Vec<i32>)
        ensures
            v@ == if self.engine().spec_alt_active() { Seq::<i32>::empty() } else {
                crate::terminal::placements(self.engine().spec_images(),
                    self.engine().spec_scrolled_off().wrapping_sub(self.engine().spec_display_offset() as i64))
            },
    {
        self.inner.image_placements()
    }

    /// Scroll the viewport: a negative `delta` goes back into history, a
    /// positive one toward the present.
    pub fn scroll_lines(&mut self, delta: i32)
        requires
            old(self).wf(),
            delta != i32::MIN,
        ensures
            final(self).wf(),
            final(self).engine().spec_display_offset() == if delta < 0 {
                offset_up(old(self).engine().spec_display_offset() as int, -delta, old(self).engine().history().len() as int)
            } else {
                offset_down(old(self).engine().spec_display_offset() as int, delta as int)
            },
            final(self).engine().spec_viewport_full() == (old(self).engine().spec_viewport_full()
                || final(self).engine().spec_display_offset() != old(self).engine().spec_display_offset()),
            final(self).engine().view_frame(&old(self).engine()),
    {
        if delta < 0 {
            self.inner.scroll_up_view((-delta) as usize);
        } else if delta > 0 {
            self.inner.scroll_down_view(delta as usize);
        } else {
            proof { old(self).inner.lemma_view_frame_refl(); }
        }
    }

    pub fn scroll_to_bottom(&mut self)
        requires
            old(self).wf(),
        ensures
            final(self).wf(),
            final(self).engine().spec_display_offset() == 0,
            final(self).engine().view_frame(&old(self).engine()),
    {
        self.inner.scroll_to_bottom();
    }

    /// Put logical line `abs` at the top of the viewport.
    pub fn scroll_to_line(&mut self, abs: usize)
        requires
            old(self).wf(),
        ensures
            final(self).wf(),
            final(self).engine().spec_display_offset() == (if abs < old(self).engine().history().len() {
                old(self).engine().history().len() - abs
            } else {
                0
            }),
            final(self).engine().view_frame(&old(self).engine()),
    {
        self.inner.scroll_to_line(abs);
    }

    /// Scrollback lines plus screen rows.
    pub fn total_lines(&self) -> (n: usize)
        requires
            self.wf(),
            self.engine().history().len() + self.engine().spec_rows() <= usize::MAX,
        ensures
            n == self.engine().history().len() + self.engine().spec_rows(),
    {
        self.inner.total_lines()
    }

    /// Text of logical line `abs`.
    pub fn line_text(&self, abs: usize) -> (s: String)
        requires
            self.wf(),
        ensures
            s@ == crate::terminal::trim_end_chars(crate::terminal::visible_chars(self.engine().line_at_spec(abs as int).cells)),
    {
        self.inner.line_text(abs)
    }

    pub fn scrollback_len(&self) -> (n: usize)
        ensures
            n == self.engine().history().len(),
    {
        self.inner.scrollback_len()
    }

    pub fn display_offset(&self) -> (n: usize)
        ensures
            n == self.engine().spec_display_offset(),
    {
        self.inner.display_offset()
    }

    pub fn app_cursor_keys(&self) -> (b: bool)
        ensures
            b == self.engine().spec_modes().app_cursor_keys,
    {
        self.inner.modes().app_cursor_keys
    }

    pub fn bracketed_paste(&self) -> (b: bool)
        ensures
            b == self.engine().spec_modes().bracketed_paste,
    {
        self.inner.modes().bracketed_paste
    }

    pub fn mouse_mode(&self) -> (m: u16)
        ensures
            m == self.engine().spec_modes().mouse_mode,
    {
        self.inner.modes().mouse_mode
    }

    pub fn mouse_sgr(&self) -> (b: bool)
        ensures
            b == self.engine().spec_modes().mouse_sgr,
    {
        self.inner.modes().mouse_sgr
    }

    pub fn cursor_visible(&self) -> (b: bool)
        ensures
            b == self.engine().spec_modes().cursor_visible,
    {
        self.inner.modes().cursor_visible
    }

    /// Encode a special key press (`key` a key code, `mods` the modifier
    /// bitmask); an unknown key code gives no bytes.
    pub fn key(&mut self, key: u32, mods: u32) -> (out: Vec<u8>)
        ensures
            final(self).engine() == old(self).engine(),
            out@ == match keycode_of(key) {
                Some(k) => key_bytes(k, mods_of(mods), old(self).engine().spec_modes().app_cursor_keys),
                None => Seq::<u8>::empty(),
            },
    {
        let k = match decode_keycode(key) {
            Some(k) => k,
            None => return Vec::new(),
        };
        self.scratch.clear();
        let app = self.inner.modes().app_cursor_keys;
        encode_key(k, decode_mods(mods), app, &mut self.scratch);
        copy_bytes(&self.scratch)
    }

    /// Encode a printable character press (with Ctrl / Alt folding); a code
    /// point that is not a Unicode scalar value gives no bytes.
    pub fn char_input(&mut self, code_point: u32, mods: u32) -> (out: Vec<u8>)
        ensures
            final(self).engine() == old(self).engine(),
            out@ == if crate::chars::is_scalar_cp(code_point) {
                char_bytes(code_point as char, mods_of(mods))
            } else {
                Seq::<u8>::empty()
            },
    {
        let c = match crate::chars::char_from_u32(code_point) {
            Some(c) => c,
            None => return Vec::new(),
        };
        self.scratch.clear();
        encode_char(c, decode_mods(mods), &mut self.scratch);
        copy_bytes(&self.scratch)
    }

    /// Encode a mouse event in the current mouse protocol; empty when mouse
    /// reporting is off. `button`: 0 left, 1 middle, 2 right, 64 wheel up,
    /// 65 wheel down; `action`: 0 press, 1 release, 2 motion; `col` / `row`
    /// are 0-based.
    pub fn mouse(&mut self, button: u32, col: u32, row: u32, action: u32, mods: u32) -> (out: Vec<u8>)
        requires
            mouse_reported(old(self).engine().spec_modes(), action) ==> col < u32::MAX && row < u32::MAX,
        ensures
            final(self).engine() == old(self).engine(),
            out@ == mouse_bytes(old(self).engine().spec_modes(), button, col, row, action, mods),
    {
        let modes = self.inner.modes();
        if modes.mouse_mode == 0 {
            return Vec::new();
        }
        if action == 2 && modes.mouse_mode != 1002 && modes.mouse_mode != 1003 {
            return Vec::new();
        }
        let m = decode_mods(mods);
        let mut cb = button & 0xff;
        if m.shift {
            cb = cb | 4;
        }
        if m.alt {
            cb = cb | 8;
        }
        if m.ctrl {
            cb = cb | 16;
        }
        if action == 2 {
            cb = cb | 32;
        }
        proof { lemma_cb_steps(button, m, action); }
        let mut out: Vec<u8> = Vec::new();
        let c1 = col + 1;
        let r1 = row + 1;
        if modes.mouse_sgr {
            out.push(0x1b);
            out.push(0x5b);
            out.push(0x3c);
            push_decimal(&mut out, cb as u64);
            out.push(0x3b);
            push_decimal(&mut out, c1 as u64);
            out.push(0x3b);
            push_decimal(&mut out, r1 as u64);
            out.push(if action == 1 { 0x6d } else { 0x4d });
        } else {
            let b: u8 = if action == 1 { 3 + 32 } else { ((cb + 32) % 256) as u8 };
            out.push(0x1b);
            out.push(0x5b);
            out.push(0x4d);
            out.push(b);
            out.push(x10(c1));
            out.push(x10(r1));
        }
        assert(out@ =~= mouse_bytes(self.inner.spec_modes(), button, col, row, action, mods));
        out
    }
}

/// The button byte assembled flag by flag equals `mouse_cb`.
proof fn lemma_cb_steps(button: u32, m: Mods, action: u32)
    ensures
        ({
            let c0 = button & 0xff;
            let c1 = if m.shift { c0 | 4 } else { c0 };
            let c2 = if m.alt { c1 | 8 } else { c1 };
            let c3 = if m.ctrl { c2 | 16 } else { c2 };
            let c4 = if action == 2 { c3 | 32 } else { c3 };
            c4 == mouse_cb(button, m, action) && c4 <= 0xff
        }),
{
    assert(button & 0xff <= 0xff) by (bit_vector);
    assert(forall|x: u32, k: u32| x <= 0xff && (k == 0 || k == 4 || k == 8 || k == 16 || k == 32) ==> #[trigger] (x | k) <= 0xff)
        by (bit_vector);
    assert(forall|x: u32| #[trigger] (x | 0u32) == x) by (bit_vector);
}

/// An X10 coordinate byte.
fn x10(v: u32) -> (b: u8)
    ensures
        b == x10_coord(v as int),
{
    let c = if v < 223 { v } else { 223 };
    (c + 32) as u8
}

/// A copy of a byte vector.
fn copy_bytes(v: &Vec<u8>) -> (out: Vec<u8>)
    ensures
        out@ == v@,
{
    let mut out: Vec<u8> = Vec::with_capacity(v.len());
    let mut i: usize = 0;
    while i < v.len()
        invariant
            i <= v@.len(),
            out@ == v@.take(i as int),
        decreases v.len() - i,
    {
        out.push(v[i]);
        i = i + 1;
        assert(out@ =~= v@.take(i as int));
    }
    assert(v@.take(i as int) =~= v@);
    out
}

} // verus!
