//! The terminal state machine: implements `Perform` to turn parser tokens into
//! buffer mutations, tracks modes, scrollback and the alt-screen, resolves
//! OSC 8 hyperlinks, and produces render snapshots.

use vstd::prelude::*;
use std::collections::VecDeque;
use crate::attr;
use crate::cell::{Cell, Color, Pen, default_pen, default_cell, packed_color};
use crate::grid::{Buffer, Line, Cursor, SavedCursor, LineView, line_views, lemma_line_views_push, fit_cells, default_line_view, Edit, edit_screen, edit_dirty, region_up, blank_line_view, dirty_range, repeat_line, all_true};
use crate::parser::{Parser, Perform, Event, events_of, bytes_view, model_wf, m_run, initial_model};
use crate::params::{Params, p_get, p_get_sub, first_values};
use crate::width::{char_width, spec_char_width};
use crate::palette;
use crate::kitty::Cmd;
use crate::img::Format;
use crate::strings::{push_char, string_from_chars, lossy_string, utf8_lossy};
use crate::text::{parse_bounded, trim, split_on};
use vstd::utf8::valid_utf8;

verus! {

/// Which dynamic default color an OSC 10/11/12 sequence targets.
#[derive(Clone, Copy, PartialEq, Eq, Structural)]
pub enum DynColor {
    Fg,
    Bg,
    Cursor,
}

/// The render-snapshot magic word (`F3E7` + version).
pub const SNAPSHOT_MAGIC: u32 = 0xF3E7_0001;
/// Words per cell in a snapshot: `[codepoint, fg, bg, flags, link, grapheme]`.
pub const SNAPSHOT_CELL_WORDS: usize = 6;

/// DEC private + ANSI modes that are tracked. Exposed to the host so it can
/// encode keyboard and mouse input the way the running program expects.
#[derive(Clone, Copy, Debug, PartialEq, Eq, Structural)]
pub struct Modes {
    /// DECAWM (7)
    pub autowrap: bool,
    /// DECTCEM (25)
    pub cursor_visible: bool,
    /// (12)
    pub cursor_blink: bool,
    /// DECCKM (1)
    pub app_cursor_keys: bool,
    /// DECKPAM
    pub app_keypad: bool,
    /// IRM (4)
    pub insert: bool,
    /// LNM (20)
    pub newline_mode: bool,
    /// (2004)
    pub bracketed_paste: bool,
    /// (1004)
    pub focus_events: bool,
    /// DECOM (6)
    pub origin: bool,
    /// Mouse tracking: 0=off, 9=X10, 1000=button, 1002=drag, 1003=any.
    pub mouse_mode: u16,
    /// SGR mouse encoding (1006).
    pub mouse_sgr: bool,
    /// DECSCNM (5)
    pub reverse_video: bool,
}

pub open spec fn default_modes() -> Modes {
    Modes {
        autowrap: true,
        cursor_visible: true,
        cursor_blink: true,
        app_cursor_keys: false,
        app_keypad: false,
        insert: false,
        newline_mode: false,
        bracketed_paste: false,
        focus_events: false,
        origin: false,
        mouse_mode: 0,
        mouse_sgr: false,
        reverse_video: false,
    }
}

impl Default for Modes {
    fn default() -> (m: Modes)
        ensures
            m == default_modes(),
    {
        Modes {
            autowrap: true,
            cursor_visible: true,
            cursor_blink: true,
            app_cursor_keys: false,
            app_keypad: false,
            insert: false,
            newline_mode: false,
            bracketed_paste: false,
            focus_events: false,
            origin: false,
            mouse_mode: 0,
            mouse_sgr: false,
            reverse_video: false,
        }
    }
}

/// The MIME hint of a placed image's encoded bytes.
#[derive(Clone, Copy, PartialEq, Eq, Structural)]
pub enum Mime {
    /// Decoded RGBA (Sixel, raw Kitty): no encoded bytes.
    Rgba,
    /// A recognised container format.
    Known(Format),
    /// Encoded bytes of an unrecognised format.
    OctetStream,
}

/// A placed inline image (Sixel, iTerm2 `File=`, or Kitty).
pub struct ImageRec {
    pub id: u32,
    /// Absolute line serial of the image's top row (see `scrolled_off`).
    pub serial: i64,
    /// Left column (cell) of the image.
    pub col: usize,
    /// Display box in device pixels.
    pub width: usize,
    pub height: usize,
    /// Height in whole cells (for scroll/prune math).
    pub rows_cells: usize,
    /// Decoded RGBA pixels (Sixel / raw Kitty); empty for an encoded image.
    pub rgba: Vec<u8>,
    /// Raw image-file bytes (iTerm2 / Kitty PNG); empty for RGBA images.
    pub encoded: Vec<u8>,
    pub mime: Mime,
    /// True for a Kitty-protocol placement.
    pub from_kitty: bool,
    /// Kitty client image id this placement came from (0 = none).
    pub kitty_id: u32,
}

/// The items of `s` whose flag in `k` is set, in order.
pub open spec fn kept<T>(s: Seq<T>, k: Seq<bool>) -> Seq<T>
    decreases s.len(),
{
    if s.len() == 0 {
        Seq::empty()
    } else {
        kept(s.drop_last(), k.drop_last()) + (if k.last() { seq![s.last()] } else { Seq::empty() })
    }
}

/// For each image, whether it lies wholly outside the absolute rows
/// `[top, bottom)`.
pub open spec fn off_screen_flags(ims: Seq<ImageRec>, top: i64, bottom: i64) -> Seq<bool> {
    Seq::new(ims.len(), |i: int| ims[i].serial.wrapping_add(ims[i].rows_cells as i64) <= top || ims[i].serial >= bottom)
}

/// The first of the first `u32::MAX` cluster texts equal to `s`.
pub open spec fn first_text(ts: Seq<Seq<char>>, s: Seq<char>) -> Option<int> {
    if exists|i: int| 0 <= i < ts.len() && i < u32::MAX && ts[i] == s {
        Some(choose|i: int| 0 <= i < ts.len() && i < u32::MAX && ts[i] == s && forall|j: int| 0 <= j < i ==> ts[j] != s)
    } else {
        None
    }
}

/// The cluster table after interning `s`: unchanged when `s` is there,
/// otherwise with `s` appended.
pub open spec fn interned_texts(ts: Seq<Seq<char>>, s: Seq<char>) -> Seq<Seq<char>> {
    if first_text(ts, s) is Some { ts } else { ts.push(s) }
}

/// The id interning `s` gives: its position plus one, or the new table
/// length (saturating at `u32::MAX`).
pub open spec fn interned_id(ts: Seq<Seq<char>>, s: Seq<char>) -> u32 {
    match first_text(ts, s) {
        Some(i) => (i + 1) as u32,
        None => if ts.len() + 1 <= u32::MAX { (ts.len() + 1) as u32 } else { u32::MAX },
    }
}

/// The cluster a cell shows: its interned text, or its own scalar.
pub open spec fn cluster_text(ts: Seq<Seq<char>>, cell: Cell) -> Seq<char> {
    if cell.grapheme != 0 && cell.grapheme <= ts.len() { ts[cell.grapheme - 1] } else { seq![cell.ch] }
}

/// The position of the first `:` in `b` at or after `i` (`b.len()` if none).
pub open spec fn colon_from(b: Seq<u8>, i: int) -> int
    decreases b.len() - i,
{
    if i >= b.len() { b.len() as int } else if b[i] == 0x3a { i } else { colon_from(b, i + 1) }
}

/// The image bytes of an iTerm2 `File=<args>:<base64>` body, when it is one
/// and they decode to something.
pub open spec fn iterm_bytes(body: Seq<u8>) -> Option<Seq<u8>> {
    let c = colon_from(body, 5);
    if body.len() >= 5 && body.subrange(0, 5) == seq![0x46u8, 0x69, 0x6c, 0x65, 0x3d] && c < body.len() {
        match crate::img::base64_decoded(body.subrange(c + 1, body.len() as int)) {
            Some(bytes) => if bytes.len() > 0 { Some(bytes) } else { None },
            None => None,
        }
    } else {
        None
    }
}

/// `px` RGB pixels of `b` widened to RGBA with opaque alpha.
pub open spec fn rgb_to_rgba(b: Seq<u8>, px: int) -> Seq<u8>
    decreases px,
{
    if px <= 0 {
        Seq::empty()
    } else {
        rgb_to_rgba(b, px - 1) + seq![b[3 * (px - 1)], b[3 * (px - 1) + 1], b[3 * (px - 1) + 2], 0xffu8]
    }
}

/// One more pixel widens to four more bytes.
proof fn lemma_rgb_to_rgba_step(b: Seq<u8>, p: int)
    requires
        p >= 0,
    ensures
        rgb_to_rgba(b, p + 1) == rgb_to_rgba(b, p) + seq![b[3 * p], b[3 * p + 1], b[3 * p + 2], 0xffu8],
{
}

/// A completed Kitty transmission made displayable: raw RGB (24) and RGBA
/// (32) of a plausible size with enough bytes become RGBA (format 32) of
/// exactly `w * h` pixels; PNG (100) is kept as sent, with the size its
/// header gives (0 x 0 when none); any other format is refused. The result
/// is the format, width, height and data.
pub open spec fn kitty_normalized(first: Cmd, bytes: Seq<u8>) -> Option<(u32, u32, u32, Seq<u8>)> {
    if first.format == 24 || first.format == 32 {
        let w = first.width as int;
        let h = first.height as int;
        let bpp: int = if first.format == 24 { 3 } else { 4 };
        if w == 0 || h == 0 || w > 65536 || h > 65536 || bytes.len() < w * h * bpp {
            None
        } else {
            Some((32, first.width, first.height,
                if first.format == 24 { rgb_to_rgba(bytes, w * h) } else { bytes.subrange(0, w * h * 4) }))
        }
    } else if first.format == 100 {
        let d = match crate::img::dims_of(bytes) { Some(d) => d, None => (0u32, 0u32) };
        Some((100, d.0, d.1, bytes))
    } else {
        None
    }
}

/// For each image, whether a Kitty delete keeps it: by id, all but that
/// client id's Kitty placements; otherwise all but Kitty placements.
pub open spec fn kitty_keep_flags(ims: Seq<ImageRec>, by_id: bool, id: u32) -> Seq<bool> {
    Seq::new(ims.len(), |i: int| if by_id { !(ims[i].from_kitty && ims[i].kitty_id == id) } else { !ims[i].from_kitty })
}

/// The Kitty `OK` acknowledgement for client image `id` (none: no id field).
pub open spec fn kitty_ok(id: u32) -> Seq<u8> {
    if id != 0 {
        seq![0x1bu8, 0x5f, 0x47, 0x69, 0x3d] + crate::keys::dec(id as nat) + seq![0x3bu8, 0x4f, 0x4b, 0x1b, 0x5c]
    } else {
        seq![0x1bu8, 0x5f, 0x47, 0x3b, 0x4f, 0x4b, 0x1b, 0x5c]
    }
}

/// For each image, whether some row of it is newer than absolute row
/// `oldest` (still within retained history).
pub open spec fn kept_history_flags(ims: Seq<ImageRec>, oldest: i64) -> Seq<bool> {
    Seq::new(ims.len(), |i: int| ims[i].serial.wrapping_add(ims[i].rows_cells as i64) > oldest)
}

/// The last `m` items of `s` (all of them when there are no more than `m`).
pub open spec fn last_n<T>(s: Seq<T>, m: nat) -> Seq<T> {
    if s.len() <= m { s } else { s.subrange(s.len() - m, s.len() as int) }
}

/// Capping after each push keeps the same items as capping once at the end.
pub proof fn lemma_last_n_push<T>(s: Seq<T>, x: T, m: nat)
    ensures
        last_n(last_n(s, m).push(x), m) == last_n(s.push(x), m),
{
    if s.len() > m {
        assert(last_n(last_n(s, m).push(x), m) =~= last_n(s.push(x), m));
    } else {
        assert(last_n(s, m) == s);
    }
}

/// A Kitty image transmitted but not (yet) displayed, kept so a later `a=p`
/// can place it by id. `data` is normalized: RGBA pixels (format 32) or the
/// PNG file as sent (format 100).
pub struct KittyImage {
    pub id: u32,
    pub format: u32,
    /// Native pixel size (0 if unknown).
    pub width: u32,
    pub height: u32,
    pub data: Vec<u8>,
}

impl View for KittyImage {
    /// Client id, format, width, height and data.
    type V = (u32, u32, u32, u32, Seq<u8>);

    open spec fn view(&self) -> (u32, u32, u32, u32, Seq<u8>) {
        (self.id, self.format, self.width, self.height, self.data@)
    }
}

/// The views of stored Kitty images.
pub open spec fn kitty_views(s: Seq<KittyImage>) -> Seq<(u32, u32, u32, u32, Seq<u8>)> {
    s.map_values(|k: KittyImage| k@)
}

/// Keeping items and then viewing them views the kept items.
pub proof fn lemma_kept_views(s: Seq<KittyImage>, f: Seq<bool>)
    ensures
        kitty_views(kept(s, f)) == kept(kitty_views(s), f),
    decreases s.len(),
{
    if s.len() > 0 {
        lemma_kept_views(s.drop_last(), f.drop_last());
        assert(kitty_views(s.drop_last()) =~= kitty_views(s).drop_last());
        let tail = if f.last() { seq![s.last()] } else { Seq::<KittyImage>::empty() };
        assert(kitty_views(kept(s.drop_last(), f.drop_last()) + tail)
            =~= kitty_views(kept(s.drop_last(), f.drop_last())) + kitty_views(tail));
    }
}

/// The image a finished Kitty transfer yields: direct and uncompressed,
/// base64 that decodes to some bytes, and a displayable format.
pub open spec fn kitty_image_of(first: Cmd, all: Seq<u8>) -> Option<(u32, u32, u32, u32, Seq<u8>)> {
    if first.medium != 0x64 || first.compressed {
        None
    } else {
        match crate::img::base64_decoded(all) {
            None => None,
            Some(bytes) => if bytes.len() == 0 {
                None
            } else {
                match kitty_normalized(first, bytes) {
                    None => None,
                    Some((f, w, h, d)) => Some((first.id, f, w, h, d)),
                }
            },
        }
    }
}

/// The total data bytes of stored images, added in order and saturating at
/// `u64::MAX`.
pub open spec fn stored_bytes(s: Seq<(u32, u32, u32, u32, Seq<u8>)>) -> u64
    decreases s.len(),
{
    if s.len() == 0 {
        0
    } else {
        let t = stored_bytes(s.drop_last());
        let l = s.last().4.len();
        if t <= u64::MAX - l { (t + l) as u64 } else { u64::MAX }
    }
}

/// How many of the stored images `s` (oldest first, `total` bytes counted)
/// stay when the oldest go while the total exceeds the store cap and more
/// than one remains.
pub open spec fn bytes_trimmed(s: Seq<(u32, u32, u32, u32, Seq<u8>)>, total: int) -> int
    decreases s.len(),
{
    if total > MAX_KITTY_STORE && s.len() > 1 {
        let l = s[0].4.len() as int;
        bytes_trimmed(s.drop_first(), if total >= l { total - l } else { 0 })
    } else {
        s.len() as int
    }
}

/// The base64 gathered so far by a Kitty transfer in progress.
pub open spec fn pending_bytes(p: Option<(Cmd, Vec<u8>)>) -> Seq<u8> {
    match p {
        Some((_c, v)) => v@,
        None => Seq::empty(),
    }
}

/// The first stored Kitty image with client id `id`.
pub open spec fn stored_index(s: Seq<KittyImage>, id: u32) -> Option<int> {
    if exists|i: int| 0 <= i < s.len() && s[i].id == id {
        Some(choose|i: int| 0 <= i < s.len() && s[i].id == id && forall|j: int| 0 <= j < i ==> s[j].id != id)
    } else {
        None
    }
}

/// Cap on the base64 accepted for a single (possibly chunked) Kitty image.
pub const MAX_KITTY_B64: usize = 16777216;
/// Cap on total bytes held in the Kitty transmit store.
pub const MAX_KITTY_STORE: usize = 33554432;
/// Cap on the number of live images.
pub const MAX_IMAGES: usize = 256;

/// A full terminal emulator instance.
pub struct Terminal {
    parser: Parser,
    /// The buffer on display (the alternate screen while it is active).
    screen: Buffer,
    /// The buffer not on display.
    other: Buffer,
    alt_active: bool,
    /// Scrollback for the primary screen (oldest at front).
    scrollback: VecDeque<Line>,
    max_scrollback: usize,
    /// Lines scrolled up into history for viewing (0 = at bottom).
    display_offset: usize,
    /// Set when the viewport must be fully re-emitted.
    viewport_full: bool,
    pen: Pen,
    cur_link: u32,
    modes: Modes,
    /// OSC 8 hyperlink URIs; link id `n` is `links[n - 1]`.
    links: Vec<String>,
    /// Grapheme-cluster strings; cell grapheme id `n` is `graphemes[n - 1]`.
    graphemes: Vec<String>,
    /// Position of the last printed base cell, for attaching combining marks.
    last_grapheme: Option<(usize, usize)>,
    /// A ZWJ was just seen; the next scalar joins the current cluster.
    pending_zwj: bool,
    /// The last printed base was a lone regional indicator.
    last_ri: bool,
    title: String,
    title_dirty: bool,
    /// Bytes the terminal wants to send back to the host (DSR/DA replies).
    output: Vec<u8>,
    /// BEL counter: the host can flash / beep.
    pub bell_count: u32,
    /// Dynamic palette overrides set via OSC 4/10/11/12 (`None` = theme).
    palette_indexed: Vec<Option<(u8, u8, u8)>>,
    palette_fg: Option<(u8, u8, u8)>,
    palette_bg: Option<(u8, u8, u8)>,
    palette_cursor: Option<(u8, u8, u8)>,
    /// Theme defaults, used to answer OSC color queries.
    default_fg: (u8, u8, u8),
    default_bg: (u8, u8, u8),
    default_cursor: (u8, u8, u8),
    /// Bumped on every palette change.
    palette_version: u32,
    images: Vec<ImageRec>,
    next_image_id: u32,
    /// Bumped whenever the image set changes.
    images_version: u32,
    /// Lines scrolled off the top of the primary screen over the lifetime.
    scrolled_off: i64,
    /// Cell size in device pixels, set by the front-end.
    cell_px_w: usize,
    cell_px_h: usize,
    /// Kitty: the first chunk's control block and the base64 so far.
    kitty_pending: Option<(Cmd, Vec<u8>)>,
    /// Kitty images transmitted but not displayed.
    kitty_store: Vec<KittyImage>,
}

impl Terminal {
    /// The consistency condition every operation keeps: both screens are
    /// well-formed and of one size, the scrollback respects its cap, the
    /// viewport offset stays inside the scrollback, the palette has 256
    /// slots and the parser is in a reachable state.
    pub closed spec fn wf(&self) -> bool {
        &&& self.screen.wf()
        &&& self.other.wf()
        &&& self.screen.cols == self.other.cols
        &&& self.screen.rows == self.other.rows
        &&& self.scrollback@.len() <= self.max_scrollback
        &&& self.display_offset <= self.scrollback@.len()
        &&& self.palette_indexed@.len() == 256
        &&& model_wf(self.parser@)
        &&& self.cell_px_w >= 1
        &&& self.cell_px_h >= 1
    }

    /// A well-formed terminal has at least one row and one column.
    pub proof fn lemma_wf_size(&self)
        requires
            self.wf(),
        ensures
            self.spec_cols() >= 1,
            self.spec_rows() >= 1,
    {
    }

    pub closed spec fn spec_cols(&self) -> usize {
        self.screen.cols
    }

    pub closed spec fn spec_rows(&self) -> usize {
        self.screen.rows
    }

    /// The buffer on display.
    pub closed spec fn active(&self) -> Buffer {
        self.screen
    }

    /// The primary screen buffer, whichever screen is showing.
    pub closed spec fn primary_buffer(&self) -> Buffer {
        if self.alt_active { self.other } else { self.screen }
    }

    pub closed spec fn spec_display_offset(&self) -> usize {
        self.display_offset
    }

    pub closed spec fn spec_viewport_full(&self) -> bool {
        self.viewport_full
    }

    pub closed spec fn history(&self) -> Seq<LineView> {
        line_views(self.scrollback@)
    }

    pub closed spec fn spec_max_scrollback(&self) -> usize {
        self.max_scrollback
    }

    pub closed spec fn spec_output(&self) -> Seq<u8> {
        self.output@
    }

    pub closed spec fn spec_modes(&self) -> Modes {
        self.modes
    }

    /// The pen new cells are written with.
    pub closed spec fn spec_pen(&self) -> Pen {
        self.pen
    }

    /// The hyperlink id new cells carry (0 = none).
    pub closed spec fn spec_cur_link(&self) -> u32 {
        self.cur_link
    }

    pub closed spec fn spec_title(&self) -> Seq<char> {
        self.title@
    }

    pub closed spec fn spec_title_dirty(&self) -> bool {
        self.title_dirty
    }

    pub closed spec fn parser_state(&self) -> crate::parser::ParserModel {
        self.parser@
    }

    pub closed spec fn grapheme_table(&self) -> Seq<Seq<char>> {
        self.graphemes@.map_values(|s: String| s@)
    }

    pub closed spec fn link_table(&self) -> Seq<Seq<char>> {
        self.links@.map_values(|s: String| s@)
    }

    pub closed spec fn spec_palette_version(&self) -> u32 {
        self.palette_version
    }

    pub closed spec fn palette_overrides(&self) -> (Option<(u8, u8, u8)>, Option<(u8, u8, u8)>, Option<(u8, u8, u8)>, Seq<Option<(u8, u8, u8)>>) {
        (self.palette_fg, self.palette_bg, self.palette_cursor, self.palette_indexed@)
    }

    pub closed spec fn theme_defaults(&self) -> ((u8, u8, u8), (u8, u8, u8), (u8, u8, u8)) {
        (self.default_fg, self.default_bg, self.default_cursor)
    }

    pub closed spec fn cell_pixels(&self) -> (usize, usize) {
        (self.cell_px_w, self.cell_px_h)
    }

    pub closed spec fn spec_images(&self) -> Seq<ImageRec> {
        self.images@
    }

    pub closed spec fn spec_images_version(&self) -> u32 {
        self.images_version
    }

    pub closed spec fn spec_alt_active(&self) -> bool {
        self.alt_active
    }

    pub closed spec fn spec_bell_count(&self) -> u32 {
        self.bell_count
    }

    pub closed spec fn spec_scrolled_off(&self) -> i64 {
        self.scrolled_off
    }

    /// The alternate screen buffer, whichever screen is showing.
    pub closed spec fn alternate_buffer(&self) -> Buffer {
        if self.alt_active { self.screen } else { self.other }
    }

    /// Only the two screen buffers, the history and the viewport position
    /// differ from `o`.
    pub closed spec fn same_except_layout(&self, o: &Terminal) -> bool {
        *self == (Terminal {
            screen: self.screen,
            other: self.other,
            scrollback: self.scrollback,
            display_offset: self.display_offset,
            viewport_full: self.viewport_full,
            ..*o
        })
    }

    /// What `same_except_layout` keeps, read through the public views: the
    /// pen, modes, title, bell, replies, parser, tables, palette, images and
    /// every other field outside the screens and the history.
    pub proof fn lemma_same_except_layout(&self, o: &Terminal)
        requires
            self.same_except_layout(o),
        ensures
            self.spec_alt_active() == o.spec_alt_active(),
            self.spec_max_scrollback() == o.spec_max_scrollback(),
            self.spec_output() == o.spec_output(),
            self.spec_modes() == o.spec_modes(),
            self.spec_pen() == o.spec_pen(),
            self.spec_cur_link() == o.spec_cur_link(),
            self.spec_title() == o.spec_title(),
            self.spec_title_dirty() == o.spec_title_dirty(),
            self.parser_state() == o.parser_state(),
            self.grapheme_table() == o.grapheme_table(),
            self.link_table() == o.link_table(),
            self.spec_palette_version() == o.spec_palette_version(),
            self.palette_overrides() == o.palette_overrides(),
            self.theme_defaults() == o.theme_defaults(),
            self.cell_pixels() == o.cell_pixels(),
            self.spec_images() == o.spec_images(),
            self.spec_images_version() == o.spec_images_version(),
            self.spec_bell_count() == o.spec_bell_count(),
            self.spec_scrolled_off() == o.spec_scrolled_off(),
    {
    }

    pub fn new(cols: usize, rows: usize, max_scrollback: usize) -> (t: Terminal)
        ensures
            t.wf(),
            t.spec_cols() == if cols == 0 { 1 } else { cols },
            t.spec_rows() == if rows == 0 { 1 } else { rows },
            t.active().screen() == crate::grid::repeat_line(crate::grid::default_line_view(t.spec_cols() as nat), t.spec_rows() as nat),
            t.active().cursor == (Cursor { x: 0, y: 0, pending_wrap: false }),
            t.history().len() == 0,
            t.spec_max_scrollback() == max_scrollback,
            t.spec_display_offset() == 0,
            t.spec_viewport_full(),
            t.spec_modes() == default_modes(),
            t.spec_title().len() == 0,
            !t.spec_title_dirty(),
            t.spec_output().len() == 0,
            t.parser_state() == initial_model(),
            t.grapheme_table().len() == 0,
            t.link_table().len() == 0,
            t.spec_palette_version() == 0,
            t.palette_overrides() == (None::<(u8, u8, u8)>, None::<(u8, u8, u8)>, None::<(u8, u8, u8)>, Seq::new(256, |_i: int| None::<(u8, u8, u8)>)),
            t.theme_defaults() == ((0xe6u8, 0xe6u8, 0xe6u8), (0x1au8, 0x1bu8, 0x26u8), (0xe6u8, 0xe6u8, 0xe6u8)),
            t.cell_pixels() == (8usize, 16usize),
            t.spec_images().len() == 0,
            t.spec_images_version() == 0,
            !t.spec_alt_active(),
            t.spec_bell_count() == 0,
    {
        let mut pal: Vec<Option<(u8, u8, u8)>> = Vec::with_capacity(256);
        let mut i: usize = 0;
        while i < 256
            invariant
                i <= 256,
                pal@ == Seq::new(i as nat, |_i: int| None::<(u8, u8, u8)>),
            decreases 256 - i,
        {
            pal.push(None);
            i = i + 1;
            assert(pal@ =~= Seq::new(i as nat, |_i: int| None::<(u8, u8, u8)>));
        }
        let t = Terminal {
            parser: Parser::new(),
            screen: Buffer::new(cols, rows),
            other: Buffer::new(cols, rows),
            alt_active: false,
            scrollback: VecDeque::new(),
            max_scrollback,
            display_offset: 0,
            viewport_full: true,
            pen: Pen::new(),
            cur_link: 0,
            modes: Modes::default(),
            links: Vec::new(),
            graphemes: Vec::new(),
            last_grapheme: None,
            pending_zwj: false,
            last_ri: false,
            title: String::new(),
            title_dirty: false,
            output: Vec::new(),
            bell_count: 0,
            palette_indexed: pal,
            palette_fg: None,
            palette_bg: None,
            palette_cursor: None,
            // Match the front-end's default theme so `?` queries are sensible
            // before the host calls `set_default_colors`.
            default_fg: (0xe6, 0xe6, 0xe6),
            default_bg: (0x1a, 0x1b, 0x26),
            default_cursor: (0xe6, 0xe6, 0xe6),
            palette_version: 0,
            images: Vec::new(),
            next_image_id: 1,
            images_version: 0,
            scrolled_off: 0,
            cell_px_w: 8,
            cell_px_h: 16,
            kitty_pending: None,
            kitty_store: Vec::new(),
        };
        assert(t.grapheme_table() =~= Seq::<Seq<char>>::empty());
        assert(t.link_table() =~= Seq::<Seq<char>>::empty());
        assert(t.history() =~= Seq::<LineView>::empty());
        t
    }

    pub fn cols(&self) -> (n: usize)
        ensures
            n == self.spec_cols(),
    {
        self.screen.cols
    }

    pub fn rows(&self) -> (n: usize)
        ensures
            n == self.spec_rows(),
    {
        self.screen.rows
    }

    pub fn modes(&self) -> (m: &Modes)
        ensures
            *m == self.spec_modes(),
    {
        &self.modes
    }

    pub fn title(&self) -> (t: &str)
        ensures
            t@ == self.spec_title(),
    {
        self.title.as_str()
    }

    /// Whether the title changed since the last call; clears the flag.
    pub fn take_title_dirty(&mut self) -> (d: bool)
        ensures
            d == old(self).spec_title_dirty(),
            !final(self).spec_title_dirty(),
            final(self).same_except_title_flag(old(self)),
            old(self).wf() ==> final(self).wf(),
    {
        let d = self.title_dirty;
        self.title_dirty = false;
        d
    }

    pub fn scrollback_len(&self) -> (n: usize)
        ensures
            n == self.history().len(),
    {
        self.scrollback.len()
    }

    pub fn display_offset(&self) -> (n: usize)
        ensures
            n == self.spec_display_offset(),
    {
        self.display_offset
    }

    /// The active buffer's line `y` (visible grid, ignoring the scrollback
    /// offset); `y` is clamped to the last row.
    pub fn active_line(&self, y: usize) -> (l: &Line)
        requires
            self.wf(),
        ensures
            l@ == self.active().screen()[if y < self.spec_rows() { y as int } else { self.spec_rows() - 1 }],
    {
        let r = self.screen.rows;
        let yy = if y < r { y } else { r - 1 };
        self.screen.line(yy)
    }

    /// The cursor position of the active buffer.
    pub fn cursor(&self) -> (c: (usize, usize))
        ensures
            c == (self.active().cursor.x, self.active().cursor.y),
    {
        (self.screen.cursor.x, self.screen.cursor.y)
    }

    /// Total number of logical lines: scrollback history plus the screen.
    pub fn total_lines(&self) -> (n: usize)
        requires
            self.wf(),
            self.history().len() + self.spec_rows() <= usize::MAX,
        ensures
            n == self.history().len() + self.spec_rows(),
    {
        self.scrollback.len() + self.screen.rows
    }

    /// Scroll the viewport so logical line `abs` is at the top.
    pub fn scroll_to_line(&mut self, abs: usize)
        requires
            old(self).wf(),
        ensures
            final(self).wf(),
            final(self).spec_display_offset() == (if abs < old(self).history().len() { old(self).history().len() - abs } else { 0 }),
            final(self).spec_viewport_full() == (old(self).spec_viewport_full()
                || final(self).spec_display_offset() != old(self).spec_display_offset()),
            final(self).view_frame(old(self)),
    {
        let back = self.scrollback.len();
        let off = if abs < back { back - abs } else { 0 };
        if off != self.display_offset {
            self.display_offset = off;
            self.viewport_full = true;
        }
    }

    /// Everything but the viewport offset and its redraw flag is unchanged.
    pub closed spec fn view_frame(&self, o: &Terminal) -> bool {
        *self == (Terminal { display_offset: self.display_offset, viewport_full: self.viewport_full, ..*o })
    }

    /// `self` is `o` after a CSI sequence with parameters `p` and final
    /// `action`: an ignored sequence changes nothing; otherwise the cluster in
    /// progress ends and cursor motion, SGR, scroll up, scroll region, the
    /// erase / insert / delete / scroll-down edits, status and attribute
    /// reports, cursor save / restore and the mode finals `h` / `l` (private
    /// with a `?` intermediate) take the effect stated here; an unknown final
    /// changes nothing more.
    pub closed spec fn csi_effect(&self, o: &Terminal, p: Seq<Seq<u16>>, inter: Seq<u8>, ignore: bool, action: char) -> bool {
        let t = o.grapheme_broken();
        if ignore {
            *self == *o
        } else if is_motion_final(action) {
            *self == t.with_cursor(motion_cursor(t.screen, t.modes.origin, p, action))
        } else if action == 'm' {
            *self == (Terminal { pen: sgr_pen(t.pen, p), ..t })
        } else if action == 'n' {
            &&& *self == (Terminal { output: self.output, ..t })
            &&& self.output@ == t.output@ + dsr_reply(p_get(p, 0, 0), t.screen.cursor)
        } else if action == 'c' {
            &&& *self == (Terminal { output: self.output, ..t })
            &&& self.output@ == t.output@ + seq![0x1bu8, 0x5b, 0x3f, 0x31, 0x3b, 0x32, 0x63]
        } else if action == 'S' {
            self.region_scrolled_up(&t, count_of(p, 0))
        } else if action == 'r' {
            let (top, bottom) = region_of(p, t.screen.rows as int);
            let valid = top < bottom;
            let nt = if valid { top as usize } else { t.screen.scroll_top };
            let nb = if valid { bottom as usize } else { t.screen.scroll_bottom };
            let home = if t.modes.origin { nt } else { 0 };
            *self == (Terminal { screen: Buffer { scroll_top: nt, scroll_bottom: nb,
                cursor: t.screen.clamped(0, home), ..t.screen }, ..t })
        } else if csi_edit(p, action) is Some {
            let e = csi_edit(p, action)->0;
            &&& self.screen.same_frame(&t.screen)
            &&& self.screen.screen() == edit_screen(t.screen, e, t.pen)
            &&& self.screen.dirty@ == edit_dirty(t.screen, e)
            &&& if e == Edit::All && !t.alt_active {
                (Terminal { screen: t.screen, ..*self }).screen_images_cleared(&t)
            } else {
                *self == (Terminal { screen: self.screen, ..t })
            }
        } else if action == 'J' || action == 'K' {
            *self == t
        } else if action == 's' {
            *self == (Terminal { screen: Buffer { saved: SavedCursor { x: t.screen.cursor.x, y: t.screen.cursor.y,
                pen: t.pen, link: t.cur_link }, ..t.screen }, ..t })
        } else if action == 'u' {
            *self == (Terminal { pen: t.screen.saved.pen, cur_link: t.screen.saved.link,
                ..t.with_cursor(t.screen.clamped(t.screen.saved.x, t.screen.saved.y)) })
        } else if action == 'h' || action == 'l' {
            self.modes_set(&t, first_values(p), inter.len() > 0 && inter[0] == 0x3f, action == 'h')
        } else {
            *self == t
        }
    }

    /// `self` is `o` after C0 control `byte`: BEL counts, BS / HT / CR move
    /// the cursor, LF / VT / FF move it down a row, or scroll the region up
    /// one row when it is on the region's bottom row (and go to column 0 in
    /// newline mode), other controls only end the cluster in progress.
    pub closed spec fn c0_effect(&self, o: &Terminal, byte: u8) -> bool {
        let t = o.grapheme_broken();
        let cur = t.screen.cursor;
        if byte == 0x07 {
            *self == (Terminal { bell_count: t.bell_count.wrapping_add(1), ..t })
        } else if byte == 0x08 {
            *self == t.with_cursor(Cursor { x: if cur.x > 0 { (cur.x - 1) as usize } else { 0 }, y: cur.y, pending_wrap: false })
        } else if byte == 0x09 {
            *self == t.with_cursor(t.screen.clamped(tab_stop(cur.x as int, t.screen.cols as int) as usize, cur.y))
        } else if byte == 0x0d {
            *self == t.with_cursor(Cursor { x: 0, y: cur.y, pending_wrap: false })
        } else if 0x0a <= byte <= 0x0c {
            if cur.y != t.screen.scroll_bottom {
                *self == t.with_cursor(Cursor {
                    x: if t.modes.newline_mode { 0 } else { cur.x },
                    y: if cur.y + 1 < t.screen.rows { (cur.y + 1) as usize } else { (t.screen.rows - 1) as usize },
                    pending_wrap: false,
                })
            } else {
                &&& self.with_cursor(cur).region_scrolled_up(&t, 1)
                &&& self.screen.cursor == (if t.modes.newline_mode { Cursor { x: 0, y: cur.y, pending_wrap: false } } else { cur })
            }
        } else {
            *self == t
        }
    }

    /// `self` with the grapheme-cluster state cleared (a control, escape or
    /// CSI ends any cluster in progress).
    pub closed spec fn grapheme_broken(&self) -> Terminal {
        Terminal { last_grapheme: None, pending_zwj: false, last_ri: false, ..*self }
    }

    /// `self` with the active screen's cursor at `c`.
    pub closed spec fn with_cursor(&self, c: Cursor) -> Terminal {
        Terminal { screen: Buffer { cursor: c, ..self.screen }, ..*self }
    }

    /// A terminal is in the viewport frame of itself.
    pub proof fn lemma_view_frame_refl(&self)
        ensures
            self.view_frame(self),
    {
    }

    /// How many times BEL has rung (wrapping).
    pub fn bell_count(&self) -> (n: u32)
        ensures
            n == self.spec_bell_count(),
    {
        self.bell_count
    }

    /// Only the title-changed flag differs from `o`.
    pub closed spec fn same_except_title_flag(&self, o: &Terminal) -> bool {
        *self == (Terminal { title_dirty: self.title_dirty, ..*o })
    }

    /// Only the queued host output differs from `o`.
    pub closed spec fn same_except_output(&self, o: &Terminal) -> bool {
        *self == (Terminal { output: self.output, ..*o })
    }

    /// Only the theme default colors differ from `o`.
    pub closed spec fn same_except_theme(&self, o: &Terminal) -> bool {
        *self == (Terminal { default_fg: self.default_fg, default_bg: self.default_bg, default_cursor: self.default_cursor, ..*o })
    }

    /// Only the cell pixel size differs from `o`.
    pub closed spec fn same_except_cell_pixels(&self, o: &Terminal) -> bool {
        *self == (Terminal { cell_px_w: self.cell_px_w, cell_px_h: self.cell_px_h, ..*o })
    }

    /// Resolve an OSC 8 link id to its URI.
    pub fn link_uri(&self, id: u32) -> (r: Option<&str>)
        ensures
            r is Some <==> (1 <= id <= self.link_table().len()),
            r matches Some(s) ==> s@ == self.link_table()[id - 1],
    {
        if id == 0 || id as usize > self.links.len() {
            None
        } else {
            Some(self.links[(id - 1) as usize].as_str())
        }
    }

    /// Drain queued replies destined for the host (send these to the PTY).
    pub fn take_output(&mut self) -> (out: Vec<u8>)
        ensures
            out@ == old(self).spec_output(),
            final(self).spec_output().len() == 0,
            final(self).same_except_output(old(self)),
            old(self).wf() ==> final(self).wf(),
    {
        let mut out: Vec<u8> = Vec::new();
        std::mem::swap(&mut out, &mut self.output);
        out
    }

    /// Scroll the viewport up (into history) by `n` lines, stopping at the
    /// oldest line.
    pub fn scroll_up_view(&mut self, n: usize)
        requires
            old(self).wf(),
        ensures
            final(self).wf(),
            final(self).spec_display_offset() == offset_up(old(self).spec_display_offset() as int, n as int,
                old(self).history().len() as int),
            final(self).spec_viewport_full() == (old(self).spec_viewport_full()
                || final(self).spec_display_offset() != old(self).spec_display_offset()),
            final(self).view_frame(old(self)),
    {
        let max = self.scrollback.len();
        let new = if n < max - self.display_offset { self.display_offset + n } else { max };
        if new != self.display_offset {
            self.display_offset = new;
            self.viewport_full = true;
        }
    }

    /// Scroll the viewport down (toward the present) by `n` lines.
    pub fn scroll_down_view(&mut self, n: usize)
        requires
            old(self).wf(),
        ensures
            final(self).wf(),
            final(self).spec_display_offset() == offset_down(old(self).spec_display_offset() as int, n as int),
            final(self).spec_viewport_full() == (old(self).spec_viewport_full()
                || final(self).spec_display_offset() != old(self).spec_display_offset()),
            final(self).view_frame(old(self)),
    {
        let new = if self.display_offset >= n { self.display_offset - n } else { 0 };
        if new != self.display_offset {
            self.display_offset = new;
            self.viewport_full = true;
        }
    }

    pub fn scroll_to_bottom(&mut self)
        requires
            old(self).wf(),
        ensures
            final(self).wf(),
            final(self).spec_display_offset() == 0,
            final(self).spec_viewport_full() == (old(self).spec_viewport_full() || old(self).spec_display_offset() != 0),
            final(self).view_frame(old(self)),
    {
        if self.display_offset != 0 {
            self.display_offset = 0;
            self.viewport_full = true;
        }
    }

    /// Counter bumped on every palette change (OSC 4/10/11/12/104/110/111/112);
    /// the front-end re-reads `palette_export` when it differs.
    pub fn palette_version(&self) -> (v: u32)
        ensures
            v == self.spec_palette_version(),
    {
        self.palette_version
    }

    /// The palette overrides as `[fg, bg, cursor, c0..c255]` (259 words), each
    /// `0` without an override, else a packed `0x02_RRGGBB`.
    pub fn palette_export(&self) -> (out: Vec<u32>)
        requires
            self.wf(),
        ensures
            out@ == seq![pack_rgb(self.palette_overrides().0), pack_rgb(self.palette_overrides().1),
                pack_rgb(self.palette_overrides().2)] + self.palette_overrides().3.map_values(|c: Option<(u8, u8, u8)>| pack_rgb(c)),
    {
        let mut out: Vec<u32> = Vec::with_capacity(259);
        out.push(pack_opt(self.palette_fg));
        out.push(pack_opt(self.palette_bg));
        out.push(pack_opt(self.palette_cursor));
        let ghost head = out@;
        let mut i: usize = 0;
        while i < self.palette_indexed.len()
            invariant
                i <= self.palette_indexed@.len(),
                out@ == head + self.palette_indexed@.take(i as int).map_values(|c: Option<(u8, u8, u8)>| pack_rgb(c)),
            decreases self.palette_indexed.len() - i,
        {
            out.push(pack_opt(self.palette_indexed[i]));
            i = i + 1;
            assert(out@ =~= head + self.palette_indexed@.take(i as int).map_values(|c: Option<(u8, u8, u8)>| pack_rgb(c)));
        }
        assert(self.palette_indexed@.take(i as int) =~= self.palette_indexed@);
        out
    }

    /// Tell the core the theme's default fg / bg / cursor colors (packed RGB
    /// in the low 24 bits) so it can answer OSC color queries for colors the
    /// running program has not overridden.
    pub fn set_default_colors(&mut self, fg: u32, bg: u32, cursor: u32)
        requires
            old(self).wf(),
        ensures
            final(self).wf(),
            final(self).theme_defaults() == (unpack_rgb(fg), unpack_rgb(bg), unpack_rgb(cursor)),
            final(self).same_except_theme(old(self)),
    {
        self.default_fg = unpack(fg);
        self.default_bg = unpack(bg);
        self.default_cursor = unpack(cursor);
    }

    /// Set the cell size in device pixels (from the front-end's font
    /// metrics), so images are laid out and advance the cursor in whole cells.
    /// Zero is taken as one.
    pub fn set_cell_pixels(&mut self, w: usize, h: usize)
        requires
            old(self).wf(),
        ensures
            final(self).wf(),
            final(self).cell_pixels() == (if w == 0 { 1usize } else { w }, if h == 0 { 1usize } else { h }),
            final(self).same_except_cell_pixels(old(self)),
    {
        self.cell_px_w = if w == 0 { 1 } else { w };
        self.cell_px_h = if h == 0 { 1 } else { h };
    }

    /// Resolve a grapheme-cluster id (as emitted in the snapshot) to its
    /// cluster string; `None` for id 0 or an unknown id.
    pub fn grapheme(&self, id: u32) -> (r: Option<&str>)
        ensures
            r is Some <==> (1 <= id <= self.grapheme_table().len()),
            r matches Some(s) ==> s@ == self.grapheme_table()[id - 1],
    {
        if id == 0 || id as usize > self.graphemes.len() {
            None
        } else {
            Some(self.graphemes[(id - 1) as usize].as_str())
        }
    }
}

/// The viewport offset after scrolling back `n` lines from `off`, with
/// `back` lines of history: it stops at the oldest line.
pub open spec fn offset_up(off: int, n: int, back: int) -> int {
    if off + n < back { off + n } else { back }
}

/// The viewport offset after scrolling forward `n` lines from `off`: it
/// stops at the live screen.
pub open spec fn offset_down(off: int, n: int) -> int {
    if off >= n { off - n } else { 0 }
}

/// Scrolling back `n` lines and forward `n` again returns to the same view,
/// when the history was deep enough not to stop the first scroll; and the
/// other way round when the view was at least `n` lines back.
pub proof fn lemma_scroll_round_trip(off: int, n: int, back: int)
    requires
        0 <= off <= back,
        0 <= n,
    ensures
        off + n <= back ==> offset_down(offset_up(off, n, back), n) == off,
        n <= off ==> offset_up(offset_down(off, n), n, back) == off,
{
}

/// A palette override packed as `0x02_RRGGBB`, or 0 for none.
pub open spec fn pack_rgb(c: Option<(u8, u8, u8)>) -> u32 {
    match c {
        Some((r, g, b)) => (0x0200_0000 + r * 0x1_0000 + g * 0x100 + b) as u32,
        None => 0,
    }
}

fn pack_opt(c: Option<(u8, u8, u8)>) -> (v: u32)
    ensures
        v == pack_rgb(c),
{
    match c {
        Some((r, g, b)) => 0x0200_0000u32 + (r as u32) * 0x1_0000 + (g as u32) * 0x100 + b as u32,
        None => 0,
    }
}

/// The RGB triple in the low 24 bits of `c`.
pub open spec fn unpack_rgb(c: u32) -> (u8, u8, u8) {
    (((c / 0x1_0000) % 0x100) as u8, ((c / 0x100) % 0x100) as u8, (c % 0x100) as u8)
}

fn unpack(c: u32) -> (rgb: (u8, u8, u8))
    ensures
        rgb == unpack_rgb(c),
{
    (((c / 0x1_0000) % 0x100) as u8, ((c / 0x100) % 0x100) as u8, (c % 0x100) as u8)
}


impl Terminal {
    /// `o`'s history carries on in `self`: same size and caps, the grapheme
    /// table and the queued host output only grow, the parser is untouched.
    pub closed spec fn evolves(&self, o: &Terminal) -> bool {
        &&& self.screen.cols == o.screen.cols
        &&& self.screen.rows == o.screen.rows
        &&& self.max_scrollback == o.max_scrollback
        &&& o.graphemes@.map_values(|s: String| s@).is_prefix_of(self.graphemes@.map_values(|s: String| s@))
        &&& o.output@.is_prefix_of(self.output@)
        &&& self.parser == o.parser
        &&& self.cell_px_w == o.cell_px_w
        &&& self.cell_px_h == o.cell_px_h
        &&& self.default_fg == o.default_fg
        &&& self.default_bg == o.default_bg
        &&& self.default_cursor == o.default_cursor
        &&& (o.display_offset == 0 ==> self.display_offset == 0)
    }

    /// `evolves`, except that the parser may have moved on too.
    pub closed spec fn continues(&self, o: &Terminal) -> bool {
        &&& self.screen.cols == o.screen.cols
        &&& self.screen.rows == o.screen.rows
        &&& self.max_scrollback == o.max_scrollback
        &&& o.graphemes@.map_values(|s: String| s@).is_prefix_of(self.graphemes@.map_values(|s: String| s@))
        &&& o.output@.is_prefix_of(self.output@)
        &&& self.cell_px_w == o.cell_px_w
        &&& self.cell_px_h == o.cell_px_h
        &&& self.default_fg == o.default_fg
        &&& self.default_bg == o.default_bg
        &&& self.default_cursor == o.default_cursor
    }

    /// What processing input never changes: the size, the scrollback limit,
    /// the cell pixel size and theme colors; grapheme ids already handed out
    /// keep their clusters (the table only grows), and queued host replies
    /// are only added to.
    pub proof fn lemma_continues_keeps(&self, o: &Terminal)
        requires
            self.continues(o),
        ensures
            self.spec_cols() == o.spec_cols(),
            self.spec_rows() == o.spec_rows(),
            self.spec_max_scrollback() == o.spec_max_scrollback(),
            self.cell_pixels() == o.cell_pixels(),
            self.theme_defaults() == o.theme_defaults(),
            o.grapheme_table().is_prefix_of(self.grapheme_table()),
            o.spec_output().is_prefix_of(self.spec_output()),
    {
    }

    pub proof fn lemma_evolves_refl(&self)
        ensures
            self.evolves(self),
    {
        assert(self.graphemes@.map_values(|s: String| s@).is_prefix_of(self.graphemes@.map_values(|s: String| s@)));
        assert(self.output@.is_prefix_of(self.output@));
    }

    pub proof fn lemma_evolves_trans(a: &Terminal, b: &Terminal, c: &Terminal)
        requires
            b.evolves(a),
            c.evolves(b),
        ensures
            c.evolves(a),
    {
        let ga = a.graphemes@.map_values(|s: String| s@);
        let gb = b.graphemes@.map_values(|s: String| s@);
        let gc = c.graphemes@.map_values(|s: String| s@);
        assert(ga.is_prefix_of(gc)) by {
            assert forall|i: int| 0 <= i < ga.len() implies ga[i] == gc[i] by {
                assert(ga[i] == gb[i]);
            }
        }
        assert(a.output@.is_prefix_of(c.output@)) by {
            assert forall|i: int| 0 <= i < a.output@.len() implies a.output@[i] == c.output@[i] by {
                assert(a.output@[i] == b.output@[i]);
            }
        }
    }

    // --- cursor motion & scrolling -----------------------------------------

    fn carriage_return(&mut self)
        requires
            old(self).wf(),
        ensures
            final(self).wf(),
            final(self).evolves(old(self)),
            *final(self) == old(self).with_cursor(Cursor { x: 0, y: old(self).screen.cursor.y, pending_wrap: false }),
    {
        self.screen.goto_col(0);
        proof { old(self).lemma_evolves_refl(); }
    }

    /// Line feed / index: move down one row, scrolling the region if at its
    /// bottom. Feeds scrollback when the primary screen scrolls at row 0.
    fn linefeed(&mut self)
        requires
            old(self).wf(),
        ensures
            final(self).wf(),
            final(self).evolves(old(self)),
            old(self).screen.cursor.y != old(self).screen.scroll_bottom ==> *final(self) == old(self).with_cursor(Cursor {
                x: old(self).screen.cursor.x,
                y: if old(self).screen.cursor.y + 1 < old(self).screen.rows { (old(self).screen.cursor.y + 1) as usize }
                    else { (old(self).screen.rows - 1) as usize },
                pending_wrap: false,
            }),
            old(self).screen.cursor.y == old(self).screen.scroll_bottom ==> final(self).region_scrolled_up(old(self), 1),
            final(self).line_fed(old(self)),
            *final(self) == (Terminal { screen: final(self).screen, scrollback: final(self).scrollback,
                scrolled_off: final(self).scrolled_off, images: final(self).images,
                images_version: final(self).images_version, ..*old(self) }),
    {
        proof { reveal(Terminal::line_fed); reveal(Terminal::region_scrolled_up); }
        let bottom = self.screen.scroll_bottom;
        if self.screen.cursor.y == bottom {
            self.scroll_region_up(1);
        } else {
            let ny = self.screen.cursor.y + 1;
            self.screen.goto_row(ny);
            proof { old(self).lemma_evolves_refl(); }
        }
    }

    /// Reverse index: move up one row, scrolling down if at the top.
    fn reverse_index(&mut self)
        requires
            old(self).wf(),
        ensures
            final(self).wf(),
            final(self).evolves(old(self)),
            final(self).reverse_indexed(old(self)),
    {
        proof { reveal(Terminal::reverse_indexed); }
        let top = self.screen.scroll_top;
        if self.screen.cursor.y == top {
            let pen = self.pen;
            self.screen.scroll_down(1, pen);
        } else if self.screen.cursor.y > 0 {
            let ny = self.screen.cursor.y - 1;
            self.screen.goto_row(ny);
        }
        proof { old(self).lemma_evolves_refl(); }
    }

    /// Scroll the region up `n` rows; on the primary screen with the region
    /// at the top, the rows scrolled off go to the scrollback (oldest dropped
    /// beyond the cap) and images that leave retained history are pruned.
    fn scroll_region_up(&mut self, n: usize)
        requires
            old(self).wf(),
        ensures
            final(self).wf(),
            final(self).evolves(old(self)),
            final(self).region_scrolled_up(old(self), n),
    {
        proof { reveal(Terminal::region_scrolled_up); }
        let pen = self.pen;
        let evict = !self.alt_active && self.screen.scroll_top == 0;
        if evict {
            let evicted = self.screen.scroll_up(n, pen);
            let count = evicted.len();
            let mut k: usize = 0;
            let ghost s1 = *self;
            let ghost h0 = old(self).history();
            proof {
                old(self).lemma_evolves_refl();
                assert(h0 + line_views(evicted@).take(0) == h0);
                assert(last_n(h0, old(self).max_scrollback as nat) == h0);
            }
            while k < evicted.len()
                invariant
                    self.wf(),
                    self.evolves(old(self)),
                    k <= evicted@.len(),
                    *self == (Terminal { scrollback: self.scrollback, ..s1 }),
                    s1.max_scrollback == old(self).max_scrollback,
                    self.history() == last_n(h0 + line_views(evicted@).take(k as int), old(self).max_scrollback as nat),
                decreases evicted.len() - k,
            {
                let l = evicted[k].clone();
                let ghost before = self.history();
                self.push_history(l);
                proof {
                    let m = old(self).max_scrollback as nat;
                    let a = h0 + line_views(evicted@).take(k as int);
                    lemma_last_n_push(a, l@, m);
                    assert(a.push(l@) == h0 + line_views(evicted@).take(k as int + 1));
                }
                k = k + 1;
            }
            proof {
                assert(line_views(evicted@).take(evicted@.len() as int) == line_views(evicted@));
            }
            self.scrolled_off = self.scrolled_off.wrapping_add(count as i64);
            let ghost s2 = *self;
            self.prune_images();
            proof { Terminal::lemma_evolves_trans(old(self), old(self), self); }
        } else {
            self.screen.scroll_up(n, pen);
            proof { old(self).lemma_evolves_refl(); }
        }
    }

    /// `self` is `o` after a line feed: the cursor moves down a row, or the
    /// region scrolls up one row when the cursor is on its bottom row.
    #[verifier::opaque]
    pub closed spec fn line_fed(&self, o: &Terminal) -> bool {
        let cur = o.screen.cursor;
        if cur.y != o.screen.scroll_bottom {
            *self == o.with_cursor(Cursor {
                x: cur.x,
                y: if cur.y + 1 < o.screen.rows { (cur.y + 1) as usize } else { (o.screen.rows - 1) as usize },
                pending_wrap: false,
            })
        } else {
            self.region_scrolled_up(o, 1)
        }
    }

    /// `self` is `o` after a reverse index: on the region's top row the region
    /// scrolls down one row, elsewhere the cursor moves up a row (staying on
    /// the top screen row).
    #[verifier::opaque]
    pub closed spec fn reverse_indexed(&self, o: &Terminal) -> bool {
        let cur = o.screen.cursor;
        if cur.y == o.screen.scroll_top {
            &&& *self == (Terminal { screen: self.screen, ..*o })
            &&& self.screen.same_frame(&o.screen)
            &&& self.screen.screen() == edit_screen(o.screen, Edit::ScrollDown(1), o.pen)
            &&& self.screen.dirty@ == edit_dirty(o.screen, Edit::ScrollDown(1))
        } else if cur.y > 0 {
            *self == o.with_cursor(Cursor { x: cur.x, y: (cur.y - 1) as usize, pending_wrap: false })
        } else {
            *self == *o
        }
    }

    /// `self` is `o` after a full reset (RIS): both screens blank at the same
    /// size with the cursor home, the primary screen active, no scrollback,
    /// images, links or pending Kitty transfer, default pen, modes and
    /// palette; the theme, the cell size, the scrollback cap, the title, the
    /// grapheme table and queued output stay.
    #[verifier::opaque]
    pub closed spec fn is_reset_of(&self, o: &Terminal) -> bool {
        let blank = repeat_line(default_line_view(o.screen.cols as nat), o.screen.rows as nat);
        &&& self.screen.wf() && self.other.wf()
        &&& self.screen.cols == o.screen.cols && self.screen.rows == o.screen.rows
        &&& self.other.cols == o.screen.cols && self.other.rows == o.screen.rows
        &&& self.screen.screen() == blank && self.other.screen() == blank
        &&& self.screen.cursor == (Cursor { x: 0, y: 0, pending_wrap: false })
        &&& self.screen.scroll_top == 0 && self.screen.scroll_bottom == o.screen.rows - 1
        &&& !self.alt_active
        &&& self.scrollback@.len() == 0
        &&& self.display_offset == 0
        &&& self.pen == default_pen()
        &&& self.cur_link == 0
        &&& self.modes == default_modes()
        &&& self.links@.len() == 0
        &&& self.images@.len() == 0
        &&& self.kitty_pending is None
        &&& self.kitty_store@.len() == 0
        &&& self.scrolled_off == 0
        &&& forall|i: int| 0 <= i < 256 ==> self.palette_indexed@[i] is None
        &&& self.palette_fg is None && self.palette_bg is None && self.palette_cursor is None
        &&& self.max_scrollback == o.max_scrollback
        &&& self.graphemes == o.graphemes
        &&& self.output == o.output
        &&& self.title == o.title
        &&& self.default_fg == o.default_fg && self.default_bg == o.default_bg && self.default_cursor == o.default_cursor
        &&& self.cell_px_w == o.cell_px_w && self.cell_px_h == o.cell_px_h
    }

    /// `self` is `o` after ESC with `intermediates` and final `byte`: the
    /// cluster in progress ends; IND, NEL, RI, DECSC, DECRC, RIS and the
    /// keypad modes take their effect; anything else (charset designations
    /// among them) changes nothing more.
    pub closed spec fn esc_effect(&self, o: &Terminal, intermediates: Seq<u8>, byte: u8) -> bool {
        let t = o.grapheme_broken();
        if intermediates.len() != 0 {
            *self == t
        } else {
            self.esc_final_effect(&t, byte)
        }
    }

    /// `self` is `t` after ESC `byte` with no intermediates.
    pub closed spec fn esc_final_effect(&self, t: &Terminal, byte: u8) -> bool {
        if byte == 0x44 {
            self.line_fed(t)
        } else if byte == 0x45 {
            self.line_fed(&t.with_cursor(Cursor { x: 0, y: t.screen.cursor.y, pending_wrap: false }))
        } else if byte == 0x4d {
            self.reverse_indexed(t)
        } else if byte == 0x37 {
            *self == (Terminal { screen: Buffer { saved: SavedCursor { x: t.screen.cursor.x, y: t.screen.cursor.y,
                pen: t.pen, link: t.cur_link }, ..t.screen }, ..*t })
        } else if byte == 0x38 {
            *self == (Terminal { pen: t.screen.saved.pen, cur_link: t.screen.saved.link,
                ..t.with_cursor(t.screen.clamped(t.screen.saved.x, t.screen.saved.y)) })
        } else {
            self.esc_misc_effect(t, byte)
        }
    }

    /// RIS and the keypad modes; other finals change nothing.
    pub closed spec fn esc_misc_effect(&self, t: &Terminal, byte: u8) -> bool {
        if byte == 0x63 {
            self.is_reset_of(t)
        } else if byte == 0x3d || byte == 0x3e {
            *self == (Terminal { modes: Modes { app_keypad: byte == 0x3d, ..t.modes }, ..*t })
        } else {
            *self == *t
        }
    }

    /// `self` is `o` after the scroll region scrolled up `n` rows: the region's
    /// rows move up, blank rows (in the pen's background) enter at its bottom;
    /// on the primary screen with the region at the top, the rows that leave
    /// are appended to the scrollback (which keeps its newest
    /// `max_scrollback` rows), the line serial advances by their number and
    /// images that left the retained history are dropped.
    #[verifier::opaque]
    pub closed spec fn region_scrolled_up(&self, o: &Terminal, n: usize) -> bool {
        let b = o.screen;
        let count = b.region_count(n);
        &&& self.screen.same_frame(&b)
        &&& self.screen.screen() == region_up(b.screen(), b.scroll_top as int, b.scroll_bottom as int, count,
            blank_line_view(b.cols as nat, o.pen))
        &&& self.screen.dirty@ == (if n == 0 { b.dirty@ } else {
            dirty_range(b.dirty@, b.scroll_top as int, b.scroll_bottom as int) })
        &&& if !o.alt_active && b.scroll_top == 0 {
            let off = o.scrolled_off.wrapping_add(count as i64);
            let flags = kept_history_flags(o.images@, off.wrapping_sub(o.max_scrollback as i64));
            &&& self.history() == last_n(o.history() + b.screen().subrange(0, count), o.max_scrollback as nat)
            &&& self.scrolled_off == off
            &&& self.images@ == kept(o.images@, flags)
            &&& self.images_version == (if flags.contains(false) { o.images_version.wrapping_add(1) } else { o.images_version })
            &&& *self == (Terminal { screen: self.screen, scrollback: self.scrollback, scrolled_off: self.scrolled_off,
                images: self.images, images_version: self.images_version, ..*o })
        } else {
            *self == (Terminal { screen: self.screen, ..*o })
        }
    }

    /// Append a row to the scrollback, dropping the oldest beyond the cap.
    fn push_history(&mut self, l: Line)
        requires
            old(self).wf(),
        ensures
            final(self).wf(),
            final(self).evolves(old(self)),
            *final(self) == (Terminal { scrollback: final(self).scrollback, ..*old(self) }),
            final(self).history() == last_n(old(self).history().push(l@), old(self).max_scrollback as nat),
    {
        let ghost s0 = *self;
        let ghost full = self.scrollback@.push(l);
        self.scrollback.push_back(l);
        proof { lemma_line_views_push(s0.scrollback@, l); }
        while self.scrollback.len() > self.max_scrollback
            invariant
                *self == (Terminal { scrollback: self.scrollback, ..s0 }),
                s0.wf(),
                self.scrollback@.len() >= s0.scrollback@.len(),
                self.scrollback@.len() <= full.len(),
                self.scrollback@ == full.subrange(full.len() - self.scrollback@.len(), full.len() as int),
                self.scrollback@.len() >= (if full.len() <= s0.max_scrollback { full.len() } else { s0.max_scrollback as nat }),
            decreases self.scrollback.len(),
        {
            self.scrollback.pop_front();
        }
        proof {
            old(self).lemma_evolves_refl();
            let m = s0.max_scrollback as nat;
            let fv = line_views(full);
            if full.len() <= m {
                assert(self.scrollback@ == full);
            } else {
                assert(line_views(self.scrollback@) =~= fv.subrange(fv.len() - m, fv.len() as int));
            }
        }
    }

    /// Keep only the images whose `keep` flag is set, in order; bump the
    /// image version when any goes.
    fn retain_images(&mut self, keep: &Vec<bool>)
        requires
            old(self).wf(),
            keep@.len() == old(self).images@.len(),
        ensures
            final(self).wf(),
            final(self).evolves(old(self)),
            *final(self) == (Terminal { images: final(self).images, images_version: final(self).images_version, ..*old(self) }),
            final(self).images@ == kept(old(self).images@, keep@),
            final(self).images_version == (if keep@.contains(false) {
                old(self).images_version.wrapping_add(1)
            } else {
                old(self).images_version
            }),
    {
        let ghost orig = self.images@;
        let mut src: Vec<ImageRec> = Vec::new();
        std::mem::swap(&mut src, &mut self.images);
        let ghost s0 = *self;
        let total = src.len();
        let mut stack: Vec<ImageRec> = Vec::new();
        while src.len() > 0
            invariant
                src@.len() + stack@.len() == total,
                total == orig.len(),
                src@ == orig.take(src@.len() as int),
                forall|j: int| 0 <= j < stack@.len() ==> #[trigger] stack@[j] == orig[total - 1 - j],
            decreases src.len(),
        {
            let im = src.pop().unwrap();
            stack.push(im);
        }
        let mut i: usize = 0;
        let mut dropped = false;
        while stack.len() > 0
            invariant
                stack@.len() + i == total,
                total == orig.len(),
                keep@.len() == total,
                forall|j: int| 0 <= j < stack@.len() ==> #[trigger] stack@[j] == orig[total - 1 - j],
                *self == (Terminal { images: self.images, ..s0 }),
                self.images@ == kept(orig.take(i as int), keep@.take(i as int)),
                dropped == keep@.take(i as int).contains(false),
            decreases stack.len(),
        {
            let ghost k = keep@.take(i as int + 1);
            let im = stack.pop().unwrap();
            proof {
                assert(orig.take(i as int + 1).drop_last() == orig.take(i as int));
                assert(k.drop_last() == keep@.take(i as int));
                assert(k.contains(false) == (keep@.take(i as int).contains(false) || !keep@[i as int])) by {
                    if !keep@[i as int] {
                        assert(k[i as int] == false);
                    }
                    if k.contains(false) {
                        let j = choose|j: int| 0 <= j < k.len() && k[j] == false;
                        if j < i {
                            assert(keep@.take(i as int)[j] == false);
                        }
                    }
                    if keep@.take(i as int).contains(false) {
                        let j = choose|j: int| 0 <= j < i && keep@.take(i as int)[j] == false;
                        assert(k[j] == false);
                    }
                }
            }
            if keep[i] {
                self.images.push(im);
            } else {
                dropped = true;
            }
            i = i + 1;
        }
        proof {
            assert(orig.take(total as int) == orig);
            assert(keep@.take(total as int) == keep@);
        }
        if dropped {
            self.images_version = self.images_version.wrapping_add(1);
        }
        proof { old(self).lemma_evolves_refl(); }
    }

    /// Drop images that have scrolled entirely out of retained scrollback.
    fn prune_images(&mut self)
        requires
            old(self).wf(),
        ensures
            final(self).wf(),
            final(self).evolves(old(self)),
            ({
                let flags = kept_history_flags(old(self).images@,
                    old(self).scrolled_off.wrapping_sub(old(self).max_scrollback as i64));
                &&& *final(self) == (Terminal { images: final(self).images, images_version: final(self).images_version, ..*old(self) })
                &&& final(self).images@ == kept(old(self).images@, flags)
                &&& final(self).images_version == (if flags.contains(false) {
                    old(self).images_version.wrapping_add(1)
                } else {
                    old(self).images_version
                })
            }),
    {
        let oldest = self.scrolled_off.wrapping_sub(self.max_scrollback as i64);
        let mut keep: Vec<bool> = Vec::new();
        let mut i: usize = 0;
        while i < self.images.len()
            invariant
                i <= self.images@.len(),
                oldest == self.scrolled_off.wrapping_sub(self.max_scrollback as i64),
                keep@ == kept_history_flags(self.images@, oldest).take(i as int),
            decreases self.images.len() - i,
        {
            let im = &self.images[i];
            keep.push(im.serial.wrapping_add(im.rows_cells as i64) > oldest);
            i = i + 1;
        }
        proof {
            assert(keep@ == kept_history_flags(self.images@, oldest));
        }
        self.retain_images(&keep);
    }

    /// Drop images whose rows intersect the current primary screen (used by a
    /// full-screen erase).
    fn clear_screen_images(&mut self)
        requires
            old(self).wf(),
        ensures
            final(self).wf(),
            final(self).evolves(old(self)),
            final(self).screen_images_cleared(old(self)),
    {
        let top = self.scrolled_off;
        let bottom = self.scrolled_off.wrapping_add(self.screen.rows as i64);
        let mut keep: Vec<bool> = Vec::new();
        let mut i: usize = 0;
        while i < self.images.len()
            invariant
                i <= self.images@.len(),
                top == self.scrolled_off,
                bottom == self.scrolled_off.wrapping_add(self.screen.rows as i64),
                keep@ == off_screen_flags(self.images@, top, bottom).take(i as int),
            decreases self.images.len() - i,
        {
            let im = &self.images[i];
            keep.push(im.serial.wrapping_add(im.rows_cells as i64) <= top || im.serial >= bottom);
            i = i + 1;
        }
        proof {
            assert(keep@ == off_screen_flags(self.images@, top, bottom));
        }
        self.retain_images(&keep);
    }

    /// `self` is `o` after a full-screen erase of the primary screen: the
    /// images that intersect the screen's rows are gone, the others stay in
    /// order, and the image version is bumped when any went.
    pub closed spec fn screen_images_cleared(&self, o: &Terminal) -> bool {
        let flags = off_screen_flags(o.images@, o.scrolled_off,
            o.scrolled_off.wrapping_add(o.screen.rows as i64));
        &&& *self == (Terminal { images: self.images, images_version: self.images_version, ..*o })
        &&& self.images@ == kept(o.images@, flags)
        &&& self.images_version == (if flags.contains(false) { o.images_version.wrapping_add(1) } else { o.images_version })
    }

    // --- printing -----------------------------------------------------------

    /// Reset grapheme-continuation state; called on any cursor discontinuity
    /// so a later combining mark can't attach across it.
    fn break_grapheme(&mut self)
        requires
            old(self).wf(),
        ensures
            final(self).wf(),
            final(self).evolves(old(self)),
            *final(self) == old(self).grapheme_broken(),
    {
        self.last_grapheme = None;
        self.pending_zwj = false;
        self.last_ri = false;
        proof { old(self).lemma_evolves_refl(); }
    }

    /// Intern a cluster string, returning its id (deduplicated); existing ids
    /// keep their strings.
    fn intern_grapheme(&mut self, s: String) -> (id: u32)
        requires
            old(self).wf(),
        ensures
            final(self).wf(),
            final(self).evolves(old(self)),
            *final(self) == (Terminal { graphemes: final(self).graphemes, ..*old(self) }),
            final(self).grapheme_texts() == interned_texts(old(self).grapheme_texts(), s@),
            id == interned_id(old(self).grapheme_texts(), s@),
    {
        let ghost ts = old(self).grapheme_texts();
        let mut i: usize = 0;
        while i < self.graphemes.len()
            invariant
                i <= self.graphemes@.len(),
                *self == *old(self),
                old(self).wf(),
                ts == self.grapheme_texts(),
                forall|j: int| 0 <= j < i && j < u32::MAX ==> ts[j] != s@,
            decreases self.graphemes.len() - i,
        {
            if self.graphemes[i] == s {
                if i < u32::MAX as usize {
                    proof {
                        old(self).lemma_evolves_refl();
                        assert(ts[i as int] == s@);
                        let w = choose|k: int| 0 <= k < ts.len() && k < u32::MAX && ts[k] == s@
                            && forall|j: int| 0 <= j < k ==> ts[j] != s@;
                        if w < i {
                            assert(ts[w] != s@);
                        } else if w > i {
                            assert(ts[i as int] != s@);
                        }
                    }
                    return (i + 1) as u32;
                }
            }
            i = i + 1;
        }
        proof {
            assert(first_text(ts, s@) is None) by {
                if exists|k: int| 0 <= k < ts.len() && k < u32::MAX && ts[k] == s@ {
                    let k = choose|k: int| 0 <= k < ts.len() && k < u32::MAX && ts[k] == s@;
                    assert(ts[k] != s@);
                }
            }
        }
        let ghost before = self.graphemes@.map_values(|t: String| t@);
        self.graphemes.push(s);
        proof {
            let after = self.graphemes@.map_values(|t: String| t@);
            assert forall|k: int| 0 <= k < before.len() implies before[k] == after[k] by {
                assert(self.graphemes@[k] == old(self).graphemes@[k]);
            }
            assert(before.is_prefix_of(after));
            assert(after =~= ts.push(s@));
            old(self).lemma_evolves_refl();
        }
        let n = self.graphemes.len();
        if n <= u32::MAX as usize { n as u32 } else { u32::MAX }
    }

    /// The cluster shown by `cell`: its own scalar, or its interned string.
    fn cluster_of(&self, cell: &Cell) -> (s: String)
        ensures
            s@ == cluster_text(self.grapheme_texts(), *cell),
    {
        if cell.grapheme != 0 && (cell.grapheme as usize) <= self.graphemes.len() {
            self.graphemes[(cell.grapheme - 1) as usize].clone()
        } else {
            let mut s = String::new();
            push_char(&mut s, cell.ch);
            s
        }
    }

    /// Append a scalar to the last printed cell's cluster (at most 16
    /// scalars per cluster, so hostile input can't grow one cell unboundedly).
    fn attach_combining(&mut self, c: char)
        requires
            old(self).wf(),
        ensures
            final(self).wf(),
            final(self).evolves(old(self)),
            final(self).cluster_attached(old(self), c),
    {
        let (x, y) = match self.last_grapheme {
            Some(p) => p,
            None => {
                proof { old(self).lemma_evolves_refl(); }
                return;
            },
        };
        if x >= self.screen.cols || y >= self.screen.rows {
            proof { old(self).lemma_evolves_refl(); }
            return;
        }
        let cell = *self.screen.cell(x, y);
        let mut s = self.cluster_of(&cell);
        if crate::strings::char_count(&s) >= 16 {
            proof { old(self).lemma_evolves_refl(); }
            return;
        }
        push_char(&mut s, c);
        let id = self.intern_grapheme(s);
        let ghost mid = *self;
        self.screen.set_cell(x, y, Cell { grapheme: id, ..cell });
        proof {
            mid.lemma_evolves_refl();
            Terminal::lemma_evolves_trans(old(self), &mid, self);
        }
    }

    /// The last printed cell is on the screen.
    pub closed spec fn has_last_cell(&self) -> bool {
        match self.last_grapheme {
            Some((x, y)) => x < self.screen.cols && y < self.screen.rows,
            None => false,
        }
    }

    /// `self` is `o` after regional indicator `c` paired with the one in the
    /// last printed cell: the cell's cluster gets `c` appended (interned) and
    /// becomes wide, a spacer follows it when it fits, and the cursor moves
    /// past both columns (stopping on the last column with a wrap pending
    /// when auto-wrap is on).
    pub closed spec fn flag_paired(&self, o: &Terminal, c: char) -> bool {
        let (x, y) = o.last_grapheme->0;
        let cols = o.screen.cols as int;
        let row = o.screen.screen()[y as int];
        let cell = row.cells[x as int];
        let t = cluster_text(o.grapheme_texts(), cell).push(c);
        let ts = o.grapheme_texts();
        let base = Cell { grapheme: interned_id(ts, t), pen: Pen { flags: cell.pen.flags | attr::WIDE, ..cell.pen }, ..cell };
        let spacer = Cell { ch: ' ', pen: Pen { flags: (base.pen.flags & !attr::WIDE) | attr::WIDE_SPACER, ..base.pen },
            link: base.link, grapheme: 0 };
        let cells1 = row.cells.update(x as int, base);
        let cells2 = if x + 1 < cols { cells1.update(x + 1, spacer) } else { cells1 };
        let cur = o.screen.cursor;
        &&& self.grapheme_texts() == interned_texts(ts, t)
        &&& self.screen.screen() == o.screen.screen().update(y as int, LineView { cells: cells2, wrapped: row.wrapped })
        &&& self.screen.dirty@ == dirty_range(o.screen.dirty@, y as int, y as int)
        &&& self.screen == (Buffer { lines: self.screen.lines, dirty: self.screen.dirty,
            cursor: Cursor { x: if cols - x > 2 { (x + 2) as usize } else { (cols - 1) as usize }, y: cur.y,
                pending_wrap: if cols - x <= 2 { o.modes.autowrap } else { cur.pending_wrap } }, ..o.screen })
        &&& *self == (Terminal { screen: self.screen, graphemes: self.graphemes, ..*o })
    }

    /// The texts of the interned clusters (cell grapheme id `i + 1` is entry
    /// `i`).
    pub closed spec fn grapheme_texts(&self) -> Seq<Seq<char>> {
        self.graphemes@.map_values(|t: String| t@)
    }

    /// `self` is `o` after scalar `c` joined the last printed cell's
    /// cluster: the extended cluster text is interned and the cell takes its
    /// id; nothing happens without a last cell, or when its cluster already
    /// holds 16 scalars.
    pub closed spec fn cluster_attached(&self, o: &Terminal, c: char) -> bool {
        match o.last_grapheme {
            None => *self == *o,
            Some((x, y)) => if x >= o.screen.cols || y >= o.screen.rows {
                *self == *o
            } else {
                let row = o.screen.screen()[y as int];
                let cell = row.cells[x as int];
                let cl = cluster_text(o.grapheme_texts(), cell);
                if cl.len() >= 16 {
                    *self == *o
                } else {
                    let t = cl.push(c);
                    let ts = o.grapheme_texts();
                    &&& self.grapheme_texts() == interned_texts(ts, t)
                    &&& self.screen.screen() == o.screen.screen().update(y as int, LineView {
                        cells: row.cells.update(x as int, Cell { grapheme: interned_id(ts, t), ..cell }), wrapped: row.wrapped })
                    &&& self.screen.dirty@ == dirty_range(o.screen.dirty@, y as int, y as int)
                    &&& self.screen == (Buffer { lines: self.screen.lines, dirty: self.screen.dirty, ..o.screen })
                    &&& *self == (Terminal { screen: self.screen, graphemes: self.graphemes, ..*o })
                }
            },
        }
    }

    /// The second regional indicator of a flag: merge it into the previous
    /// cell and widen that to two columns. `false` when there is no previous
    /// cell to pair with.
    #[verifier::spinoff_prover]
    #[verifier::rlimit(40)]
    fn pair_regional_indicator(&mut self, c: char) -> (paired: bool)
        requires
            old(self).wf(),
        ensures
            final(self).wf(),
            final(self).evolves(old(self)),
            paired == old(self).has_last_cell(),
            !paired ==> *final(self) == *old(self),
            paired ==> final(self).flag_paired(old(self), c),
    {
        let (x, y) = match self.last_grapheme {
            Some(p) => p,
            None => {
                proof { old(self).lemma_evolves_refl(); }
                return false;
            },
        };
        if x >= self.screen.cols || y >= self.screen.rows {
            proof { old(self).lemma_evolves_refl(); }
            return false;
        }
        let cols = self.screen.cols;
        let cell = *self.screen.cell(x, y);
        let mut s = self.cluster_of(&cell);
        push_char(&mut s, c);
        let id = self.intern_grapheme(s);
        let ghost mid = *self;
        let mut pen = cell.pen;
        pen.set(attr::WIDE);
        let base = Cell { grapheme: id, pen, ..cell };
        let ghost row = mid.screen.screen()[y as int];
        self.screen.set_cell(x, y, base);
        let ghost cells1 = row.cells.update(x as int, base);
        assert(self.screen.screen() == mid.screen.screen().update(y as int, LineView { cells: cells1, wrapped: row.wrapped }));
        if x + 1 < cols {
            let mut spacer = base.pen;
            spacer.clear(attr::WIDE);
            spacer.set(attr::WIDE_SPACER);
            self.screen.set_cell(x + 1, y, Cell { ch: ' ', pen: spacer, link: base.link, grapheme: 0 });
            assert(self.screen.screen() =~= mid.screen.screen().update(y as int, LineView {
                cells: cells1.update(x + 1, Cell { ch: ' ', pen: spacer, link: base.link, grapheme: 0 }), wrapped: row.wrapped }));
            assert(self.screen.dirty@ =~= dirty_range(mid.screen.dirty@, y as int, y as int));
        }
        // The first indicator took one column; consume the second too.
        let nx = if cols - x > 2 { x + 2 } else { cols - 1 };
        self.screen.cursor.x = nx;
        if cols - x <= 2 {
            self.screen.cursor.pending_wrap = self.modes.autowrap;
        }
        proof {
            mid.lemma_evolves_refl();
            Terminal::lemma_evolves_trans(old(self), &mid, self);
        }
        true
    }

    /// Print one scalar: zero-width scalars join the previous cluster, a ZWJ
    /// makes the next scalar join too, paired regional indicators form a
    /// flag, and anything else takes one or two cells at the cursor
    /// (auto-wrapping first when a wrap is pending).
    fn write_char(&mut self, c: char)
        requires
            old(self).wf(),
        ensures
            final(self).wf(),
            final(self).evolves(old(self)),
            final(self).print_effect(old(self), c),
    {
        let w = char_width(c);
        if w == 0 {
            self.attach_combining(c);
            if c == '\u{200D}' {
                self.pending_zwj = true;
            }
            return;
        }
        if self.pending_zwj {
            self.pending_zwj = false;
            self.attach_combining(c);
            return;
        }
        let ghost s0 = *self;
        if is_regional_indicator(c) {
            if self.last_ri {
                self.last_ri = false;
                if self.pair_regional_indicator(c) {
                    return;
                }
                // Nothing to pair with: print it as a fresh cell.
                self.last_grapheme = None;
                self.pending_zwj = false;
            }
            self.last_ri = true;
        } else {
            self.last_ri = false;
        }
        proof { old(self).lemma_evolves_refl(); }
        let ghost s1 = *self;
        assert(s1.evolves(old(self)));
        self.put_glyph(c, w);
        proof { Terminal::lemma_evolves_trans(old(self), &s1, self); }
    }

    /// `self` is `o` after a run of printable ASCII: with insert mode on,
    /// each byte is printed as a character in turn; otherwise the run is laid
    /// out in spans (`span_put`), each filling the cursor's row as far as it
    /// goes. Either way a joiner or regional indicator in progress is
    /// forgotten first.
    pub closed spec fn ascii_effect(&self, o: &Terminal, bytes: Seq<u8>) -> bool {
        let t0 = Terminal { pending_zwj: false, last_ri: false, ..*o };
        if o.modes.insert {
            exists|tr: Seq<Terminal>| #[trigger] ascii_chain(tr, bytes) && tr[0] == t0 && tr.last() == *self
        } else {
            exists|tr: Seq<Terminal>, starts: Seq<int>| #[trigger] span_trace(tr, starts, bytes)
                && tr[0] == t0 && tr.last() == *self && starts.last() == bytes.len()
        }
    }

    /// `self` is `o` after one span of an ASCII run: a pending wrap is
    /// performed (auto-wrap on), then `run` is written from the cursor
    /// (`span_placed`).
    pub closed spec fn span_put(&self, o: &Terminal, run: Seq<u8>, left: int) -> bool {
        exists|m: Terminal| #[trigger] m.pending_wrapped(o, o.modes.autowrap) && m.wf() && m.pen == o.pen
            && m.cur_link == o.cur_link && self.span_placed(&m, run, left)
    }

    /// `self` as printing starts: no joiner or regional indicator pending.
    pub closed spec fn print_start(&self) -> Terminal {
        Terminal { pending_zwj: false, last_ri: false, ..*self }
    }

    /// The batched ASCII path agrees with printing byte by byte: for printable
    /// ASCII that fits in the rest of the cursor's row (no wrap pending,
    /// insert mode off), laying the run out as a span gives the same screen,
    /// cursor and last glyph as printing its bytes one at a time.
    pub proof fn lemma_ascii_span_matches_bytes(o: &Terminal, run: Seq<u8>, a: &Terminal, tr: Seq<Terminal>)
        requires
            o.wf(),
            !o.spec_modes().insert,
            !o.active().cursor.pending_wrap,
            o.active().cursor.x + run.len() <= o.active().cols,
            forall|k: int| 0 <= k < run.len() ==> 0x20 <= #[trigger] run[k] < 0x7f,
            a.ascii_effect(o, run),
            ascii_chain(tr, run),
            tr[0] == o.print_start(),
        ensures
            a.active().screen() == tr.last().active().screen(),
            a.active().cursor == tr.last().active().cursor,
            a.last_glyph_at() == tr.last().last_glyph_at(),
    {
        let n = run.len() as int;
        let t0 = o.print_start();
        Terminal::lemma_bytes_prefix(o, run, tr, n);
        let (ta, starts) = choose|ta: Seq<Terminal>, starts: Seq<int>| #[trigger] span_trace(ta, starts, run)
            && ta[0] == t0 && ta.last() == *a && starts.last() == run.len();
        if n == 0 {
            if starts.len() > 1 {
                assert(span_step(ta, starts, run, 0));
            }
            assert(*a == t0);
        } else {
            assert(starts.len() > 1);
            assert(span_step(ta, starts, run, 0));
            let first = run.subrange(starts[0], starts[1]);
            let m = choose|m: Terminal| #[trigger] m.pending_wrapped(&ta[0], ta[0].modes.autowrap) && m.wf()
                && m.pen == ta[0].pen && m.cur_link == ta[0].cur_link && ta[1].span_placed(&m, first, n - starts[0]);
            assert(m == t0);
            assert(starts[1] == n);
            if starts.len() > 2 {
                assert(span_step(ta, starts, run, 1));
                assert(false);
            }
            assert(first =~= run);
            assert(ta[1] == *a);
            let b = t0.screen;
            let y = b.cursor.y as int;
            assert(tr.last() == tr[n]);
            assert(a.screen.screen() =~= tr[n].screen.screen());
        }
    }

    /// Printing the first `k` bytes of such a run one at a time writes them
    /// from the cursor and leaves the cursor after them.
    proof fn lemma_bytes_prefix(o: &Terminal, run: Seq<u8>, tr: Seq<Terminal>, k: int)
        requires
            o.wf(),
            !o.modes.insert,
            !o.screen.cursor.pending_wrap,
            o.screen.cursor.x + run.len() <= o.screen.cols,
            forall|j: int| 0 <= j < run.len() ==> 0x20 <= #[trigger] run[j] < 0x7f,
            ascii_chain(tr, run),
            tr[0] == o.print_start(),
            0 <= k <= run.len(),
        ensures
            tr[k].screen.screen() == o.screen.screen().update(o.screen.cursor.y as int, LineView {
                cells: write_run(o.screen.screen()[o.screen.cursor.y as int].cells, o.screen.cursor.x as int, run.take(k),
                    o.pen, o.cur_link),
                wrapped: o.screen.screen()[o.screen.cursor.y as int].wrapped }),
            tr[k].screen.cursor == (if o.screen.cursor.x + k >= o.screen.cols {
                    Cursor { x: (o.screen.cols - 1) as usize, y: o.screen.cursor.y, pending_wrap: o.modes.autowrap }
                } else {
                    Cursor { x: (o.screen.cursor.x + k) as usize, y: o.screen.cursor.y, pending_wrap: false }
                }),
            tr[k].last_grapheme == (if k == 0 { o.last_grapheme } else {
                Some(((o.screen.cursor.x + k - 1) as usize, o.screen.cursor.y)) }),
            tr[k].screen.cols == o.screen.cols,
            tr[k].screen.rows == o.screen.rows,
            tr[k].pen == o.pen,
            tr[k].cur_link == o.cur_link,
            tr[k].modes == o.modes,
            !tr[k].pending_zwj,
            !tr[k].last_ri,
        decreases k,
    {
        let b = o.screen;
        let x = b.cursor.x as int;
        let y = b.cursor.y as int;
        let row = b.screen()[y];
        assert(row.cells.len() == b.cols);
        if k == 0 {
            assert(write_run(row.cells, x, run.take(0), o.pen, o.cur_link) =~= row.cells);
            assert(b.screen().update(y, LineView { cells: row.cells, wrapped: row.wrapped }) =~= b.screen());
        } else {
            Terminal::lemma_bytes_prefix(o, run, tr, k - 1);
            let j = k - 1;
            let p = tr[j];
            let c = run[j] as char;
            assert(tr[j + 1].print_effect(&tr[j], run[j] as char));
            assert(tr[j + 1] == tr[k]);
            assert(tr[k].print_effect(&p, c));
            assert(spec_char_width(c) == 1);
            assert(!is_regional_indicator_spec(c));
            let o1 = Terminal { last_ri: false, ..p };
            assert(o1 == p);
            assert(tr[k].glyph_put(&p, c, 1));
            let m = choose|m: Terminal| #[trigger] m.wrapped_for(&p, 1) && m.wf() && m.pen == p.pen && m.cur_link == p.cur_link
                && tr[k].glyph_placed(&m, c, 1);
            let m0 = choose|m0: Terminal| #[trigger] m0.pending_wrapped(&p, p.modes.autowrap) && (if 1u8 == 2 && m0.screen.cursor.x == p.screen.cols - 1 {
                    if p.modes.autowrap { m.wrap_newline(&m0) } else {
                        m == m0.with_cursor(Cursor { x: if p.screen.cols >= 2 { (p.screen.cols - 2) as usize } else { 0 }, ..m0.screen.cursor })
                    }
                } else { m == m0 });
            assert(m0 == p);
            assert(m == p);
            let rp = p.screen.screen()[y];
            assert(rp == LineView { cells: write_run(row.cells, x, run.take(k - 1), o.pen, o.cur_link), wrapped: row.wrapped });
            assert(write_run(row.cells, x, run.take(k), o.pen, o.cur_link) =~= rp.cells.update(x + k - 1,
                Cell { ch: c, pen: p.pen, link: p.cur_link, grapheme: 0 }));
            assert(tr[k].screen.screen() =~= b.screen().update(y, LineView {
                cells: write_run(row.cells, x, run.take(k), o.pen, o.cur_link), wrapped: row.wrapped }));
        }
    }

    /// A printed span reads back: after span `run` is laid out, the row of
    /// the last glyph holds the run's bytes as characters, in the pen and
    /// link current when it was printed, ending at the last glyph's column.
    pub proof fn lemma_span_reads_back(&self, o: &Terminal, run: Seq<u8>, left: int)
        requires
            self.span_put(o, run, left),
            run.len() > 0,
        ensures
            self.last_glyph_at() is Some,
            ({
                let (x, y) = self.last_glyph_at()->0;
                &&& y < self.active().screen().len()
                &&& x + 1 >= run.len()
                &&& x < self.active().screen()[y as int].cells.len()
                &&& forall|k: int| 0 <= k < run.len() ==> #[trigger] self.active().screen()[y as int].cells[x + 1 - run.len() + k]
                    == (Cell { ch: run[k] as char, pen: o.spec_pen(), link: o.spec_cur_link(), grapheme: 0 })
            }),
    {
        let m = choose|m: Terminal| #[trigger] m.pending_wrapped(o, o.modes.autowrap) && m.wf() && m.pen == o.pen
            && m.cur_link == o.cur_link && self.span_placed(&m, run, left);
        let b = m.screen;
        let y = b.cursor.y as int;
        assert(b.screen()[y].cells.len() == b.cols);
    }

    /// `self` is `m` with `run` written from the cursor, `left` bytes of the
    /// whole run remaining: the span is as long as the row's room or the rest
    /// of the run, whichever is shorter; its cells take the pen and link;
    /// the cursor ends after it, or on the last column with a wrap pending
    /// (auto-wrap on) when the row is full.
    pub closed spec fn span_placed(&self, m: &Terminal, run: Seq<u8>, left: int) -> bool {
        let b = m.screen;
        let x = b.cursor.x as int;
        let y = b.cursor.y as int;
        let cols = b.cols as int;
        let n = run.len() as int;
        let row = b.screen()[y];
        &&& n == (if cols - x < left { cols - x } else { left })
        &&& self.screen.screen() == b.screen().update(y, LineView {
            cells: write_run(row.cells, x, run, m.pen, m.cur_link), wrapped: row.wrapped })
        &&& self.screen.dirty@ == (if n > 0 { dirty_range(b.dirty@, y, y) } else { b.dirty@ })
        &&& self.screen == (Buffer { lines: self.screen.lines, dirty: self.screen.dirty,
            cursor: if x + n >= cols { Cursor { x: (cols - 1) as usize, y: b.cursor.y, pending_wrap: m.modes.autowrap } }
                else { Cursor { x: (x + n) as usize, ..b.cursor } }, ..b })
        &&& *self == (Terminal { screen: self.screen, last_grapheme: Some(((x + n - 1) as usize, b.cursor.y)), ..*m })
    }

    /// `self` is `o` after printing `c`: a scalar of positive width that does
    /// not continue a cluster (no zero-width joiner pending, not the second
    /// regional indicator of a pair) is put as a glyph of its width; a
    /// zero-width scalar (a joiner leaving one pending) and the scalar after
    /// a joiner join the last cell's cluster; a second regional indicator
    /// pairs with the first into a flag (`flag_paired`), or is put as a fresh
    /// glyph when there is no cell to pair with.
    pub closed spec fn print_effect(&self, o: &Terminal, c: char) -> bool {
        let w = spec_char_width(c);
        if w == 0 {
            exists|m: Terminal| #[trigger] m.cluster_attached(o, c)
                && *self == (Terminal { pending_zwj: c == '\u{200D}' || m.pending_zwj, ..m })
        } else if o.pending_zwj {
            self.cluster_attached(&Terminal { pending_zwj: false, ..*o }, c)
        } else if is_regional_indicator_spec(c) && o.last_ri {
            let o1 = Terminal { last_ri: false, ..*o };
            if o1.has_last_cell() {
                self.flag_paired(&o1, c)
            } else {
                self.glyph_put(&Terminal { last_ri: true, last_grapheme: None, pending_zwj: false, ..o1 }, c, w)
            }
        } else {
            self.glyph_put(&Terminal { last_ri: is_regional_indicator_spec(c), ..*o }, c, w)
        }
    }

    /// `self` is `o` after an automatic line wrap: the cursor's row is marked
    /// as continuing on the next, the cursor goes to column 0 and a line
    /// feed follows.
    pub closed spec fn wrap_newline(&self, o: &Terminal) -> bool {
        let y = o.screen.cursor.y as int;
        exists|m: Terminal| {
            &&& #[trigger] m.screen.screen() == o.screen.screen().update(y,
                LineView { cells: o.screen.screen()[y].cells, wrapped: true })
            &&& m.screen.dirty@ == o.screen.dirty@
            &&& m == (Terminal { screen: Buffer { lines: m.screen.lines, dirty: m.screen.dirty,
                cursor: Cursor { x: 0, y: o.screen.cursor.y, pending_wrap: false }, ..o.screen }, ..*o })
            &&& self.line_fed(&m)
        }
    }

    /// `self` is `o` made ready for a glyph of width `w`: a pending wrap is
    /// performed when auto-wrap is on; then a wide glyph at the last column
    /// wraps to the next row (auto-wrap on) or steps back a column (off).
    pub closed spec fn wrapped_for(&self, o: &Terminal, w: u8) -> bool {
        let aw = o.modes.autowrap;
        let cols = o.screen.cols;
        exists|m: Terminal| {
            &&& #[trigger] m.pending_wrapped(o, aw)
            &&& if w == 2 && m.screen.cursor.x == cols - 1 {
                if aw {
                    self.wrap_newline(&m)
                } else {
                    *self == m.with_cursor(Cursor { x: if cols >= 2 { (cols - 2) as usize } else { 0 }, ..m.screen.cursor })
                }
            } else {
                *self == m
            }
        }
    }

    /// `self` is `o` after a pending wrap is performed (when `aw` and one is
    /// pending) or left as is.
    pub closed spec fn pending_wrapped(&self, o: &Terminal, aw: bool) -> bool {
        if o.screen.cursor.pending_wrap && aw { self.wrap_newline(o) } else { *self == *o }
    }

    /// `self` is `m` with glyph `c` of width `w` written at the cursor (after
    /// shifting the row right in insert mode): the lead cell in the pen (and
    /// wide attribute) with the current link, for a wide glyph a spacer cell
    /// after it when it fits; the cursor advances by `w`, or stops on the
    /// last column with a wrap pending when auto-wrap is on.
    pub closed spec fn glyph_placed(&self, m: &Terminal, c: char, w: u8) -> bool {
        let b = m.screen;
        let x = b.cursor.x as int;
        let y = b.cursor.y as int;
        let cols = b.cols as int;
        let rows0 = if m.modes.insert { edit_screen(b, Edit::InsertChars(w as usize), m.pen) } else { b.screen() };
        let dirty0 = if m.modes.insert { edit_dirty(b, Edit::InsertChars(w as usize)) } else { b.dirty@ };
        let lead = Cell { ch: c, pen: if w == 2 { Pen { flags: m.pen.flags | attr::WIDE, ..m.pen } } else { m.pen },
            link: m.cur_link, grapheme: 0 };
        let spacer = Cell { ch: ' ', pen: Pen { flags: m.pen.flags | attr::WIDE_SPACER, ..m.pen }, link: m.cur_link, grapheme: 0 };
        let cells1 = rows0[y].cells.update(x, lead);
        let cells2 = if w == 2 && cols - x > 1 { cells1.update(x + 1, spacer) } else { cells1 };
        &&& self.screen.screen() == rows0.update(y, LineView { cells: cells2, wrapped: rows0[y].wrapped })
        &&& self.screen.dirty@ == dirty_range(dirty0, y, y)
        &&& self.screen == (Buffer { lines: self.screen.lines, dirty: self.screen.dirty,
            cursor: if cols - x <= w { Cursor { x: (cols - 1) as usize, y: b.cursor.y, pending_wrap: m.modes.autowrap } }
                else { Cursor { x: (x + w) as usize, ..b.cursor } }, ..b })
        &&& *self == (Terminal { screen: self.screen, last_grapheme: Some((b.cursor.x, b.cursor.y)), ..*m })
    }

    /// `self` is `o` after glyph `c` of width `w` was printed: made ready
    /// (`wrapped_for`), then placed (`glyph_placed`).
    pub closed spec fn glyph_put(&self, o: &Terminal, c: char, w: u8) -> bool {
        exists|m: Terminal| #[trigger] m.wrapped_for(o, w) && m.wf() && m.pen == o.pen && m.cur_link == o.cur_link
            && self.glyph_placed(&m, c, w)
    }

    /// Where the last printed glyph landed, if anywhere.
    pub closed spec fn last_glyph_at(&self) -> Option<(usize, usize)> {
        self.last_grapheme
    }

    /// A printed glyph reads back: after `c` of width `w` is put, the cell
    /// where it landed holds `c` in the pen it was printed with (flagged wide
    /// for a wide glyph), with the link then current.
    pub proof fn lemma_glyph_reads_back(&self, o: &Terminal, c: char, w: u8)
        requires
            self.glyph_put(o, c, w),
        ensures
            self.last_glyph_at() is Some,
            ({
                let (x, y) = self.last_glyph_at()->0;
                &&& y < self.active().screen().len()
                &&& x < self.active().screen()[y as int].cells.len()
                &&& self.active().screen()[y as int].cells[x as int] == (Cell { ch: c,
                    pen: if w == 2 { Pen { flags: o.spec_pen().flags | attr::WIDE, ..o.spec_pen() } } else { o.spec_pen() },
                    link: o.spec_cur_link(), grapheme: 0 })
            }),
    {
        let m = choose|m: Terminal| #[trigger] m.wrapped_for(o, w) && m.wf() && m.pen == o.pen && m.cur_link == o.cur_link
            && self.glyph_placed(&m, c, w);
        let b = m.screen;
        let y = b.cursor.y as int;
        assert(b.screen()[y].cells.len() == b.cols);
    }

    /// Before a glyph of width `w`: perform a pending auto-wrap, and move a
    /// wide glyph that won't fit in the last column to the next row (or, with
    /// auto-wrap off, back one column).
    fn wrap_for_glyph(&mut self, w: u8)
        requires
            old(self).wf(),
        ensures
            final(self).wf(),
            final(self).evolves(old(self)),
            final(self).wrapped_for(old(self), w),
            *final(self) == (Terminal { screen: final(self).screen, scrollback: final(self).scrollback,
                scrolled_off: final(self).scrolled_off, images: final(self).images,
                images_version: final(self).images_version, ..*old(self) }),
    {
        let cols = self.screen.cols;
        let autowrap = self.modes.autowrap;
        if self.screen.cursor.pending_wrap && autowrap {
            self.wrap_line();
        }
        let ghost s1 = *self;
        proof {
            old(self).lemma_evolves_refl();
            assert(s1.pending_wrapped(old(self), autowrap));
        }
        if w == 2 && self.screen.cursor.x == cols - 1 {
            if autowrap {
                self.wrap_line();
                proof { Terminal::lemma_evolves_trans(old(self), &s1, self); }
            } else {
                self.screen.cursor.x = if cols >= 2 { cols - 2 } else { 0 };
                proof { s1.lemma_evolves_refl(); }
            }
        }
        proof {
            assert(self.wrapped_for(old(self), w) == (exists|m: Terminal| #[trigger] m.pending_wrapped(old(self), autowrap)
                && (if w == 2 && m.screen.cursor.x == cols - 1 {
                    if autowrap { self.wrap_newline(&m) } else {
                        *self == m.with_cursor(Cursor { x: if cols >= 2 { (cols - 2) as usize } else { 0 }, ..m.screen.cursor })
                    }
                } else { *self == m })));
        }
    }

    /// Mark the cursor's row as continuing on the next, then CR and LF.
    fn wrap_line(&mut self)
        requires
            old(self).wf(),
        ensures
            final(self).wf(),
            final(self).evolves(old(self)),
            final(self).wrap_newline(old(self)),
            *final(self) == (Terminal { screen: final(self).screen, scrollback: final(self).scrollback,
                scrolled_off: final(self).scrolled_off, images: final(self).images,
                images_version: final(self).images_version, ..*old(self) }),
    {
        self.screen.cursor.pending_wrap = false;
        let y = self.screen.cursor.y;
        self.screen.mark_wrapped(y);
        self.carriage_return();
        let ghost m = *self;
        self.linefeed();
        proof {
            old(self).lemma_evolves_refl();
            Terminal::lemma_evolves_trans(old(self), &m, self);
            assert(m.screen.screen() == old(self).screen.screen().update(y as int,
                LineView { cells: old(self).screen.screen()[y as int].cells, wrapped: true }));
        }
    }

    /// Place a glyph of width `w` (1 or 2) at the cursor and advance.
    fn put_glyph(&mut self, c: char, w: u8)
        requires
            old(self).wf(),
            1 <= w <= 2,
        ensures
            final(self).wf(),
            final(self).evolves(old(self)),
            final(self).glyph_put(old(self), c, w),
    {
        self.wrap_for_glyph(w);
        let ghost s1 = *self;
        self.place_glyph(c, w);
        proof {
            Terminal::lemma_evolves_trans(old(self), &s1, self);
        }
    }

    /// Write glyph `c` of width `w` at the cursor and advance.
    #[verifier::spinoff_prover]
    #[verifier::rlimit(40)]
    fn place_glyph(&mut self, c: char, w: u8)
        requires
            old(self).wf(),
            1 <= w <= 2,
        ensures
            final(self).wf(),
            final(self).evolves(old(self)),
            final(self).glyph_placed(old(self), c, w),
    {
        let ghost s1 = *self;
        let ghost b = s1.screen;
        let ghost rows0 = if s1.modes.insert { edit_screen(b, Edit::InsertChars(w as usize), s1.pen) } else { b.screen() };
        let ghost dirty0 = if s1.modes.insert { edit_dirty(b, Edit::InsertChars(w as usize)) } else { b.dirty@ };
        if self.modes.insert {
            let pen = self.pen;
            self.screen.insert_chars(w as usize, pen);
        }
        let ghost s2 = *self;
        assert(s2.screen.screen() == rows0 && s2.screen.dirty@ == dirty0);
        assert(*self == (Terminal { screen: self.screen, ..s1 }));
        assert(self.screen.same_frame(&b));
        let cols = self.screen.cols;
        let autowrap = self.modes.autowrap;
        let x = self.screen.cursor.x;
        let y = self.screen.cursor.y;
        let pen = self.pen;
        let link = self.cur_link;
        let mut lead = pen;
        if w == 2 {
            lead.set(attr::WIDE);
        }
        let ghost lead_cell = Cell { ch: c, pen: if w == 2 { Pen { flags: s1.pen.flags | attr::WIDE, ..s1.pen } } else { s1.pen },
            link: s1.cur_link, grapheme: 0 };
        assert(Cell { ch: c, pen: lead, link, grapheme: 0 } == lead_cell);
        self.screen.set_cell(x, y, Cell { ch: c, pen: lead, link, grapheme: 0 });
        let ghost cells1 = rows0[y as int].cells.update(x as int, lead_cell);
        assert(self.screen.screen() == rows0.update(y as int, LineView { cells: cells1, wrapped: rows0[y as int].wrapped }));
        assert(self.screen.dirty@ == dirty_range(dirty0, y as int, y as int));
        if w == 2 && cols - x > 1 {
            let mut spacer = pen;
            spacer.set(attr::WIDE_SPACER);
            let ghost d1 = self.screen.dirty@;
            self.screen.set_cell(x + 1, y, Cell { ch: ' ', pen: spacer, link, grapheme: 0 });
            assert(self.screen.dirty@ =~= dirty_range(dirty0, y as int, y as int));
        }
        self.last_grapheme = Some((x, y));
        if cols - x <= w as usize {
            self.screen.cursor.x = cols - 1;
            self.screen.cursor.pending_wrap = autowrap;
        } else {
            self.screen.cursor.x = x + w as usize;
        }
        proof {
            s1.lemma_evolves_refl();
            let xx = x as int;
            let cells2 = if w == 2 && cols - x > 1 { cells1.update(xx + 1, Cell { ch: ' ',
                pen: Pen { flags: s1.pen.flags | attr::WIDE_SPACER, ..s1.pen }, link: s1.cur_link, grapheme: 0 }) } else { cells1 };
            assert(self.screen.screen() == rows0.update(y as int, LineView { cells: cells2, wrapped: rows0[y as int].wrapped }));
            assert(self.screen.dirty@ == dirty_range(dirty0, y as int, y as int));
            assert(self.screen == (Buffer { lines: self.screen.lines, dirty: self.screen.dirty,
                cursor: if cols - x <= w { Cursor { x: (cols - 1) as usize, y: b.cursor.y, pending_wrap: s1.modes.autowrap } }
                    else { Cursor { x: (x + w) as usize, ..b.cursor } }, ..b }));
            assert(*self == (Terminal { screen: self.screen, last_grapheme: Some((b.cursor.x, b.cursor.y)), ..s1 }));
            assert(self.glyph_placed(&s1, c, w));
        }
    }
}

pub open spec fn is_regional_indicator_spec(c: char) -> bool {
    0x1F1E6 <= (c as u32) <= 0x1F1FF
}

fn is_regional_indicator(c: char) -> (b: bool)
    ensures
        b == is_regional_indicator_spec(c),
{
    let u = c as u32;
    0x1F1E6 <= u && u <= 0x1F1FF
}

impl Terminal {
    /// Append `bytes` to the host output.
    fn reply(&mut self, bytes: &[u8])
        requires
            old(self).wf(),
        ensures
            final(self).wf(),
            final(self).evolves(old(self)),
            final(self).output@ == old(self).output@ + bytes@,
            *final(self) == (Terminal { output: final(self).output, ..*old(self) }),
    {
        let mut i: usize = 0;
        while i < bytes.len()
            invariant
                i <= bytes@.len(),
                *self == (Terminal { output: self.output, ..*old(self) }),
                self.output@ == old(self).output@ + bytes@.take(i as int),
            decreases bytes.len() - i,
        {
            self.output.push(bytes[i]);
            i = i + 1;
            assert(self.output@ =~= old(self).output@ + bytes@.take(i as int));
        }
        assert(bytes@.take(i as int) =~= bytes@);
        proof {
            old(self).lemma_evolves_refl();
            assert(old(self).output@.is_prefix_of(self.output@));
        }
    }

    /// Append the decimal digits of `n` to the host output.
    fn reply_decimal(&mut self, n: u64)
        requires
            old(self).wf(),
        ensures
            final(self).wf(),
            final(self).evolves(old(self)),
            final(self).output@ == old(self).output@ + crate::keys::dec(n as nat),
            *final(self) == (Terminal { output: final(self).output, ..*old(self) }),
    {
        crate::keys::push_decimal(&mut self.output, n);
        proof {
            old(self).lemma_evolves_refl();
            assert(old(self).output@.is_prefix_of(self.output@));
        }
    }

    /// Fast path for a run of printable ASCII (all width 1): fills whole
    /// spans of a line instead of dispatching per character.
    #[verifier::spinoff_prover]
    #[verifier::rlimit(50)]
    fn print_ascii_run(&mut self, bytes: &[u8])
        requires
            old(self).wf(),
        ensures
            final(self).wf(),
            final(self).evolves(old(self)),
            final(self).ascii_effect(old(self), bytes@),
    {
        // ASCII is never combining / ZWJ / RI, but a following combining mark
        // should attach to the last ASCII cell, so keep last_grapheme current.
        self.pending_zwj = false;
        self.last_ri = false;
        let ghost t0 = *self;
        proof { old(self).lemma_evolves_refl(); }
        if self.modes.insert {
            let mut i: usize = 0;
            let ghost mut tr: Seq<Terminal> = seq![t0];
            while i < bytes.len()
                invariant
                    self.wf(),
                    self.evolves(old(self)),
                    i <= bytes@.len(),
                    tr.len() == i + 1,
                    tr[0] == t0,
                    tr.last() == *self,
                    forall|k: int| 0 <= k < i ==> #[trigger] tr[k + 1].print_effect(&tr[k], bytes@[k] as char),
                decreases bytes.len() - i,
            {
                let ghost s1 = *self;
                self.write_char(bytes[i] as char);
                proof {
                    Terminal::lemma_evolves_trans(old(self), &s1, self);
                    let tr2 = tr.push(*self);
                    assert forall|k: int| 0 <= k < i + 1 implies #[trigger] tr2[k + 1].print_effect(&tr2[k], bytes@[k] as char) by {
                        if k < i {
                            assert(tr2[k + 1] == tr[k + 1] && tr2[k] == tr[k]);
                        }
                    }
                    tr = tr2;
                }
                i = i + 1;
            }
            proof {
                assert(ascii_chain(tr, bytes@));
            }
            return;
        }
        let cols = self.screen.cols;
        let autowrap = self.modes.autowrap;
        let pen = self.pen;
        let link = self.cur_link;
        let mut start: usize = 0;
        let ghost mut tr: Seq<Terminal> = seq![t0];
        let ghost mut starts: Seq<int> = seq![0int];
        let mut done = false;
        while start < bytes.len() && !done
            invariant
                self.wf(),
                self.evolves(old(self)),
                cols == self.screen.cols,
                autowrap == t0.modes.autowrap,
                pen == t0.pen,
                link == t0.cur_link,
                *self == (Terminal { screen: self.screen, scrollback: self.scrollback, scrolled_off: self.scrolled_off,
                    images: self.images, images_version: self.images_version, last_grapheme: self.last_grapheme, ..t0 }),
                !t0.modes.insert,
                start <= bytes@.len(),
                tr.len() == starts.len(),
                starts.len() >= 1,
                starts[0] == 0,
                starts.last() == start,
                tr[0] == t0,
                tr.last() == *self,
                done ==> start == bytes@.len(),
                span_trace(tr, starts, bytes@),
            decreases bytes.len() - start, if done { 0int } else { 1int },
        {
            let ghost p0 = *self;
            if self.screen.cursor.pending_wrap && autowrap {
                self.wrap_line();
            }
            let ghost m = *self;
            proof {
                assert(m.pending_wrapped(&p0, p0.modes.autowrap));
                assert(m.pen == p0.pen && m.cur_link == p0.cur_link);
            }
            let x = self.screen.cursor.x;
            let y = self.screen.cursor.y;
            let space = cols - x;
            let left = bytes.len() - start;
            let n = if space < left { space } else { left };
            let ghost s2 = *self;
            let ghost row = s2.screen.screen()[y as int];
            proof {
                assert(row.cells.len() == cols);
                assert(write_run(row.cells, x as int, bytes@.subrange(start as int, start as int), pen, link) =~= row.cells);
                assert(s2.screen.screen().update(y as int, LineView { cells: row.cells, wrapped: row.wrapped })
                    =~= s2.screen.screen());
            }
            let blen = bytes.len();
            let mut k: usize = 0;
            while k < n
                invariant
                    self.screen.wf(),
                    *self == (Terminal { screen: self.screen, ..s2 }),
                    self.screen.cols == s2.screen.cols,
                    self.screen.rows == s2.screen.rows,
                    self.screen.same_frame(&s2.screen),
                    x == s2.screen.cursor.x,
                    y == s2.screen.cursor.y,
                    x + n <= cols,
                    cols == s2.screen.cols,
                    start + n <= blen,
                    blen == bytes@.len(),
                    k <= n,
                    pen == s2.pen,
                    link == s2.cur_link,
                    row.cells.len() == cols,
                    y < s2.screen.rows,
                    s2.screen.wf(),
                    row == s2.screen.screen()[y as int],
                    self.screen.screen() == s2.screen.screen().update(y as int, LineView {
                        cells: write_run(row.cells, x as int, bytes@.subrange(start as int, start + k), pen, link),
                        wrapped: row.wrapped }),
                    self.screen.dirty@ == (if k > 0 { dirty_range(s2.screen.dirty@, y as int, y as int) } else { s2.screen.dirty@ }),
                decreases n - k,
            {
                let ghost before = self.screen.screen();
                self.screen.set_cell(x + k, y, Cell { ch: bytes[start + k] as char, pen, link, grapheme: 0 });
                k = k + 1;
                proof {
                    assert(row.cells.len() == cols);
                    let cprev = write_run(row.cells, x as int, bytes@.subrange(start as int, start + k - 1), pen, link);
                    assert(before[y as int] == LineView { cells: cprev, wrapped: row.wrapped });
                    assert(self.screen.screen() =~= s2.screen.screen().update(y as int, LineView {
                        cells: cprev.update(x + k - 1, Cell { ch: bytes@[start + k - 1] as char, pen, link, grapheme: 0 }),
                        wrapped: row.wrapped }));
                    assert(write_run(row.cells, x as int, bytes@.subrange(start as int, start + k), pen, link)
                        =~= write_run(row.cells, x as int, bytes@.subrange(start as int, start + k - 1), pen, link)
                            .update(x + k - 1, Cell { ch: bytes@[start + k - 1] as char, pen, link, grapheme: 0 }));
                    assert(self.screen.dirty@ =~= dirty_range(s2.screen.dirty@, y as int, y as int));
                }
            }
            self.last_grapheme = Some((x + n - 1, y));
            start = start + n;
            if x + n >= cols {
                self.screen.cursor.x = cols - 1;
                self.screen.cursor.pending_wrap = autowrap;
                if start >= bytes.len() {
                    done = true;
                }
                // Bytes remain: with auto-wrap the next pass wraps via the
                // pending flag; without, it overwrites the last column.
            } else {
                self.screen.cursor.x = x + n;
                done = true;
            }
            proof {
                s2.lemma_evolves_refl();
                Terminal::lemma_evolves_trans(old(self), &s2, self);
                let run = bytes@.subrange(start - n, start as int);
                assert(self.span_placed(&m, run, (blen - (start - n)) as int));
                assert(self.span_put(&p0, run, (blen - (start - n)) as int));
                let tr2 = tr.push(*self);
                let st2 = starts.push(start as int);
                assert forall|q: int| 0 <= q < tr2.len() - 1 implies #[trigger] span_step(tr2, st2, bytes@, q) by {
                    if q < tr.len() - 1 {
                        assert(span_step(tr, starts, bytes@, q));
                    }
                }
                tr = tr2;
                starts = st2;
            }
        }
        proof {
            assert(span_trace(tr, starts, bytes@));
            assert(starts.last() == bytes@.len());
        }
    }

    /// Execute a C0 control. Any control breaks grapheme continuation.
    fn execute_byte(&mut self, byte: u8)
        requires
            old(self).wf(),
        ensures
            final(self).wf(),
            final(self).evolves(old(self)),
            final(self).c0_effect(old(self), byte),
    {
        proof { reveal(Terminal::region_scrolled_up); }
        self.break_grapheme();
        let ghost s1 = *self;
        if byte == 0x07 {
            self.bell_count = self.bell_count.wrapping_add(1);
            proof { s1.lemma_evolves_refl(); }
        } else if byte == 0x08 {
            let x = self.screen.cursor.x;
            if x > 0 {
                self.screen.cursor.x = x - 1;
            }
            self.screen.cursor.pending_wrap = false;
            proof { s1.lemma_evolves_refl(); }
        } else if byte == 0x09 {
            // Next 8-column tab stop.
            let cols = self.screen.cols;
            let x = self.screen.cursor.x;
            let base = x - x % 8;
            let next = if cols - base > 8 { base + 8 } else { cols - 1 };
            self.screen.goto_col(next);
            proof { s1.lemma_evolves_refl(); }
        } else if 0x0a <= byte && byte <= 0x0c {
            self.linefeed();
            if self.modes.newline_mode {
                let ghost s2 = *self;
                self.carriage_return();
                proof { Terminal::lemma_evolves_trans(&s1, &s2, self); }
            }
        } else if byte == 0x0d {
            self.carriage_return();
        } else {
            proof { s1.lemma_evolves_refl(); }
        }
        proof { Terminal::lemma_evolves_trans(old(self), &s1, self); }
    }

    // --- CSI ------------------------------------------------------------------

    fn save_cursor(&mut self)
        requires
            old(self).wf(),
        ensures
            final(self).wf(),
            final(self).evolves(old(self)),
            *final(self) == (Terminal { screen: Buffer { saved: SavedCursor { x: old(self).screen.cursor.x,
                y: old(self).screen.cursor.y, pen: old(self).pen, link: old(self).cur_link }, ..old(self).screen }, ..*old(self) }),
    {
        let c = self.screen.cursor;
        self.screen.saved = SavedCursor { x: c.x, y: c.y, pen: self.pen, link: self.cur_link };
        proof { old(self).lemma_evolves_refl(); }
    }

    fn restore_cursor(&mut self)
        requires
            old(self).wf(),
        ensures
            final(self).wf(),
            final(self).evolves(old(self)),
            *final(self) == (Terminal { pen: old(self).screen.saved.pen, cur_link: old(self).screen.saved.link,
                ..old(self).with_cursor(old(self).screen.clamped(old(self).screen.saved.x, old(self).screen.saved.y)) }),
    {
        let s = self.screen.saved;
        self.pen = s.pen;
        self.cur_link = s.link;
        self.screen.goto(s.x, s.y);
        proof { old(self).lemma_evolves_refl(); }
    }

    fn set_alt_screen(&mut self, enable: bool, save_restore_cursor: bool)
        requires
            old(self).wf(),
        ensures
            final(self).wf(),
            final(self).evolves(old(self)),
            final(self).alt_switched(old(self), enable, save_restore_cursor),
    {
        if enable == self.alt_active {
            proof { old(self).lemma_evolves_refl(); }
            return;
        }
        let ghost s1 = *self;
        if enable {
            if save_restore_cursor {
                self.save_cursor();
            }
            let pen = self.pen;
            self.other.erase_all(pen);
            self.other.cursor = Cursor { x: 0, y: 0, pending_wrap: false };
            std::mem::swap(&mut self.screen, &mut self.other);
            self.alt_active = true;
        } else {
            std::mem::swap(&mut self.screen, &mut self.other);
            self.alt_active = false;
            if save_restore_cursor {
                self.restore_cursor();
            }
        }
        self.display_offset = 0;
        self.viewport_full = true;
        self.screen.mark_all_dirty();
        proof {
            old(self).lemma_evolves_refl();
            assert(self.evolves(old(self)));
        }
    }

    fn set_private_mode(&mut self, mode: u16, enable: bool)
        requires
            old(self).wf(),
        ensures
            final(self).wf(),
            final(self).evolves(old(self)),
            final(self).mode_effect(old(self), mode, true, enable),
    {
        proof {
            reveal(Terminal::mode_effect);
            old(self).lemma_evolves_refl();
        }
        if mode == 5 {
            self.modes = Modes { reverse_video: enable, ..self.modes };
            self.screen.mark_all_dirty();
        } else if mode == 6 {
            // DECOM homes the cursor to the region origin.
            self.modes = Modes { origin: enable, ..self.modes };
            let y = if enable { self.screen.scroll_top } else { 0 };
            self.screen.goto(0, y);
        } else if mode == 47 || mode == 1047 || mode == 1049 {
            self.set_alt_screen(enable, mode == 1049);
        } else {
            self.modes = dec_modes(self.modes, mode, enable);
        }
    }

    fn set_mode(&mut self, params: &Params, private: bool, enable: bool)
        requires
            old(self).wf(),
        ensures
            final(self).wf(),
            final(self).evolves(old(self)),
            final(self).modes_set(old(self), first_values(params@), private, enable),
    {
        let values = params.iter();
        let mut i: usize = 0;
        let ghost mut tr: Seq<Terminal> = seq![*self];
        proof { old(self).lemma_evolves_refl(); }
        while i < values.len()
            invariant
                self.wf(),
                self.evolves(old(self)),
                i <= values@.len(),
                tr.len() == i + 1,
                tr[0] == *old(self),
                tr.last() == *self,
                mode_trace(tr, values@.take(i as int), private, enable),
            decreases values.len() - i,
        {
            let p = values[i];
            let ghost s1 = *self;
            if private {
                self.set_private_mode(p, enable);
            } else {
                self.set_ansi_mode(p, enable);
            }
            proof {
                Terminal::lemma_evolves_trans(old(self), &s1, self);
                let t = values@.take(i as int + 1);
                let tr2 = tr.push(*self);
                assert(self.mode_effect(&s1, p, private, enable));
                assert forall|k: int| 0 <= k < t.len() implies #[trigger] tr2[k + 1].mode_effect(&tr2[k], t[k], private, enable) by {
                    if k < i {
                        assert(values@.take(i as int)[k] == t[k]);
                    }
                }
                tr = tr2;
            }
            i = i + 1;
        }
        proof {
            assert(values@.take(values@.len() as int) =~= values@);
        }
    }

    fn set_ansi_mode(&mut self, v: u16, enable: bool)
        requires
            old(self).wf(),
        ensures
            final(self).wf(),
            final(self).evolves(old(self)),
            final(self).mode_effect(old(self), v, false, enable),
    {
        proof { reveal(Terminal::mode_effect); }
        self.modes = ansi_modes(self.modes, v, enable);
        proof { old(self).lemma_evolves_refl(); }
    }

    /// `self` is `o` after mode value `v` was set (`enable`) or reset: ANSI
    /// modes IRM (4) and LNM (20); DEC private modes cursor keys (1), reverse
    /// video (5, all rows redrawn), origin (6, cursor homed to the region
    /// origin), auto-wrap (7), blink (12), cursor visible (25), mouse
    /// reporting (9 / 1000 / 1002 / 1003), focus events (1004), SGR mouse
    /// (1006), bracketed paste (2004) and the alternate screen (47 / 1047 /
    /// 1049, the last saving and restoring the cursor); other values change
    /// nothing.
    #[verifier::opaque]
    pub closed spec fn mode_effect(&self, o: &Terminal, v: u16, private: bool, enable: bool) -> bool {
        let m = o.modes;
        if !private {
            *self == (Terminal { modes: ansi_modes(m, v, enable), ..*o })
        } else if v == 5 {
            &&& *self == (Terminal { modes: Modes { reverse_video: enable, ..m },
                screen: Buffer { dirty: self.screen.dirty, ..o.screen }, ..*o })
            &&& self.screen.dirty@ == all_true(o.screen.rows as nat)
        } else if v == 6 {
            *self == (Terminal { modes: Modes { origin: enable, ..m },
                ..o.with_cursor(o.screen.clamped(0, if enable { o.screen.scroll_top } else { 0 })) })
        } else if v == 47 || v == 1047 || v == 1049 {
            self.alt_switched(o, enable, v == 1049)
        } else {
            *self == (Terminal { modes: dec_modes(m, v, enable), ..*o })
        }
    }

    /// `self` is `o` after the mode values `vals` were set or reset in order.
    pub closed spec fn modes_set(&self, o: &Terminal, vals: Seq<u16>, private: bool, enable: bool) -> bool {
        exists|tr: Seq<Terminal>| #[trigger] mode_trace(tr, vals, private, enable) && tr[0] == *o && tr.last() == *self
    }

    /// `self` is `o` after switching to (`enable`) or back from the alternate
    /// screen: entering erases it in the pen's background with the cursor
    /// home (saving the primary cursor first when `save`); leaving returns to
    /// the primary screen as it was (restoring its saved cursor when `save`);
    /// either way the viewport goes to the bottom and every row is redrawn.
    /// Switching to the screen already active changes nothing.
    pub closed spec fn alt_switched(&self, o: &Terminal, enable: bool, save: bool) -> bool {
        if enable == o.alt_active {
            *self == *o
        } else if enable {
            let p = if save {
                Buffer { saved: SavedCursor { x: o.screen.cursor.x, y: o.screen.cursor.y, pen: o.pen, link: o.cur_link }, ..o.screen }
            } else {
                o.screen
            };
            let a = o.other;
            &&& *self == (Terminal { screen: self.screen, other: p, alt_active: true, display_offset: 0, viewport_full: true, ..*o })
            &&& self.screen.cols == a.cols && self.screen.rows == a.rows
            &&& self.screen.saved == a.saved
            &&& self.screen.scroll_top == a.scroll_top && self.screen.scroll_bottom == a.scroll_bottom
            &&& self.screen.cursor == (Cursor { x: 0, y: 0, pending_wrap: false })
            &&& self.screen.screen() == repeat_line(blank_line_view(a.cols as nat, o.pen), a.rows as nat)
            &&& self.screen.dirty@ == all_true(a.rows as nat)
        } else {
            let p = o.other;
            &&& *self == (Terminal { screen: self.screen, other: o.screen, alt_active: false, display_offset: 0,
                viewport_full: true, pen: if save { p.saved.pen } else { o.pen },
                cur_link: if save { p.saved.link } else { o.cur_link }, ..*o })
            &&& self.screen == (Buffer { cursor: if save { p.clamped(p.saved.x, p.saved.y) } else { p.cursor },
                dirty: self.screen.dirty, ..p })
            &&& self.screen.dirty@ == all_true(p.rows as nat)
        }
    }

    fn set_scroll_region(&mut self, params: &Params)
        requires
            old(self).wf(),
        ensures
            final(self).wf(),
            final(self).evolves(old(self)),
            ({
                let (top, bottom) = region_of(params@, old(self).screen.rows as int);
                let valid = top < bottom;
                let nt = if valid { top as usize } else { old(self).screen.scroll_top };
                let nb = if valid { bottom as usize } else { old(self).screen.scroll_bottom };
                let home = if old(self).modes.origin { nt } else { 0 };
                *final(self) == (Terminal { screen: Buffer { scroll_top: nt, scroll_bottom: nb,
                    cursor: old(self).screen.clamped(0, home), ..old(self).screen }, ..*old(self) })
            }),
    {
        let rows = self.screen.rows;
        let t = params.get(0, 1);
        let top: usize = (if t > 1 { t } else { 1 }) as usize - 1;
        let b = params.get(1, (rows % 65536) as u16) as usize;
        let b = if b < rows { b } else { rows };
        let bottom: usize = (if b > 1 { b } else { 1 }) - 1;
        if top < bottom {
            self.screen.scroll_top = top;
            self.screen.scroll_bottom = bottom;
        }
        // The cursor goes home (of the region when DECOM is on).
        let y = if self.modes.origin { self.screen.scroll_top } else { 0 };
        self.screen.goto(0, y);
        proof { old(self).lemma_evolves_refl(); }
    }

    fn device_status(&mut self, params: &Params)
        requires
            old(self).wf(),
        ensures
            final(self).wf(),
            final(self).evolves(old(self)),
            *final(self) == (Terminal { output: final(self).output, ..*old(self) }),
            final(self).output@ == old(self).output@ + dsr_reply(p_get(params@, 0, 0), old(self).screen.cursor),
    {
        let code = params.get(0, 0);
        if code == 5 {
            self.reply(&[0x1bu8, 0x5b, 0x30, 0x6e]);
        } else if code == 6 {
            let x = self.screen.cursor.x as u64 + 1;
            let y = self.screen.cursor.y as u64 + 1;
            let ghost s0 = *self;
            let ghost c = self.screen.cursor;
            self.reply(&[0x1bu8, 0x5b]);
            let ghost s1 = *self;
            self.reply_decimal(y);
            let ghost s2 = *self;
            self.reply(&[0x3bu8]);
            let ghost s3 = *self;
            self.reply_decimal(x);
            let ghost s4 = *self;
            self.reply(&[0x52u8]);
            proof {
                Terminal::lemma_evolves_trans(&s0, &s1, &s2);
                Terminal::lemma_evolves_trans(&s0, &s2, &s3);
                Terminal::lemma_evolves_trans(&s0, &s3, &s4);
                Terminal::lemma_evolves_trans(&s0, &s4, self);
            }
        } else {
            proof { old(self).lemma_evolves_refl(); }
        }
    }

    /// Apply an SGR (select graphic rendition) sequence to the pen.
    fn sgr(&mut self, params: &Params)
        requires
            old(self).wf(),
        ensures
            final(self).wf(),
            final(self).evolves(old(self)),
            final(self).pen == sgr_pen(old(self).pen, params@),
            *final(self) == (Terminal { pen: final(self).pen, ..*old(self) }),
            params@ == seq![seq![39u16]] ==> final(self).pen == (Pen { fg: Color::Default, bg: old(self).pen.bg,
                flags: old(self).pen.flags }),
    {
        proof {
            old(self).lemma_evolves_refl();
            lemma_sgr_resets(old(self).pen, 39);
        }
        if params.is_empty() {
            self.pen = Pen::new();
            return;
        }
        let n = params.len();
        let mut i: usize = 0;
        while i < n
            invariant
                *self == (Terminal { pen: self.pen, ..*old(self) }),
                old(self).wf(),
                n == params@.len(),
                i <= n,
                sgr_from(self.pen, params@, i as int) == sgr_pen(old(self).pen, params@),
            decreases n - i,
        {
            let ghost pen0 = self.pen;
            let code = params.get(i, 0);
            if code == 0 {
                self.pen = Pen::new();
            } else if code == 1 {
                self.pen.set(attr::BOLD);
            } else if code == 2 {
                self.pen.set(attr::DIM);
            } else if code == 3 {
                self.pen.set(attr::ITALIC);
            } else if code == 4 {
                self.pen.set(attr::UNDERLINE);
            } else if code == 5 || code == 6 {
                self.pen.set(attr::BLINK);
            } else if code == 7 {
                self.pen.set(attr::INVERSE);
            } else if code == 8 {
                self.pen.set(attr::INVISIBLE);
            } else if code == 9 {
                self.pen.set(attr::STRIKETHROUGH);
            } else if code == 21 || code == 22 {
                self.pen.clear(attr::BOLD);
                self.pen.clear(attr::DIM);
            } else if code == 23 {
                self.pen.clear(attr::ITALIC);
            } else if code == 24 {
                self.pen.clear(attr::UNDERLINE);
            } else if code == 25 {
                self.pen.clear(attr::BLINK);
            } else if code == 27 {
                self.pen.clear(attr::INVERSE);
            } else if code == 28 {
                self.pen.clear(attr::INVISIBLE);
            } else if code == 29 {
                self.pen.clear(attr::STRIKETHROUGH);
            } else if 30 <= code && code <= 37 {
                self.pen.fg = Color::Indexed((code - 30) as u8);
            } else if code == 38 {
                if let Some((c, adv)) = parse_ext_color(params, i) {
                    self.pen.fg = c;
                    i = if adv < n - i { i + adv } else { n };
                }
            } else if code == 39 {
                self.pen.fg = Color::Default;
            } else if 40 <= code && code <= 47 {
                self.pen.bg = Color::Indexed((code - 40) as u8);
            } else if code == 48 {
                if let Some((c, adv)) = parse_ext_color(params, i) {
                    self.pen.bg = c;
                    i = if adv < n - i { i + adv } else { n };
                }
            } else if code == 49 {
                self.pen.bg = Color::Default;
            } else if 90 <= code && code <= 97 {
                self.pen.fg = Color::Indexed((code - 90 + 8) as u8);
            } else if 100 <= code && code <= 107 {
                self.pen.bg = Color::Indexed((code - 100 + 8) as u8);
            }
            if i < n {
                i = i + 1;
            }
        }
    }
}

/// The pen after SGR parameter group `i` (whose code is `code`), and how
/// many further groups it consumed.
pub open spec fn sgr_step(pen: Pen, p: Seq<Seq<u16>>, i: int) -> (Pen, int) {
    let code = p_get(p, i, 0);
    let set = |b: u16| Pen { flags: pen.flags | b, ..pen };
    let clear = |b: u16| Pen { flags: pen.flags & !b, ..pen };
    if code == 0 { (default_pen(), 0) }
    else if code == 1 { (set(attr::BOLD), 0) }
    else if code == 2 { (set(attr::DIM), 0) }
    else if code == 3 { (set(attr::ITALIC), 0) }
    else if code == 4 { (set(attr::UNDERLINE), 0) }
    else if code == 5 || code == 6 { (set(attr::BLINK), 0) }
    else if code == 7 { (set(attr::INVERSE), 0) }
    else if code == 8 { (set(attr::INVISIBLE), 0) }
    else if code == 9 { (set(attr::STRIKETHROUGH), 0) }
    else if code == 21 || code == 22 { (Pen { flags: (pen.flags & !attr::BOLD) & !attr::DIM, ..pen }, 0) }
    else if code == 23 { (clear(attr::ITALIC), 0) }
    else if code == 24 { (clear(attr::UNDERLINE), 0) }
    else if code == 25 { (clear(attr::BLINK), 0) }
    else if code == 27 { (clear(attr::INVERSE), 0) }
    else if code == 28 { (clear(attr::INVISIBLE), 0) }
    else if code == 29 { (clear(attr::STRIKETHROUGH), 0) }
    else if 30 <= code <= 37 { (Pen { fg: Color::Indexed((code - 30) as u8), ..pen }, 0) }
    else if code == 38 {
        match ext_color(p, i) {
            Some((c, adv)) => (Pen { fg: c, ..pen }, adv as int),
            None => (pen, 0),
        }
    }
    else if code == 39 { (Pen { fg: Color::Default, ..pen }, 0) }
    else if 40 <= code <= 47 { (Pen { bg: Color::Indexed((code - 40) as u8), ..pen }, 0) }
    else if code == 48 {
        match ext_color(p, i) {
            Some((c, adv)) => (Pen { bg: c, ..pen }, adv as int),
            None => (pen, 0),
        }
    }
    else if code == 49 { (Pen { bg: Color::Default, ..pen }, 0) }
    else if 90 <= code <= 97 { (Pen { fg: Color::Indexed((code - 90 + 8) as u8), ..pen }, 0) }
    else if 100 <= code <= 107 { (Pen { bg: Color::Indexed((code - 100 + 8) as u8), ..pen }, 0) }
    else { (pen, 0) }
}

/// SGR 39 resets the foreground to the default color and SGR 49 the
/// background; each keeps everything else of the pen. SGR 30..37 pick ANSI
/// foreground `code - 30`, SGR 0 (or no parameter) resets the whole pen.
pub proof fn lemma_sgr_resets(pen: Pen, code: u16)
    ensures
        sgr_pen(pen, seq![seq![39u16]]) == (Pen { fg: Color::Default, bg: pen.bg, flags: pen.flags }),
        sgr_pen(pen, seq![seq![49u16]]) == (Pen { fg: pen.fg, bg: Color::Default, flags: pen.flags }),
        30 <= code <= 37 ==> sgr_pen(pen, seq![seq![code]]) == (Pen { fg: Color::Indexed((code - 30) as u8), bg: pen.bg, flags: pen.flags }),
        sgr_pen(pen, seq![seq![0u16]]) == default_pen(),
        sgr_pen(pen, Seq::<Seq<u16>>::empty()) == default_pen(),
        40 <= code <= 47 ==> sgr_pen(pen, seq![seq![code]]) == (Pen { fg: pen.fg, bg: Color::Indexed((code - 40) as u8), flags: pen.flags }),
        90 <= code <= 97 ==> sgr_pen(pen, seq![seq![code]]) == (Pen { fg: Color::Indexed((code - 82) as u8), bg: pen.bg, flags: pen.flags }),
        100 <= code <= 107 ==> sgr_pen(pen, seq![seq![code]]) == (Pen { fg: pen.fg, bg: Color::Indexed((code - 92) as u8), flags: pen.flags }),
        sgr_pen(pen, seq![seq![1u16]]) == (Pen { flags: pen.flags | attr::BOLD, ..pen }),
        sgr_pen(pen, seq![seq![3u16]]) == (Pen { flags: pen.flags | attr::ITALIC, ..pen }),
        sgr_pen(pen, seq![seq![4u16]]) == (Pen { flags: pen.flags | attr::UNDERLINE, ..pen }),
        sgr_pen(pen, seq![seq![7u16]]) == (Pen { flags: pen.flags | attr::INVERSE, ..pen }),
        sgr_pen(pen, seq![seq![22u16]]) == (Pen { flags: pen.flags & !attr::BOLD & !attr::DIM, ..pen }),
        sgr_pen(pen, seq![seq![24u16]]) == (Pen { flags: pen.flags & !attr::UNDERLINE, ..pen }),
        sgr_pen(pen, seq![seq![27u16]]) == (Pen { flags: pen.flags & !attr::INVERSE, ..pen }),
{
    reveal_with_fuel(sgr_from, 2);
}

/// SGR parameters apply left to right: two plain parameters (neither an
/// extended color 38 / 48) act as the first, then the second.
pub proof fn lemma_sgr_in_order(pen: Pen, a: u16, b: u16)
    requires
        a != 38 && a != 48,
        b != 38 && b != 48,
    ensures
        sgr_pen(pen, seq![seq![a], seq![b]]) == sgr_pen(sgr_pen(pen, seq![seq![a]]), seq![seq![b]]),
{
    reveal_with_fuel(sgr_from, 3);
    let p = seq![seq![a], seq![b]];
    assert(p_get(p, 0, 0) == p_get(seq![seq![a]], 0, 0));
    assert(sgr_step(pen, p, 0) == sgr_step(pen, seq![seq![a]], 0));
    let pen1 = sgr_step(pen, p, 0).0;
    assert(p_get(p, 1, 0) == p_get(seq![seq![b]], 0, 0));
    assert(sgr_step(pen1, p, 1) == sgr_step(pen1, seq![seq![b]], 0));
}

/// The pen after the SGR parameter groups from `i` on.
pub open spec fn sgr_from(pen: Pen, p: Seq<Seq<u16>>, i: int) -> Pen
    decreases p.len() - i,
{
    if i < 0 || i >= p.len() {
        pen
    } else {
        let (pen1, adv) = sgr_step(pen, p, i);
        let next = if adv < p.len() - i { i + adv + 1 } else { p.len() as int };
        sgr_from(pen1, p, next)
    }
}

/// The pen after an SGR sequence: no parameters reset it; otherwise each
/// group applies in turn (a 38 / 48 color consuming the groups it uses).
pub open spec fn sgr_pen(pen: Pen, p: Seq<Seq<u16>>) -> Pen {
    if p.len() == 0 { default_pen() } else { sgr_from(pen, p, 0) }
}

/// The cursor after a CSI cursor-motion final: vertical moves stop at the
/// scroll region's edges, horizontal ones at the screen's; absolute
/// positions are 1-based and clamped to the screen (relative to the region
/// in origin mode).
pub open spec fn motion_cursor(b: Buffer, origin: bool, p: Seq<Seq<u16>>, action: char) -> Cursor {
    let n = if p_get(p, 0, 1) > 1 { p_get(p, 0, 1) as int } else { 1 };
    let n2 = if p_get(p, 1, 1) > 1 { p_get(p, 1, 1) as int } else { 1 };
    let cur = b.cursor;
    let top = b.scroll_top as int;
    let bottom = b.scroll_bottom as int;
    let clamp_x = |x: int| if x < b.cols { x } else { b.cols - 1 };
    let clamp_y = |y: int| if y < b.rows { y } else { b.rows - 1 };
    let up = if cur.y >= n { cur.y - n } else { 0 };
    let up_stop = if up > top { up } else { top };
    let down = if cur.y >= bottom || bottom - cur.y <= n { bottom } else { cur.y + n };
    let at = |x: int, y: int| Cursor { x: clamp_x(x) as usize, y: clamp_y(y) as usize, pending_wrap: false };
    if action == 'A' { at(cur.x as int, up_stop) }
    else if action == 'B' || action == 'e' { at(cur.x as int, down) }
    else if action == 'C' || action == 'a' {
        at(if b.cols - 1 - cur.x <= n { b.cols - 1 } else { cur.x + n }, cur.y as int)
    }
    else if action == 'D' { at(if cur.x >= n { cur.x - n } else { 0 }, cur.y as int) }
    else if action == 'E' { at(0, down) }
    else if action == 'F' { at(0, up_stop) }
    else if action == 'G' || action == '`' { at(n - 1, cur.y as int) }
    else if action == 'd' { at(cur.x as int, n - 1) }
    else if action == 'H' || action == 'f' {
        let y = if origin { if bottom - top <= n - 1 { bottom } else { n - 1 + top } } else { n - 1 };
        at(n2 - 1, y)
    }
    else { cur }
}

/// The CSI finals that move the cursor.
pub open spec fn is_motion_final(a: char) -> bool {
    a == 'A' || a == 'B' || a == 'e' || a == 'C' || a == 'a' || a == 'D' || a == 'E' || a == 'F' || a == 'G'
        || a == '`' || a == 'd' || a == 'H' || a == 'f'
}

/// The next 8-column tab stop after column `x`, or the last column.
pub open spec fn tab_stop(x: int, cols: int) -> int {
    let base = x - x % 8;
    if cols - base > 8 { base + 8 } else { cols - 1 }
}

/// The rows `[top, bottom]` (0-based) a DECSTBM sequence asks for: 1-based
/// parameters, the bottom defaulting to and capped at the screen.
pub open spec fn region_of(p: Seq<Seq<u16>>, rows: int) -> (int, int) {
    let t = p_get(p, 0, 1);
    let top = (if t > 1 { t as int } else { 1 }) - 1;
    let b0 = p_get(p, 1, (rows % 65536) as u16) as int;
    let b = if b0 < rows { b0 } else { rows };
    (top, (if b > 1 { b } else { 1 }) - 1)
}

/// The reply to a device status report: `5` (status) answers `CSI 0 n`,
/// `6` (cursor position) answers `CSI row ; col R`, 1-based; others nothing.
pub open spec fn dsr_reply(code: u16, c: Cursor) -> Seq<u8> {
    if code == 5 {
        seq![0x1bu8, 0x5b, 0x30, 0x6e]
    } else if code == 6 {
        seq![0x1bu8, 0x5b] + crate::keys::dec((c.y + 1) as nat) + seq![0x3bu8] + crate::keys::dec((c.x + 1) as nat) + seq![0x52u8]
    } else {
        Seq::empty()
    }
}

/// The low byte of a parameter (`as u8`).
pub open spec fn low_byte(v: u16) -> u8 {
    (v % 256) as u8
}

fn byte_of(v: u16) -> (b: u8)
    ensures
        b == low_byte(v),
{
    (v % 256) as u8
}

/// An extended SGR color at parameter group `i` (which is `38`/`48`):
/// `38;5;n` / `38;2;r;g;b` (semicolon form, consuming further groups) or
/// `38:5:n` / `38:2[:cs]:r:g:b` (colon sub-parameters). Returns the color and
/// how many extra groups were consumed.
pub open spec fn ext_color(p: Seq<Seq<u16>>, i: int) -> Option<(Color, usize)> {
    if p_get_sub(p, i, 1) is Some {
        let kind = p_get_sub(p, i, 1).unwrap();
        if kind == 5 {
            match p_get_sub(p, i, 2) {
                Some(v) => Some((Color::Indexed(low_byte(v)), 0)),
                None => None,
            }
        } else if kind == 2 {
            if p_get_sub(p, i, 5) is Some {
                match (p_get_sub(p, i, 3), p_get_sub(p, i, 4), p_get_sub(p, i, 5)) {
                    (Some(r), Some(g), Some(b)) => Some((Color::Rgb(low_byte(r), low_byte(g), low_byte(b)), 0)),
                    _ => None,
                }
            } else {
                match (p_get_sub(p, i, 2), p_get_sub(p, i, 3), p_get_sub(p, i, 4)) {
                    (Some(r), Some(g), Some(b)) => Some((Color::Rgb(low_byte(r), low_byte(g), low_byte(b)), 0)),
                    _ => None,
                }
            }
        } else {
            None
        }
    } else {
        let kind = p_get(p, i + 1, 0);
        if kind == 5 {
            Some((Color::Indexed(low_byte(p_get(p, i + 2, 0))), 2))
        } else if kind == 2 {
            Some((Color::Rgb(low_byte(p_get(p, i + 2, 0)), low_byte(p_get(p, i + 3, 0)), low_byte(p_get(p, i + 4, 0))), 4))
        } else {
            None
        }
    }
}

fn parse_ext_color(params: &Params, i: usize) -> (r: Option<(Color, usize)>)
    requires
        i < params@.len(),
    ensures
        r == ext_color(params@, i as int),
{
    if params.get_sub(i, 1).is_some() {
        let kind = match params.get_sub(i, 1) {
            Some(k) => k,
            None => 0,
        };
        if kind == 5 {
            return match params.get_sub(i, 2) {
                Some(v) => Some((Color::Indexed(byte_of(v)), 0)),
                None => None,
            };
        } else if kind == 2 {
            let (a, b, c) = if params.get_sub(i, 5).is_some() { (3, 4, 5) } else { (2, 3, 4) };
            return match (params.get_sub(i, a), params.get_sub(i, b), params.get_sub(i, c)) {
                (Some(r), Some(g), Some(bl)) => Some((Color::Rgb(byte_of(r), byte_of(g), byte_of(bl)), 0)),
                _ => None,
            };
        } else {
            return None;
        }
    }
    let n = params.len();
    let at = |k: usize| -> (v: u16)
        requires
            k <= 4,
        ensures
            v == p_get(params@, i + k, 0),
    {
        if n - i > k { params.get(i + k, 0) } else { 0 }
    };
    let kind = at(1);
    if kind == 5 {
        Some((Color::Indexed(byte_of(at(2))), 2))
    } else if kind == 2 {
        Some((Color::Rgb(byte_of(at(2)), byte_of(at(3)), byte_of(at(4))), 4))
    } else {
        None
    }
}

/// A count parameter: group `i` (absent or 0 meaning 1).
/// The count a CSI parameter gives: the value, at least 1.
pub open spec fn count_of(p: Seq<Seq<u16>>, i: int) -> usize {
    if p_get(p, i, 1) > 1 { p_get(p, i, 1) as usize } else { 1 }
}

/// The screen edit a CSI final makes with parameters `p`, if it is one: ED
/// (`J` 0 / 1 / 2-3), EL (`K` 0 / 1 / 2), IL, DL, DCH, ICH, ECH and SD.
pub open spec fn csi_edit(p: Seq<Seq<u16>>, action: char) -> Option<Edit> {
    let mode = p_get(p, 0, 0);
    let n = count_of(p, 0);
    if action == 'J' {
        if mode == 0 { Some(Edit::Below) } else if mode == 1 { Some(Edit::Above) }
        else if mode == 2 || mode == 3 { Some(Edit::All) } else { None }
    } else if action == 'K' {
        if mode == 0 { Some(Edit::LineRight) } else if mode == 1 { Some(Edit::LineLeft) }
        else if mode == 2 { Some(Edit::Line) } else { None }
    } else if action == 'L' {
        Some(Edit::InsertLines(n))
    } else if action == 'M' {
        Some(Edit::DeleteLines(n))
    } else if action == 'P' {
        Some(Edit::DeleteChars(n))
    } else if action == '@' {
        Some(Edit::InsertChars(n))
    } else if action == 'X' {
        Some(Edit::EraseChars(n))
    } else if action == 'T' {
        Some(Edit::ScrollDown(n))
    } else {
        None
    }
}

fn count_arg(params: &Params, i: usize) -> (n: usize)
    ensures
        n == count_of(params@, i as int),
        1 <= n <= 65535,
{
    let v = params.get(i, 1);
    if v > 1 { v as usize } else { 1 }
}

impl Terminal {
    /// Move the cursor for the CSI cursor-motion finals (`A B C D E F G H d e
    /// a f` and backquote), clamped as xterm does: vertical moves stop at the
    /// scroll region's edges, absolute positions at the screen.
    fn csi_motion(&mut self, params: &Params, action: char)
        requires
            old(self).wf(),
        ensures
            final(self).wf(),
            final(self).evolves(old(self)),
            final(self).screen.cursor == motion_cursor(old(self).screen, old(self).modes.origin, params@, action),
            *final(self) == (Terminal { screen: Buffer { cursor: final(self).screen.cursor, ..old(self).screen }, ..*old(self) }),
    {
        let cols = self.screen.cols;
        let cur = self.screen.cursor;
        let top = self.screen.scroll_top;
        let bottom = self.screen.scroll_bottom;
        proof { old(self).lemma_evolves_refl(); }
        if action == 'A' {
            let n = count_arg(params, 0);
            let up = if cur.y >= n { cur.y - n } else { 0 };
            self.screen.goto_row(if up > top { up } else { top });
        } else if action == 'B' || action == 'e' {
            let n = count_arg(params, 0);
            let ny = if cur.y >= bottom || bottom - cur.y <= n { bottom } else { cur.y + n };
            self.screen.goto_row(ny);
        } else if action == 'C' || action == 'a' {
            let n = count_arg(params, 0);
            let nx = if cols - 1 - cur.x <= n { cols - 1 } else { cur.x + n };
            self.screen.goto_col(nx);
        } else if action == 'D' {
            let n = count_arg(params, 0);
            self.screen.goto_col(if cur.x >= n { cur.x - n } else { 0 });
        } else if action == 'E' {
            let n = count_arg(params, 0);
            let ny = if cur.y >= bottom || bottom - cur.y <= n { bottom } else { cur.y + n };
            self.screen.goto(0, ny);
        } else if action == 'F' {
            let n = count_arg(params, 0);
            let up = if cur.y >= n { cur.y - n } else { 0 };
            self.screen.goto(0, if up > top { up } else { top });
        } else if action == 'G' || action == '`' {
            self.screen.goto_col(count_arg(params, 0) - 1);
        } else if action == 'd' {
            self.screen.goto_row(count_arg(params, 0) - 1);
        } else if action == 'H' || action == 'f' {
            let mut y = count_arg(params, 0) - 1;
            let x = count_arg(params, 1) - 1;
            if self.modes.origin {
                y = if bottom - top <= y { bottom } else { y + top };
            }
            self.screen.goto(x, y);
        }
    }

    /// Dispatch a final CSI byte (unless the sequence was flagged to ignore).
    #[verifier::spinoff_prover]
    #[verifier::rlimit(50)]
    fn csi(&mut self, params: &Params, intermediates: &[u8], ignore: bool, action: char)
        requires
            old(self).wf(),
        ensures
            final(self).wf(),
            final(self).evolves(old(self)),
            final(self).csi_effect(old(self), params@, intermediates@, ignore, action),
    {
        if ignore {
            proof { old(self).lemma_evolves_refl(); }
            return;
        }
        // A CSI (cursor move, erase, SGR, ...) ends any in-progress cluster.
        self.break_grapheme();
        let ghost s1 = *self;
        let private = intermediates.len() > 0 && intermediates[0] == 0x3f;
        let pen = self.pen;
        if action == 'A' || action == 'B' || action == 'e' || action == 'C' || action == 'a' || action == 'D'
            || action == 'E' || action == 'F' || action == 'G' || action == '`' || action == 'd'
            || action == 'H' || action == 'f' {
            self.csi_motion(params, action);
        } else if action == 'J' {
            let mode = params.get(0, 0);
            if mode == 0 {
                self.screen.erase_below(pen);
                proof { s1.lemma_evolves_refl(); }
            } else if mode == 1 {
                self.screen.erase_above(pen);
                proof { s1.lemma_evolves_refl(); }
            } else if mode == 2 || mode == 3 {
                self.screen.erase_all(pen);
                let ghost s2 = *self;
                proof { s1.lemma_evolves_refl(); }
                if !self.alt_active {
                    self.clear_screen_images();
                    proof { Terminal::lemma_evolves_trans(&s1, &s2, self); }
                }
            } else {
                proof { s1.lemma_evolves_refl(); }
            }
        } else if action == 'K' {
            let mode = params.get(0, 0);
            if mode == 0 {
                self.screen.erase_line_to_right(pen);
            } else if mode == 1 {
                self.screen.erase_line_to_left(pen);
            } else if mode == 2 {
                self.screen.erase_whole_line(pen);
            }
            proof { s1.lemma_evolves_refl(); }
        } else if action == 'L' {
            self.screen.insert_lines(count_arg(params, 0), pen);
            proof { s1.lemma_evolves_refl(); }
        } else if action == 'M' {
            self.screen.delete_lines(count_arg(params, 0), pen);
            proof { s1.lemma_evolves_refl(); }
        } else if action == 'P' {
            self.screen.delete_chars(count_arg(params, 0), pen);
            proof { s1.lemma_evolves_refl(); }
        } else if action == '@' {
            self.screen.insert_chars(count_arg(params, 0), pen);
            proof { s1.lemma_evolves_refl(); }
        } else if action == 'X' {
            self.screen.erase_chars(count_arg(params, 0), pen);
            proof { s1.lemma_evolves_refl(); }
        } else if action == 'S' {
            self.scroll_region_up(count_arg(params, 0));
        } else if action == 'T' {
            self.screen.scroll_down(count_arg(params, 0), pen);
            proof { s1.lemma_evolves_refl(); }
        } else if action == 'm' {
            self.sgr(params);
        } else if action == 'r' {
            self.set_scroll_region(params);
        } else if action == 'h' {
            self.set_mode(params, private, true);
        } else if action == 'l' {
            self.set_mode(params, private, false);
        } else if action == 'n' {
            self.device_status(params);
        } else if action == 'c' {
            // Primary Device Attributes: VT100 with advanced video.
            self.reply(&[0x1bu8, 0x5b, 0x3f, 0x31, 0x3b, 0x32, 0x63]);
        } else if action == 's' {
            self.save_cursor();
        } else if action == 'u' {
            self.restore_cursor();
        } else {
            proof { s1.lemma_evolves_refl(); }
        }
        proof { Terminal::lemma_evolves_trans(old(self), &s1, self); }
    }

    /// RIS: back to the power-on state, keeping the size, the scrollback cap,
    /// the theme, the cell size and the grapheme table (cell grapheme ids must
    /// stay valid for the terminal's whole lifetime).
    fn full_reset(&mut self)
        requires
            old(self).wf(),
        ensures
            final(self).wf(),
            final(self).evolves(old(self)),
            final(self).is_reset_of(old(self)),
    {
        proof { reveal(Terminal::is_reset_of); }
        let cols = self.screen.cols;
        let rows = self.screen.rows;
        self.screen = Buffer::new(cols, rows);
        self.other = Buffer::new(cols, rows);
        self.alt_active = false;
        self.scrollback.clear();
        self.display_offset = 0;
        self.viewport_full = true;
        self.pen = Pen::new();
        self.cur_link = 0;
        self.modes = Modes::default();
        self.links.clear();
        self.last_grapheme = None;
        self.pending_zwj = false;
        self.last_ri = false;
        let mut i: usize = 0;
        let ghost s0 = *self;
        while i < self.palette_indexed.len()
            invariant
                *self == (Terminal { palette_indexed: self.palette_indexed, ..s0 }),
                self.palette_indexed@.len() == 256,
                forall|j: int| 0 <= j < i ==> self.palette_indexed@[j] is None,
            decreases self.palette_indexed.len() - i,
        {
            self.palette_indexed.set(i, None);
            i = i + 1;
        }
        self.palette_fg = None;
        self.palette_bg = None;
        self.palette_cursor = None;
        self.palette_version = self.palette_version.wrapping_add(1);
        if self.images.len() > 0 {
            self.images.clear();
            self.images_version = self.images_version.wrapping_add(1);
        }
        self.kitty_pending = None;
        self.kitty_store.clear();
        self.scrolled_off = 0;
        proof {
            old(self).lemma_evolves_refl();
            assert(self.evolves(old(self)));
        }
    }

    /// Dispatch a final ESC byte.
    fn esc(&mut self, intermediates: &[u8], byte: u8)
        requires
            old(self).wf(),
        ensures
            final(self).wf(),
            final(self).evolves(old(self)),
            final(self).esc_effect(old(self), intermediates@, byte),
    {
        self.break_grapheme();
        let ghost s1 = *self;
        if intermediates.len() == 0 {
            self.esc_final(byte);
        } else {
            // Charset designation and the rest are accepted and ignored.
            proof { s1.lemma_evolves_refl(); }
        }
        proof { Terminal::lemma_evolves_trans(old(self), &s1, self); }
    }

    fn esc_final(&mut self, byte: u8)
        requires
            old(self).wf(),
        ensures
            final(self).wf(),
            final(self).evolves(old(self)),
            final(self).esc_final_effect(old(self), byte),
    {
        if byte == 0x44 {
            self.linefeed();
        } else if byte == 0x45 {
            self.carriage_return();
            let ghost s2 = *self;
            self.linefeed();
            proof { Terminal::lemma_evolves_trans(old(self), &s2, self); }
        } else if byte == 0x4d {
            self.reverse_index();
        } else if byte == 0x37 {
            self.save_cursor();
        } else if byte == 0x38 {
            self.restore_cursor();
        } else {
            self.esc_misc(byte);
        }
    }

    fn esc_misc(&mut self, byte: u8)
        requires
            old(self).wf(),
        ensures
            final(self).wf(),
            final(self).evolves(old(self)),
            final(self).esc_misc_effect(old(self), byte),
    {
        if byte == 0x63 {
            self.full_reset();
        } else if byte == 0x3d || byte == 0x3e {
            let on = byte == 0x3d;
            self.modes = Modes { app_keypad: on, ..self.modes };
            proof { old(self).lemma_evolves_refl(); }
            assert(*self == (Terminal { modes: Modes { app_keypad: on, ..old(self).modes }, ..*old(self) }));
        } else {
            proof { old(self).lemma_evolves_refl(); }
        }
    }
}

/// Lowercase hex digit for `v < 16`.
pub open spec fn hex_digit(v: u8) -> u8 {
    if v < 10 { (0x30 + v) as u8 } else { (0x61 + v - 10) as u8 }
}

/// An OSC color report body: `rgb:RRRR/GGGG/BBBB`, each 8-bit channel doubled.
pub open spec fn rgb_report(r: u8, g: u8, b: u8) -> Seq<u8> {
    let h = |v: u8| seq![hex_digit(v / 16), hex_digit(v % 16), hex_digit(v / 16), hex_digit(v % 16)];
    seq![0x72u8, 0x67, 0x62, 0x3a] + h(r) + seq![0x2fu8] + h(g) + seq![0x2fu8] + h(b)
}

fn hex_of(v: u8) -> (c: u8)
    requires
        v < 16,
    ensures
        c == hex_digit(v),
{
    if v < 10 { 0x30 + v } else { 0x61 + v - 10 }
}

/// Whether `b` is exactly the ASCII text of one of the OSC codes.
/// The OSC code a first field names (its exact decimal text), or 65535 for
/// a code the terminal does not handle.
pub open spec fn osc_code_of(c: Seq<u8>) -> u16 {
    if c == seq![0x30u8] { 0 }
    else if c == seq![0x31u8] { 1 }
    else if c == seq![0x32u8] { 2 }
    else if c == seq![0x34u8] { 4 }
    else if c == seq![0x38u8] { 8 }
    else if c == seq![0x31u8, 0x30] { 10 }
    else if c == seq![0x31u8, 0x31] { 11 }
    else if c == seq![0x31u8, 0x32] { 12 }
    else if c == seq![0x31u8, 0x30, 0x34] { 104 }
    else if c == seq![0x31u8, 0x31, 0x30] { 110 }
    else if c == seq![0x31u8, 0x31, 0x31] { 111 }
    else if c == seq![0x31u8, 0x31, 0x32] { 112 }
    else if c == seq![0x31u8, 0x33, 0x33, 0x37] { 1337 }
    else { 65535 }
}

fn osc_code(b: &Vec<u8>) -> (r: u16)
    ensures
        r == osc_code_of(b@),
{
    let n = b.len();
    if n == 1 {
        let x = b[0];
        if x == 0x30 { assert(b@ =~= seq![0x30u8]); 0 }
        else if x == 0x31 { assert(b@ =~= seq![0x31u8]); 1 }
        else if x == 0x32 { assert(b@ =~= seq![0x32u8]); 2 }
        else if x == 0x34 { assert(b@ =~= seq![0x34u8]); 4 }
        else if x == 0x38 { assert(b@ =~= seq![0x38u8]); 8 }
        else { 65535 }
    } else if n == 2 && b[0] == 0x31 {
        let x = b[1];
        if x == 0x30 { assert(b@ =~= seq![0x31u8, 0x30]); 10 }
        else if x == 0x31 { assert(b@ =~= seq![0x31u8, 0x31]); 11 }
        else if x == 0x32 { assert(b@ =~= seq![0x31u8, 0x32]); 12 }
        else { 65535 }
    } else if n == 3 && b[0] == 0x31 {
        let x = b[1];
        let y = b[2];
        if x == 0x30 && y == 0x34 { assert(b@ =~= seq![0x31u8, 0x30, 0x34]); 104 }
        else if x == 0x31 && y == 0x30 { assert(b@ =~= seq![0x31u8, 0x31, 0x30]); 110 }
        else if x == 0x31 && y == 0x31 { assert(b@ =~= seq![0x31u8, 0x31, 0x31]); 111 }
        else if x == 0x31 && y == 0x32 { assert(b@ =~= seq![0x31u8, 0x31, 0x32]); 112 }
        else { 65535 }
    } else if n == 4 && b[0] == 0x31 && b[1] == 0x33 && b[2] == 0x33 && b[3] == 0x37 {
        assert(b@ =~= seq![0x31u8, 0x33, 0x33, 0x37]);
        1337
    } else {
        65535
    }
}

/// The value of a palette index argument: trimmed decimal text (UTF-8).
pub open spec fn index_value(b: Seq<u8>) -> Option<usize> {
    if valid_utf8(b) {
        match parse_bounded(trim(b), 10, usize::MAX as nat) {
            Some(v) => Some(v as usize),
            None => None,
        }
    } else {
        None
    }
}

/// `ps[from..]` joined with `;`.
pub open spec fn joined(ps: Seq<Seq<u8>>) -> Seq<u8>
    decreases ps.len(),
{
    if ps.len() == 0 {
        Seq::empty()
    } else if ps.len() == 1 {
        ps[0]
    } else {
        joined(ps.drop_last()) + seq![0x3bu8] + ps.last()
    }
}

/// A palette index argument: trimmed decimal text.
fn index_arg(b: &Vec<u8>) -> (r: Option<usize>)
    ensures
        r == index_value(b@),
{
    proof { assert(b@.subrange(0, b@.len() as int) =~= b@); }
    let n = b.len();
    if !crate::text::is_utf8(b.as_slice(), 0, n) {
        return None;
    }
    let (lo, hi) = crate::text::trim_range(b.as_slice(), 0, n);
    match crate::text::parse_uint(b.as_slice(), lo, hi, 10, usize::MAX as u64) {
        Some(v) => Some(v as usize),
        None => None,
    }
}

/// `parts[from..]` joined with `;`.
fn join_semi(parts: &[Vec<u8>], from: usize) -> (out: Vec<u8>)
    ensures
        out@ == joined(bytes_view(parts@).subrange(if from < parts@.len() { from as int } else { parts@.len() as int },
            parts@.len() as int)),
{
    let ghost ps = bytes_view(parts@);
    let ghost f: int = if from < parts@.len() { from as int } else { parts@.len() as int };
    let mut out: Vec<u8> = Vec::new();
    let mut i = from;
    proof { assert(ps.subrange(f, f) =~= Seq::<Seq<u8>>::empty()); }
    while i < parts.len()
        invariant
            ps == bytes_view(parts@),
            f == (if from < parts@.len() { from as int } else { parts@.len() as int }),
            i < parts@.len() ==> f == from,
            from <= i,
            i >= parts@.len() ==> out@ == joined(ps.subrange(f, parts@.len() as int)),
            i < parts@.len() ==> out@ == joined(ps.subrange(f, i as int)),
        decreases parts.len() - i,
    {
        let ghost before = out@;
        if i > from {
            out.push(0x3b);
        }
        let p = &parts[i];
        let mut k: usize = 0;
        while k < p.len()
            invariant
                k <= p@.len(),
                out@ == (if i > from { before + seq![0x3bu8] } else { before }) + p@.take(k as int),
            decreases p.len() - k,
        {
            out.push(p[k]);
            k = k + 1;
            assert(out@ =~= (if i > from { before + seq![0x3bu8] } else { before }) + p@.take(k as int));
        }
        proof {
            assert(p@.take(k as int) =~= p@);
            let t = ps.subrange(f, i + 1);
            assert(t.drop_last() =~= ps.subrange(f, i as int));
            assert(t.last() == p@);
            if i == from {
                assert(t =~= seq![p@]);
                assert(out@ =~= p@);
            } else {
                assert(out@ =~= joined(t.drop_last()) + seq![0x3bu8] + t.last());
            }
        }
        i = i + 1;
    }
    out
}

/// The palette color an OSC 4 query reports for index `i`: the override or
/// the xterm default.
pub open spec fn indexed_rgb(pal: Seq<Option<(u8, u8, u8)>>, i: int) -> (u8, u8, u8) {
    match pal[i] {
        Some(c) => c,
        None => palette::xterm_rgb(i as u8),
    }
}

/// A color argument's value; none for one whose `#` digits would cut a
/// character.
pub open spec fn color_value(spec: Seq<u8>) -> Option<(u8, u8, u8)> {
    if palette::color_spec_panics(spec) { None } else { palette::color_spec(spec) }
}

/// An OSC color report `ESC ] code ; rgb:RRRR/GGGG/BBBB ESC \`.
pub open spec fn color_reply(code: Seq<u8>, rgb: (u8, u8, u8)) -> Seq<u8> {
    seq![0x1bu8, 0x5d] + code + seq![0x3bu8] + rgb_report(rgb.0, rgb.1, rgb.2) + seq![0x1bu8, 0x5c]
}

/// The OSC code number of a dynamic color, as text.
pub open spec fn dyn_code(which: DynColor) -> Seq<u8> {
    match which {
        DynColor::Fg => seq![0x31u8, 0x30],
        DynColor::Bg => seq![0x31u8, 0x31],
        DynColor::Cursor => seq![0x31u8, 0x32],
    }
}

/// OSC 4 from pair position `i` on, over palette `pal`, palette version `ver`
/// and host output `out`: each `index ; spec` pair with an index below 256
/// sets the entry to a valid color (bumping the version) or, for `?`,
/// reports the entry's current color; other pairs do nothing.
pub open spec fn osc4_from(pal: Seq<Option<(u8, u8, u8)>>, ver: u32, out: Seq<u8>, ps: Seq<Seq<u8>>, i: int)
    -> (Seq<Option<(u8, u8, u8)>>, u32, Seq<u8>)
    decreases ps.len() - i,
{
    if i < ps.len() && ps.len() - i > 1 {
        let next = match index_value(ps[i]) {
            Some(idx) => if idx < 256 {
                if ps[i + 1] == seq![0x3fu8] {
                    (pal, ver, out + color_reply(seq![0x34u8, 0x3b] + crate::keys::dec(idx as nat), indexed_rgb(pal, idx as int)))
                } else {
                    match color_value(ps[i + 1]) {
                        Some(rgb) => (pal.update(idx as int, Some(rgb)), ver.wrapping_add(1), out),
                        None => (pal, ver, out),
                    }
                }
            } else {
                (pal, ver, out)
            },
            None => (pal, ver, out),
        };
        osc4_from(next.0, next.1, next.2, ps, i + 2)
    } else {
        (pal, ver, out)
    }
}

/// OSC 104's explicit indices from field `k` on reset their palette entries.
pub open spec fn palette_reset_from(pal: Seq<Option<(u8, u8, u8)>>, ps: Seq<Seq<u8>>, k: int) -> Seq<Option<(u8, u8, u8)>>
    decreases ps.len() - k,
{
    if 0 <= k < ps.len() {
        let next = match index_value(ps[k]) {
            Some(idx) => if idx < 256 { pal.update(idx as int, None) } else { pal },
            None => pal,
        };
        palette_reset_from(next, ps, k + 1)
    } else {
        pal
    }
}

impl Terminal {
    /// The current value of a dynamic color: the override or the theme's.
    pub closed spec fn dynamic_rgb(&self, which: DynColor) -> (u8, u8, u8) {
        match which {
            DynColor::Fg => match self.palette_fg { Some(c) => c, None => self.default_fg },
            DynColor::Bg => match self.palette_bg { Some(c) => c, None => self.default_bg },
            DynColor::Cursor => match self.palette_cursor { Some(c) => c, None => self.default_cursor },
        }
    }

    /// `self` with dynamic color `which` overridden by `c` (or reset by `None`).
    pub closed spec fn with_dynamic(&self, which: DynColor, c: Option<(u8, u8, u8)>) -> Terminal {
        match which {
            DynColor::Fg => Terminal { palette_fg: c, ..*self },
            DynColor::Bg => Terminal { palette_bg: c, ..*self },
            DynColor::Cursor => Terminal { palette_cursor: c, ..*self },
        }
    }

    /// Queue an OSC color report `ESC ] <code> ; rgb:RRRR/GGGG/BBBB ESC \`.
    #[verifier::spinoff_prover]
    #[verifier::rlimit(50)]
    fn reply_color(&mut self, code: &[u8], rgb: (u8, u8, u8))
        requires
            old(self).wf(),
        ensures
            final(self).wf(),
            final(self).evolves(old(self)),
            final(self).output@ == old(self).output@ + color_reply(code@, rgb),
            *final(self) == (Terminal { output: final(self).output, ..*old(self) }),
    {
        let (r, g, b) = rgb;
        let mut msg: Vec<u8> = Vec::new();
        msg.push(0x1b);
        msg.push(0x5d);
        let mut i: usize = 0;
        while i < code.len()
            invariant
                i <= code@.len(),
                msg@ == seq![0x1bu8, 0x5d] + code@.take(i as int),
            decreases code.len() - i,
        {
            msg.push(code[i]);
            i = i + 1;
            assert(msg@ =~= seq![0x1bu8, 0x5d] + code@.take(i as int));
        }
        assert(code@.take(i as int) =~= code@);
        msg.push(0x3b);
        msg.push(0x72);
        msg.push(0x67);
        msg.push(0x62);
        msg.push(0x3a);
        let ghost pre = seq![0x1bu8, 0x5d] + code@ + seq![0x3bu8];
        let mut ch: usize = 0;
        while ch < 3
            invariant
                ch <= 3,
                msg@ == pre + (if ch == 0 { seq![0x72u8, 0x67, 0x62, 0x3a] } else {
                    let h = |v: u8| seq![hex_digit(v / 16), hex_digit(v % 16), hex_digit(v / 16), hex_digit(v % 16)];
                    if ch == 1 { seq![0x72u8, 0x67, 0x62, 0x3a] + h(r) }
                    else if ch == 2 { seq![0x72u8, 0x67, 0x62, 0x3a] + h(r) + seq![0x2fu8] + h(g) }
                    else { rgb_report(r, g, b) }
                }),
            decreases 3 - ch,
        {
            let v = if ch == 0 { r } else if ch == 1 { g } else { b };
            if ch > 0 {
                msg.push(0x2f);
            }
            let hi = hex_of(v / 16);
            let lo = hex_of(v % 16);
            msg.push(hi);
            msg.push(lo);
            msg.push(hi);
            msg.push(lo);
            ch = ch + 1;
            assert(msg@ =~= pre + (if ch == 0 { seq![0x72u8, 0x67, 0x62, 0x3a] } else {
                    let h = |v: u8| seq![hex_digit(v / 16), hex_digit(v % 16), hex_digit(v / 16), hex_digit(v % 16)];
                    if ch == 1 { seq![0x72u8, 0x67, 0x62, 0x3a] + h(r) }
                    else if ch == 2 { seq![0x72u8, 0x67, 0x62, 0x3a] + h(r) + seq![0x2fu8] + h(g) }
                    else { rgb_report(r, g, b) }
                }));
        }
        msg.push(0x1b);
        msg.push(0x5c);
        self.reply(msg.as_slice());
        assert(self.output@ =~= old(self).output@ + color_reply(code@, rgb));
    }

    fn current_indexed(&self, i: usize) -> (rgb: (u8, u8, u8))
        requires
            self.wf(),
            i < 256,
        ensures
            rgb == indexed_rgb(self.palette_indexed@, i as int),
    {
        match self.palette_indexed[i] {
            Some(c) => c,
            None => palette::xterm256(i as u8),
        }
    }

    fn current_dynamic(&self, which: DynColor) -> (rgb: (u8, u8, u8))
        ensures
            rgb == self.dynamic_rgb(which),
    {
        match which {
            DynColor::Fg => match self.palette_fg { Some(c) => c, None => self.default_fg },
            DynColor::Bg => match self.palette_bg { Some(c) => c, None => self.default_bg },
            DynColor::Cursor => match self.palette_cursor { Some(c) => c, None => self.default_cursor },
        }
    }

    /// A color spec from a sequence; none for one whose `#` digits can't be
    /// cut on character boundaries.
    fn color_arg(spec: &Vec<u8>) -> (r: Option<(u8, u8, u8)>)
        ensures
            r == color_value(spec@),
    {
        palette::parse_color_spec(spec.as_slice())
    }

    /// OSC 4 ; index ; spec [ ; index ; spec ... ]: set palette colors; a
    /// spec of `?` queries the current value.
    fn osc_palette(&mut self, params: &[Vec<u8>])
        requires
            old(self).wf(),
        ensures
            final(self).wf(),
            final(self).evolves(old(self)),
            final(self).palette_set(old(self), bytes_view(params@)),
    {
        let ghost ps = bytes_view(params@);
        let ghost goal = osc4_from(self.palette_indexed@, self.palette_version, self.output@, ps, 1);
        let n = params.len();
        let mut i: usize = 1;
        proof { old(self).lemma_evolves_refl(); }
        while i < n && n - i > 1
            invariant
                self.wf(),
                self.evolves(old(self)),
                n == params@.len(),
                ps == bytes_view(params@),
                i >= 1,
                *self == (Terminal { palette_indexed: self.palette_indexed, palette_version: self.palette_version,
                    output: self.output, ..*old(self) }),
                osc4_from(self.palette_indexed@, self.palette_version, self.output@, ps, i as int) == goal,
            decreases n - i,
        {
            let ghost s0 = *self;
            assert(ps[i as int] == params@[i as int]@);
            assert(ps[i + 1] == params@[i + 1]@);
            match index_arg(&params[i]) {
                Some(idx) => {
                    let spec = &params[i + 1];
                    if idx < 256 {
                        if spec.len() == 1 && spec[0] == 0x3f {
                            assert(spec@ =~= seq![0x3fu8]);
                            let rgb = self.current_indexed(idx);
                            let mut code: Vec<u8> = Vec::new();
                            code.push(0x34);
                            code.push(0x3b);
                            crate::keys::push_decimal(&mut code, idx as u64);
                            assert(code@ =~= seq![0x34u8, 0x3b] + crate::keys::dec(idx as nat));
                            let ghost s1 = *self;
                            self.reply_color(code.as_slice(), rgb);
                            proof { Terminal::lemma_evolves_trans(old(self), &s1, self); }
                        } else {
                            assert(spec@ != seq![0x3fu8]) by {
                                if spec@ == seq![0x3fu8] {
                                    assert(spec@.len() == 1 && spec@[0] == 0x3f);
                                }
                            }
                            match Terminal::color_arg(spec) {
                                Some(rgb) => {
                                    let ghost s1 = *self;
                                    self.palette_indexed.set(idx, Some(rgb));
                                    self.palette_version = self.palette_version.wrapping_add(1);
                                    proof {
                                        s1.lemma_evolves_refl();
                                        Terminal::lemma_evolves_trans(old(self), &s1, self);
                                    }
                                },
                                None => {},
                            }
                        }
                    }
                },
                None => {},
            }
            i = i + 2;
        }
    }

    /// `self` is `o` after OSC 4 with fields `ps` (the code first): the pairs
    /// take effect in order (see `osc4_from`); nothing else changes.
    pub closed spec fn palette_set(&self, o: &Terminal, ps: Seq<Seq<u8>>) -> bool {
        let r = osc4_from(o.palette_indexed@, o.palette_version, o.output@, ps, 1);
        &&& *self == (Terminal { palette_indexed: self.palette_indexed, palette_version: self.palette_version,
            output: self.output, ..*o })
        &&& self.palette_indexed@ == r.0
        &&& self.palette_version == r.1
        &&& self.output@ == r.2
    }

    /// OSC 10/11/12 ; spec: set the default fg / bg / cursor color; `?` queries.
    fn osc_dynamic_color(&mut self, params: &[Vec<u8>], which: DynColor)
        requires
            old(self).wf(),
        ensures
            final(self).wf(),
            final(self).evolves(old(self)),
            final(self).dynamic_set(old(self), bytes_view(params@), which),
    {
        if params.len() < 2 {
            proof { old(self).lemma_evolves_refl(); }
            return;
        }
        let spec = &params[1];
        assert(bytes_view(params@)[1] == spec@);
        if spec.len() == 1 && spec[0] == 0x3f {
            assert(spec@ =~= seq![0x3fu8]);
            let rgb = self.current_dynamic(which);
            let code: [u8; 2] = match which {
                DynColor::Fg => [0x31, 0x30],
                DynColor::Bg => [0x31, 0x31],
                DynColor::Cursor => [0x31, 0x32],
            };
            assert(code@ =~= dyn_code(which));
            self.reply_color(&code, rgb);
            return;
        }
        assert(spec@ != seq![0x3fu8]) by {
            if spec@ == seq![0x3fu8] {
                assert(spec@.len() == 1 && spec@[0] == 0x3f);
            }
        }
        proof { old(self).lemma_evolves_refl(); }
        match Terminal::color_arg(spec) {
            Some(rgb) => {
                match which {
                    DynColor::Fg => self.palette_fg = Some(rgb),
                    DynColor::Bg => self.palette_bg = Some(rgb),
                    DynColor::Cursor => self.palette_cursor = Some(rgb),
                }
                self.palette_version = self.palette_version.wrapping_add(1);
            },
            None => {},
        }
    }

    /// `self` is `o` after OSC 10 / 11 / 12 with fields `ps`: `?` reports the
    /// current color, a valid color overrides it (bumping the palette
    /// version), anything else (or no argument) changes nothing.
    pub closed spec fn dynamic_set(&self, o: &Terminal, ps: Seq<Seq<u8>>, which: DynColor) -> bool {
        if ps.len() < 2 {
            *self == *o
        } else if ps[1] == seq![0x3fu8] {
            &&& *self == (Terminal { output: self.output, ..*o })
            &&& self.output@ == o.output@ + color_reply(dyn_code(which), o.dynamic_rgb(which))
        } else {
            match color_value(ps[1]) {
                Some(rgb) => *self == (Terminal { palette_version: o.palette_version.wrapping_add(1),
                    ..o.with_dynamic(which, Some(rgb)) }),
                None => *self == *o,
            }
        }
    }

    /// OSC 104 [ ; index ... ]: reset palette entries (all if none given).
    fn osc_reset_palette(&mut self, params: &[Vec<u8>])
        requires
            old(self).wf(),
        ensures
            final(self).wf(),
            final(self).evolves(old(self)),
            final(self).palette_reset(old(self), bytes_view(params@)),
    {
        let ghost s0 = *self;
        let ghost ps = bytes_view(params@);
        if params.len() <= 1 {
            let mut i: usize = 0;
            while i < self.palette_indexed.len()
                invariant
                    *self == (Terminal { palette_indexed: self.palette_indexed, ..s0 }),
                    self.palette_indexed@.len() == 256,
                    forall|j: int| 0 <= j < i ==> self.palette_indexed@[j] is None,
                decreases self.palette_indexed.len() - i,
            {
                self.palette_indexed.set(i, None);
                i = i + 1;
            }
            assert(self.palette_indexed@ =~= Seq::new(256, |j: int| None::<(u8, u8, u8)>));
        } else {
            let mut k: usize = 1;
            while k < params.len()
                invariant
                    *self == (Terminal { palette_indexed: self.palette_indexed, ..s0 }),
                    self.palette_indexed@.len() == 256,
                    ps == bytes_view(params@),
                    k >= 1,
                    palette_reset_from(self.palette_indexed@, ps, k as int) == palette_reset_from(s0.palette_indexed@, ps, 1),
                decreases params.len() - k,
            {
                assert(ps[k as int] == params@[k as int]@);
                match index_arg(&params[k]) {
                    Some(idx) => {
                        if idx < 256 {
                            self.palette_indexed.set(idx, None);
                        }
                    },
                    None => {},
                }
                k = k + 1;
            }
        }
        self.palette_version = self.palette_version.wrapping_add(1);
        proof { old(self).lemma_evolves_refl(); }
    }

    /// `self` is `o` after OSC 104 with fields `ps`: with no index every
    /// palette entry goes back to its default, otherwise each index below 256
    /// does; the palette version is bumped either way.
    pub closed spec fn palette_reset(&self, o: &Terminal, ps: Seq<Seq<u8>>) -> bool {
        &&& *self == (Terminal { palette_indexed: self.palette_indexed,
            palette_version: o.palette_version.wrapping_add(1), ..*o })
        &&& self.palette_indexed@ == (if ps.len() <= 1 {
            Seq::new(256, |j: int| None::<(u8, u8, u8)>)
        } else {
            palette_reset_from(o.palette_indexed@, ps, 1)
        })
    }

    /// `self` is `o` after a complete OSC string with fields `ps`: title (0 /
    /// 1 / 2), hyperlink (8), palette (4, 104), dynamic colors (10-12,
    /// 110-112) and inline images (1337, the fields after the code rejoined
    /// with `;`) take the effects stated here; an unknown code changes
    /// nothing.
    pub closed spec fn osc_effect(&self, o: &Terminal, ps: Seq<Seq<u8>>) -> bool {
        if ps.len() == 0 {
            *self == *o
        } else {
            let c = osc_code_of(ps[0]);
            if c == 0 || c == 1 || c == 2 {
                if ps.len() > 1 {
                    &&& *self == (Terminal { title: self.title, title_dirty: true, ..*o })
                    &&& self.title@ == utf8_lossy(ps[1])
                } else {
                    *self == *o
                }
            } else if c == 8 {
                self.link_set(o, ps)
            } else if c == 4 {
                self.palette_set(o, ps)
            } else if c == 10 {
                self.dynamic_set(o, ps, DynColor::Fg)
            } else if c == 11 {
                self.dynamic_set(o, ps, DynColor::Bg)
            } else if c == 12 {
                self.dynamic_set(o, ps, DynColor::Cursor)
            } else if c == 104 {
                self.palette_reset(o, ps)
            } else if c == 110 {
                *self == (Terminal { palette_version: o.palette_version.wrapping_add(1), ..o.with_dynamic(DynColor::Fg, None) })
            } else if c == 111 {
                *self == (Terminal { palette_version: o.palette_version.wrapping_add(1), ..o.with_dynamic(DynColor::Bg, None) })
            } else if c == 112 {
                *self == (Terminal { palette_version: o.palette_version.wrapping_add(1), ..o.with_dynamic(DynColor::Cursor, None) })
            } else if c == 1337 && ps.len() > 1 {
                self.iterm_placed(o, joined(ps.subrange(1, ps.len() as int)))
            } else {
                *self == *o
            }
        }
    }

    /// OSC 110/111/112: reset the default fg / bg / cursor color to the theme.
    fn osc_reset_dynamic(&mut self, which: DynColor)
        requires
            old(self).wf(),
        ensures
            final(self).wf(),
            final(self).evolves(old(self)),
            *final(self) == (Terminal { palette_version: old(self).palette_version.wrapping_add(1),
                ..old(self).with_dynamic(which, None) }),
    {
        match which {
            DynColor::Fg => self.palette_fg = None,
            DynColor::Bg => self.palette_bg = None,
            DynColor::Cursor => self.palette_cursor = None,
        }
        self.palette_version = self.palette_version.wrapping_add(1);
        proof { old(self).lemma_evolves_refl(); }
    }

    /// OSC 8 ; params ; URI: set or clear the current hyperlink. The URI may
    /// itself contain `;`, so everything after the second field is rejoined.
    fn osc_hyperlink(&mut self, params: &[Vec<u8>])
        requires
            old(self).wf(),
        ensures
            final(self).wf(),
            final(self).evolves(old(self)),
            final(self).link_set(old(self), bytes_view(params@)),
    {
        proof { old(self).lemma_evolves_refl(); }
        let joined = if params.len() >= 3 { join_semi(params, 2) } else { Vec::new() };
        let uri = lossy_string(joined.as_slice());
        if uri.as_str().is_empty() {
            self.cur_link = 0;
            return;
        }
        // Dedup identical consecutive URIs to bound link growth.
        let n = self.links.len();
        if n > 0 && self.links[n - 1] == uri {
            self.cur_link = n as u32;
            return;
        }
        let ghost before = self.link_texts();
        self.links.push(uri);
        assert(self.link_texts() =~= before.push(uri@));
        self.cur_link = self.links.len() as u32;
    }

    /// The texts of the registered hyperlink URIs (link id `i + 1` is entry `i`).
    pub closed spec fn link_texts(&self) -> Seq<Seq<char>> {
        self.links@.map_values(|u: String| u@)
    }

    /// `self` is `o` after OSC 8 with fields `ps`: the URI (fields from the
    /// third on, rejoined with `;`, decoded lossily) becomes the current link;
    /// an empty URI ends the link, one equal to the newest registered URI
    /// reuses its id, any other is registered under the next id.
    pub closed spec fn link_set(&self, o: &Terminal, ps: Seq<Seq<u8>>) -> bool {
        let uri = utf8_lossy(if ps.len() >= 3 { joined(ps.subrange(2, ps.len() as int)) } else { Seq::empty() });
        let n = o.links@.len();
        if uri.len() == 0 {
            *self == (Terminal { cur_link: 0, ..*o })
        } else if n > 0 && o.link_texts()[n - 1] == uri {
            *self == (Terminal { cur_link: n as u32, ..*o })
        } else {
            &&& *self == (Terminal { links: self.links, cur_link: (n + 1) as u32, ..*o })
            &&& self.link_texts() == o.link_texts().push(uri)
        }
    }

    /// Handle a completed OSC string.
    #[verifier::spinoff_prover]
    #[verifier::rlimit(50)]
    fn osc(&mut self, params: &[Vec<u8>], bell: bool)
        requires
            old(self).wf(),
        ensures
            final(self).wf(),
            final(self).evolves(old(self)),
            final(self).osc_effect(old(self), bytes_view(params@)),
    {
        if params.len() == 0 {
            proof { old(self).lemma_evolves_refl(); }
            return;
        }
        let code = &params[0];
        assert(bytes_view(params@)[0] == code@);
        assert(params@.len() > 1 ==> bytes_view(params@)[1] == params@[1]@);
        let c = osc_code(code);
        if c == 0 || c == 1 || c == 2 {
            if params.len() > 1 {
                self.title = lossy_string(params[1].as_slice());
                self.title_dirty = true;
            }
            proof { old(self).lemma_evolves_refl(); }
        } else if c == 8 {
            self.osc_hyperlink(params);
        } else if c == 4 {
            self.osc_palette(params);
        } else if c == 10 {
            self.osc_dynamic_color(params, DynColor::Fg);
        } else if c == 11 {
            self.osc_dynamic_color(params, DynColor::Bg);
        } else if c == 12 {
            self.osc_dynamic_color(params, DynColor::Cursor);
        } else if c == 104 {
            self.osc_reset_palette(params);
        } else if c == 110 {
            self.osc_reset_dynamic(DynColor::Fg);
        } else if c == 111 {
            self.osc_reset_dynamic(DynColor::Bg);
        } else if c == 112 {
            self.osc_reset_dynamic(DynColor::Cursor);
        } else if c == 1337 && params.len() > 1 {
            // The `File=` arguments and the base64 use `;` internally: rejoin
            // everything after the code and hand the raw body on.
            let body = join_semi(params, 1);
            self.osc_iterm_image(body.as_slice());
        } else {
            proof { old(self).lemma_evolves_refl(); }
        }
    }
}

/// `a * b`, saturating at `usize::MAX`.
pub open spec fn sat_product(a: int, b: int) -> int {
    if a * b > usize::MAX { usize::MAX as int } else { a * b }
}

/// `a * b`, saturating at `usize::MAX`.
fn sat_mul(a: usize, b: usize) -> (r: usize)
    ensures
        r == sat_product(a as int, b as int),
{
    match a.checked_mul(b) {
        Some(v) => v,
        None => usize::MAX,
    }
}

/// `ceil(a / b)` for `b > 0`.
pub open spec fn ceil_div(a: int, b: int) -> int {
    a / b + (if a % b != 0 { 1int } else { 0 })
}

fn div_ceil(a: usize, b: usize) -> (r: usize)
    requires
        b > 0,
    ensures
        r == ceil_div(a as int, b as int),
{
    if a % b != 0 {
        assert(a / b < usize::MAX) by (nonlinear_arith)
            requires
                b > 0,
                a % b != 0,
                a <= usize::MAX,
        {
            assert(b >= 2);
        }
    }
    a / b + (if a % b != 0 { 1 } else { 0 })
}

/// Index of the first image with id `id`.
pub open spec fn image_index(s: Seq<ImageRec>, id: u32) -> Option<int> {
    if exists|i: int| 0 <= i < s.len() && s[i].id == id {
        Some(choose|i: int| 0 <= i < s.len() && s[i].id == id && forall|j: int| 0 <= j < i ==> s[j].id != id)
    } else {
        None
    }
}

fn find_image(images: &Vec<ImageRec>, id: u32) -> (r: Option<usize>)
    ensures
        r matches Some(i) ==> i < images@.len(),
        r matches Some(i) ==> image_index(images@, id) == Some(i as int),
        r is None ==> image_index(images@, id) is None,
{
    let mut i: usize = 0;
    while i < images.len()
        invariant
            i <= images@.len(),
            forall|j: int| 0 <= j < i ==> images@[j].id != id,
        decreases images.len() - i,
    {
        if images[i].id == id {
            proof {
                let w = choose|k: int| 0 <= k < images@.len() && images@[k].id == id && forall|j: int| 0 <= j < k ==> images@[j].id != id;
                assert(0 <= i < images@.len() && images@[i as int].id == id && forall|j: int| 0 <= j < i ==> images@[j].id != id);
                if w < i {
                    assert(images@[w].id != id);
                } else if w > i {
                    assert(images@[i as int].id != id);
                }
            }
            return Some(i);
        }
        i = i + 1;
    }
    None
}

fn copy_bytes_of(v: &Vec<u8>) -> (out: Vec<u8>)
    ensures
        out@ == v@,
{
    let mut out: Vec<u8> = Vec::with_capacity(v.len());
    let mut i: usize = 0;
    while i < v.len()
        invariant
            i <= v@.len(),
            out@ == v@.take(i as int),
        decreases v.len() - i,
    {
        out.push(v[i]);
        i = i + 1;
        assert(out@ =~= v@.take(i as int));
    }
    assert(v@.take(i as int) =~= v@);
    out
}

impl Terminal {
    /// Counter bumped whenever the image set changes; the front-end re-syncs
    /// its texture cache when it differs.
    pub fn images_version(&self) -> (v: u32)
        ensures
            v == self.spec_images_version(),
    {
        self.images_version
    }

    /// Live image ids, in draw order (oldest first).
    pub fn image_ids(&self) -> (ids: Vec<u32>)
        ensures
            ids@ == self.spec_images().map_values(|im: ImageRec| im.id),
    {
        let mut ids: Vec<u32> = Vec::new();
        let mut i: usize = 0;
        while i < self.images.len()
            invariant
                i <= self.images@.len(),
                ids@ == self.images@.take(i as int).map_values(|im: ImageRec| im.id),
            decreases self.images.len() - i,
        {
            ids.push(self.images[i].id);
            i = i + 1;
            assert(ids@ =~= self.images@.take(i as int).map_values(|im: ImageRec| im.id));
        }
        assert(self.images@.take(i as int) =~= self.images@);
        ids
    }

    /// RGBA bytes of image `id` (`width*height*4`), or empty if gone.
    pub fn image_rgba(&self, id: u32) -> (v: Vec<u8>)
        ensures
            v@ == match image_index(self.spec_images(), id) {
                Some(i) => self.spec_images()[i].rgba@,
                None => Seq::<u8>::empty(),
            },
    {
        match find_image(&self.images, id) {
            Some(i) => copy_bytes_of(&self.images[i].rgba),
            None => Vec::new(),
        }
    }

    /// Raw encoded image-file bytes of image `id` (iTerm2 / Kitty PNG), or
    /// empty for an RGBA image or a missing id.
    pub fn image_encoded(&self, id: u32) -> (v: Vec<u8>)
        ensures
            v@ == match image_index(self.spec_images(), id) {
                Some(i) => self.spec_images()[i].encoded@,
                None => Seq::<u8>::empty(),
            },
    {
        match find_image(&self.images, id) {
            Some(i) => copy_bytes_of(&self.images[i].encoded),
            None => Vec::new(),
        }
    }

    /// MIME hint for image `id`'s encoded bytes, or empty for the RGBA path
    /// and for a missing id.
    pub fn image_mime(&self, id: u32) -> (m: String)
        ensures
            m@ == match image_index(self.spec_images(), id) {
                Some(i) => mime_text(self.spec_images()[i].mime),
                None => Seq::<char>::empty(),
            },
    {
        match find_image(&self.images, id) {
            Some(i) => match self.images[i].mime {
                Mime::Rgba => String::new(),
                Mime::Known(f) => f.mime().to_owned(),
                Mime::OctetStream => "application/octet-stream".to_owned(),
            },
            None => String::new(),
        }
    }

    /// `[width, height]` in pixels of image `id`, or `[0, 0]`.
    pub fn image_size(&self, id: u32) -> (v: Vec<u32>)
        ensures
            v@ == match image_index(self.spec_images(), id) {
                Some(i) => seq![self.spec_images()[i].width as u32, self.spec_images()[i].height as u32],
                None => seq![0u32, 0u32],
            },
    {
        let mut v: Vec<u32> = Vec::new();
        match find_image(&self.images, id) {
            Some(i) => {
                v.push(self.images[i].width as u32);
                v.push(self.images[i].height as u32);
            },
            None => {
                v.push(0);
                v.push(0);
            },
        }
        assert(v@ =~= match image_index(self.spec_images(), id) {
                Some(i) => seq![self.spec_images()[i].width as u32, self.spec_images()[i].height as u32],
                None => seq![0u32, 0u32],
            });
        v
    }

    /// Placement of every live image relative to the visible viewport, flat
    /// `[id, viewport_row, col, width_px, height_px] ...`; `viewport_row` is
    /// the cell row of the image's top edge (may be negative / off-screen).
    /// Images belong to the primary screen: none while the alternate screen
    /// is active.
    pub fn image_placements(&self) -> (v: Vec<i32>)
        ensures
            v@ == if self.spec_alt_active() { Seq::<i32>::empty() } else {
                placements(self.spec_images(), self.spec_scrolled_off().wrapping_sub(self.spec_display_offset() as i64))
            },
    {
        if self.alt_active {
            return Vec::new();
        }
        let top = self.scrolled_off.wrapping_sub(self.display_offset as i64);
        let mut out: Vec<i32> = Vec::new();
        let mut i: usize = 0;
        while i < self.images.len()
            invariant
                i <= self.images@.len(),
                out@ == placements(self.images@.take(i as int), top),
            decreases self.images.len() - i,
        {
            let im = &self.images[i];
            out.push(im.id as i32);
            out.push(im.serial.wrapping_sub(top) as i32);
            out.push(im.col as i32);
            out.push(im.width as i32);
            out.push(im.height as i32);
            i = i + 1;
            proof {
                let t = self.images@.take(i as int);
                assert(t.drop_last() =~= self.images@.take(i - 1));
            }
            assert(out@ =~= placements(self.images@.take(i as int), top));
        }
        assert(self.images@.take(i as int) =~= self.images@);
        out
    }

    // --- placing images ---------------------------------------------------------

    /// Add a placed image (bounded to the newest 256) and bump the version.
    fn push_image(&mut self, rec: ImageRec)
        requires
            old(self).wf(),
        ensures
            final(self).wf(),
            final(self).evolves(old(self)),
            final(self).image_pushed(old(self), rec),
    {
        self.images.push(rec);
        self.images_version = self.images_version.wrapping_add(1);
        if self.images.len() > MAX_IMAGES {
            self.images.remove(0);
        }
        proof { old(self).lemma_evolves_refl(); }
    }

    /// `self` is `o` with `rec` appended to the images (the oldest dropped
    /// beyond the cap) and the image version bumped.
    pub closed spec fn image_pushed(&self, o: &Terminal, rec: ImageRec) -> bool {
        let all = o.images@.push(rec);
        &&& *self == (Terminal { images: self.images, images_version: o.images_version.wrapping_add(1), ..*o })
        &&& self.images@ == (if all.len() > MAX_IMAGES { all.drop_first() } else { all })
    }

    /// The image id after `id` (ids wrap around, skipping 0).
    pub open spec fn next_id(id: u32) -> u32 {
        if id.wrapping_add(1) > 1 { id.wrapping_add(1) } else { 1 }
    }

    /// A fresh image id (never 0).
    fn take_image_id(&mut self) -> (id: u32)
        requires
            old(self).wf(),
        ensures
            final(self).wf(),
            final(self).evolves(old(self)),
            id == old(self).next_image_id,
            *final(self) == (Terminal { next_image_id: Terminal::next_id(old(self).next_image_id), ..*old(self) }),
    {
        let id = self.next_image_id;
        let next = self.next_image_id.wrapping_add(1);
        self.next_image_id = if next > 1 { next } else { 1 };
        proof { old(self).lemma_evolves_refl(); }
        id
    }

    /// Absolute line serial of the cursor's row.
    fn cursor_serial(&self) -> (r: i64)
        ensures
            r == self.scrolled_off.wrapping_add(self.screen.cursor.y as i64),
    {
        self.scrolled_off.wrapping_add(self.screen.cursor.y as i64)
    }

    /// Move the cursor to the start of the line `rows_cells` below its
    /// current row, scrolling as needed, so text resumes under an image.
    fn advance_below(&mut self, rows_cells: usize)
        requires
            old(self).wf(),
        ensures
            final(self).wf(),
            final(self).evolves(old(self)),
            final(self).advanced_below(old(self), rows_cells as nat),
    {
        let mut k: usize = 0;
        let ghost mut tr: Seq<Terminal> = seq![*self];
        proof { old(self).lemma_evolves_refl(); }
        while k < rows_cells
            invariant
                self.wf(),
                self.evolves(old(self)),
                k <= rows_cells,
                tr.len() == k + 1,
                tr[0] == *old(self),
                tr.last() == *self,
                forall|i: int| 0 <= i < k ==> #[trigger] tr[i + 1].line_fed(&tr[i]),
            decreases rows_cells - k,
        {
            let ghost s1 = *self;
            self.linefeed();
            proof {
                Terminal::lemma_evolves_trans(old(self), &s1, self);
                let tr2 = tr.push(*self);
                assert forall|i: int| 0 <= i < k + 1 implies #[trigger] tr2[i + 1].line_fed(&tr2[i]) by {
                    if i < k {
                        assert(tr2[i + 1] == tr[i + 1] && tr2[i] == tr[i]);
                    }
                }
                tr = tr2;
            }
            k = k + 1;
        }
        let ghost s2 = *self;
        self.carriage_return();
        proof {
            Terminal::lemma_evolves_trans(old(self), &s2, self);
            assert(line_trace(tr, rows_cells as nat));
        }
    }

    /// `self` is `o` after `k` line feeds and a carriage return.
    pub closed spec fn advanced_below(&self, o: &Terminal, k: nat) -> bool {
        exists|tr: Seq<Terminal>| #[trigger] line_trace(tr, k) && tr[0] == *o
            && *self == tr.last().with_cursor(Cursor { x: 0, y: tr.last().screen.cursor.y, pending_wrap: false })
    }

    /// `self` is `o` after Sixel image `w` x `h` (pixels `rgba`) was anchored
    /// at the cursor: a record with the next image id, the cursor's absolute
    /// row and column, the size, its height in cells (at least one) and the
    /// pixels is appended (`image_pushed`), and the cursor moves to the start
    /// of the line below the image.
    pub closed spec fn sixel_placed(&self, o: &Terminal, w: nat, h: nat, rgba: Seq<u8>) -> bool {
        let rows_cells = if ceil_div(h as int, o.cell_px_h as int) > 1 { ceil_div(h as int, o.cell_px_h as int) } else { 1 };
        exists|m: Terminal, rec: ImageRec| {
            &&& #[trigger] m.image_pushed(&Terminal { next_image_id: Terminal::next_id(o.next_image_id), ..*o }, rec)
            &&& rec.id == o.next_image_id
            &&& rec.serial == o.scrolled_off.wrapping_add(o.screen.cursor.y as i64)
            &&& rec.col == o.screen.cursor.x
            &&& rec.width == w && rec.height == h
            &&& rec.rows_cells == rows_cells
            &&& rec.rgba@ == rgba
            &&& rec.encoded@.len() == 0
            &&& rec.mime == Mime::Rgba
            &&& !rec.from_kitty && rec.kitty_id == 0
            &&& self.advanced_below(&m, rows_cells as nat)
        }
    }

    /// Anchor a decoded Sixel image at the cursor (drawn 1:1) and move the
    /// cursor below it.
    fn place_sixel(&mut self, img: crate::sixel::SixelImage)
        requires
            old(self).wf(),
        ensures
            final(self).wf(),
            final(self).evolves(old(self)),
            final(self).sixel_placed(old(self), img.width as nat, img.height as nat, img.rgba@),
    {
        let h = div_ceil(img.height, self.cell_px_h);
        let rows_cells = if h > 1 { h } else { 1 };
        let col = self.screen.cursor.x;
        let serial = self.cursor_serial();
        let id = self.take_image_id();
        let ghost s1 = *self;
        self.push_image(ImageRec {
            id,
            serial,
            col,
            width: img.width,
            height: img.height,
            rows_cells,
            rgba: img.rgba,
            encoded: Vec::new(),
            mime: Mime::Rgba,
            from_kitty: false,
            kitty_id: 0,
        });
        let ghost s2 = *self;
        self.advance_below(rows_cells);
        proof {
            Terminal::lemma_evolves_trans(old(self), &s1, &s2);
            Terminal::lemma_evolves_trans(old(self), &s2, self);
            let rec = s2.images@.last();
            assert(s2.image_pushed(&s1, rec));
        }
    }

    /// One iTerm2 width/height request in pixels, or `None` for `auto` (the
    /// caller derives it). `cell_px` is the cell size on that axis, `axis_px`
    /// the terminal's extent on it (for percentages).
    fn dim_to_px(dim: crate::img::Dim, cell_px: usize, axis_px: usize) -> (r: Option<usize>)
        ensures
            r == dim_px(dim, cell_px as int, axis_px as int),
    {
        match dim {
            crate::img::Dim::Auto => None,
            crate::img::Dim::Cells(n) => Some(sat_mul((n as usize), if cell_px > 1 { cell_px } else { 1 })),
            crate::img::Dim::Pixels(px) => Some(px as usize),
            crate::img::Dim::Percent(p) => Some(sat_mul(axis_px, p as usize) / 100),
        }
    }

    /// The box of an iTerm2 image with arguments `args` and native size
    /// `nw` x `nh`: requested sizes in pixels (cells, pixels or a percentage
    /// of the screen), a missing side following the aspect ratio (when kept)
    /// or the native size; a readable default box when a side is still 0;
    /// then whole cells, at least one, no wider than the screen. The result
    /// is the width and height in pixels and the height in cells.
    pub closed spec fn iterm_box(&self, args: (crate::img::Dim, crate::img::Dim, bool), nw: int, nh: int) -> (usize, usize, usize) {
        let cols = self.screen.cols as int;
        let rows = self.screen.rows as int;
        let cpw = self.cell_px_w as int;
        let cph = self.cell_px_h as int;
        let px_w = dim_px(args.0, cpw, sat_product(cols, cpw));
        let px_h = dim_px(args.1, cph, sat_product(rows, cph));
        let t: (int, int) = match (px_w, px_h) {
            (Some(w), Some(h)) => (w as int, h as int),
            (Some(w), None) => if args.2 { (w as int, aspect_of(w as int, nh, nw) as int) } else { (w as int, nh) },
            (None, Some(h)) => if args.2 { (aspect_of(h as int, nw, nh) as int, h as int) } else { (nw, h as int) },
            (None, None) => (nw, nh),
        };
        let dw = sat_product(cols, cpw) / 2;
        let dh = sat_product(rows, cph) / 3;
        let tw = if t.0 == 0 || t.1 == 0 { if dw > cpw { dw } else { cpw } } else { t.0 };
        let th = if t.0 == 0 || t.1 == 0 { if dh > cph { dh } else { cph } } else { t.1 };
        let cw = ceil_div(tw, cpw);
        let cols_cells = if cw < 1 { 1 } else if cw > cols { cols } else { cw };
        let rh = ceil_div(th, cph);
        let rows_cells = if rh > 1 { rh } else { 1 };
        (sat_product(cols_cells, cpw) as usize, sat_product(rows_cells, cph) as usize, rows_cells as usize)
    }

    /// `self` is `o` after an iTerm2 inline-image body `body`: a body that is
    /// not `File=<args>:<base64>` with non-empty decoded bytes changes
    /// nothing; otherwise an image record holding the decoded bytes (with the
    /// next image id, the cursor's absolute row and column, the detected
    /// MIME type and the box `iterm_box` gives) is appended (`image_pushed`)
    /// and the cursor moves to the line below it.
    pub closed spec fn iterm_placed(&self, o: &Terminal, body: Seq<u8>) -> bool {
        match iterm_bytes(body) {
            None => *self == *o,
            Some(bytes) => exists|m: Terminal, rec: ImageRec| {
                &&& #[trigger] m.image_pushed(&Terminal { next_image_id: Terminal::next_id(o.next_image_id), ..*o }, rec)
                &&& rec.id == o.next_image_id
                &&& rec.serial == o.scrolled_off.wrapping_add(o.screen.cursor.y as i64)
                &&& rec.col == o.screen.cursor.x
                &&& ({
                    let args = iterm_args_of(split_on(body.subrange(5, colon_from(body, 5)), 0x3b));
                    let d = match crate::img::dims_of(bytes) { Some(d) => d, None => (0u32, 0u32) };
                    let bx = o.iterm_box(args, d.0 as int, d.1 as int);
                    rec.width == bx.0 && rec.height == bx.1 && rec.rows_cells == bx.2
                })
                &&& rec.rgba@.len() == 0
                &&& rec.encoded@ == bytes
                &&& rec.mime == (match crate::img::format_of(bytes) { Some(f) => Mime::Known(f), None => Mime::OctetStream })
                &&& !rec.from_kitty && rec.kitty_id == 0
                &&& self.advanced_below(&m, rec.rows_cells as nat)
            },
        }
    }

    /// Handle an iTerm2 inline image: `OSC 1337 ; File=<args> : <base64>`.
    /// `body` is everything after the `1337;` code. The image bytes are
    /// decoded and stored; the front-end decodes the pixels.
    #[verifier::spinoff_prover]
    #[verifier::rlimit(50)]
    fn osc_iterm_image(&mut self, body: &[u8])
        requires
            old(self).wf(),
        ensures
            final(self).wf(),
            final(self).evolves(old(self)),
            final(self).iterm_placed(old(self), body@),
    {
        proof { old(self).lemma_evolves_refl(); }
        let n = body.len();
        // Must start with the `File=` sub-command.
        let file: [u8; 5] = [0x46u8, 0x69, 0x6c, 0x65, 0x3d];
        assert(file@ =~= seq![0x46u8, 0x69, 0x6c, 0x65, 0x3d]);
        if n < 5 || !crate::text::eq_bytes(body, 0, 5, &file) {
            return;
        }
        // The key=value args end at the first ':'; the base64 follows.
        let mut colon: usize = 5;
        while colon < n && body[colon] != 0x3a
            invariant
                5 <= colon <= n == body@.len(),
                colon_from(body@, 5) == colon_from(body@, colon as int),
            decreases n - colon,
        {
            colon = colon + 1;
        }
        if colon >= n {
            return;
        }
        let bytes = match crate::img::decode_base64(&crate::kitty::copy_range(body, colon + 1, n)) {
            Some(b) => b,
            None => return,
        };
        if bytes.len() == 0 {
            return;
        }
        assert(iterm_bytes(body@) == Some(bytes@));
        let (w_arg, h_arg, preserve) = iterm_args(body, 5, colon);
        let mime = match crate::img::detect_format(bytes.as_slice()) {
            Some(f) => Mime::Known(f),
            None => Mime::OctetStream,
        };
        let (nw, nh) = match crate::img::sniff_dimensions(bytes.as_slice()) {
            Some(d) => d,
            None => (0, 0),
        };
        let cols = self.screen.cols;
        let rows = self.screen.rows;
        let cpw = self.cell_px_w;
        let cph = self.cell_px_h;
        let px_w = Terminal::dim_to_px(w_arg, cpw, sat_mul(cols, cpw));
        let px_h = Terminal::dim_to_px(h_arg, cph, sat_mul(rows, cph));
        let (mut tw, mut th) = match (px_w, px_h) {
            (Some(w), Some(h)) => (w, h),
            (Some(w), None) => if preserve { (w, aspect(w, nh, nw)) } else { (w, nh as usize) },
            (None, Some(h)) => if preserve { (aspect(h, nw, nh), h) } else { (nw as usize, h) },
            (None, None) => (nw as usize, nh as usize),
        };
        // An unsniffable size gets a readable default box.
        if tw == 0 || th == 0 {
            let dw = sat_mul(cols, cpw) / 2;
            let dh = sat_mul(rows, cph) / 3;
            tw = if dw > cpw { dw } else { cpw };
            th = if dh > cph { dh } else { cph };
        }
        let cw = div_ceil(tw, cpw);
        let cols_cells = if cw < 1 { 1 } else if cw > cols { cols } else { cw };
        let rh = div_ceil(th, cph);
        let rows_cells = if rh > 1 { rh } else { 1 };
        let width = sat_mul(cols_cells, cpw);
        let height = sat_mul(rows_cells, cph);
        let col = self.screen.cursor.x;
        let serial = self.cursor_serial();
        let id = self.take_image_id();
        let ghost s1 = *self;
        self.push_image(ImageRec {
            id,
            serial,
            col,
            width,
            height,
            rows_cells,
            rgba: Vec::new(),
            encoded: bytes,
            mime,
            from_kitty: false,
            kitty_id: 0,
        });
        let ghost s2 = *self;
        self.advance_below(rows_cells);
        proof {
            Terminal::lemma_evolves_trans(old(self), &s1, &s2);
            Terminal::lemma_evolves_trans(old(self), &s2, self);
            let rec = s2.images@.last();
            assert(s2.image_pushed(&s1, rec));
        }
    }
}

/// `from * num / den` (the image's native aspect ratio), or `from` when the
/// ratio is unknown.
fn aspect(from: usize, num: u32, den: u32) -> (r: usize)
    ensures
        r == aspect_of(from as int, num as int, den as int),
{
    if den > 0 {
        let f = from as u128;
        let m = num as u128;
        assert(f * m < 0x1_0000_0000_0000_0000_0000_0000) by (nonlinear_arith)
            requires
                f < 0x1_0000_0000_0000_0000,
                m < 0x1_0000_0000,
        ;
        ((f * m / den as u128) as u64) as usize
    } else {
        from
    }
}

/// The `;`-separated `key=value` arguments of an iTerm2 `File=` command in
/// `b[lo..hi]`: width, height and whether to preserve the aspect ratio.
fn iterm_args(b: &[u8], lo: usize, hi: usize) -> (r: (crate::img::Dim, crate::img::Dim, bool))
    requires
        lo <= hi <= b@.len(),
    ensures
        r == iterm_args_of(split_on(b@.subrange(lo as int, hi as int), 0x3b)),
{
    let ghost segs = split_on(b@.subrange(lo as int, hi as int), 0x3b);
    let wword: [u8; 5] = [0x77u8, 0x69, 0x64, 0x74, 0x68];
    let hword: [u8; 6] = [0x68u8, 0x65, 0x69, 0x67, 0x68, 0x74];
    let pword: [u8; 19] = [0x70u8, 0x72, 0x65, 0x73, 0x65, 0x72, 0x76, 0x65, 0x61, 0x73, 0x70, 0x65, 0x63, 0x74, 0x72, 0x61,
        0x74, 0x69, 0x6f];
    assert(wword@ =~= width_word());
    assert(hword@ =~= height_word());
    assert(pword@ =~= preserve_word());
    let mut w = crate::img::Dim::Auto;
    let mut h = crate::img::Dim::Auto;
    let mut preserve = true;
    let parts = crate::text::split_indices(b, lo, hi, 0x3b);
    let mut k: usize = 0;
    proof { assert(segs.take(0) =~= Seq::<Seq<u8>>::empty()); }
    while k < parts.len()
        invariant
            forall|j: int| 0 <= j < parts@.len() ==> lo <= (#[trigger] parts@[j]).0 <= parts@[j].1 <= hi,
            forall|j: int| 0 <= j < parts@.len() ==> b@.subrange((#[trigger] parts@[j]).0 as int, parts@[j].1 as int) == segs[j],
            parts@.len() == segs.len(),
            lo <= hi <= b@.len(),
            k <= parts@.len(),
            wword@ == width_word(),
            hword@ == height_word(),
            pword@ == preserve_word(),
            (w, h, preserve) == iterm_args_of(segs.take(k as int)),
        decreases parts.len() - k,
    {
        let (a, z) = parts[k];
        let ghost seg = segs[k as int];
        let ghost prev = (w, h, preserve);
        proof {
            assert(segs.take(k as int + 1).drop_last() =~= segs.take(k as int));
            assert(segs.take(k as int + 1).last() == seg);
            assert(b@.subrange(a as int, z as int) == seg);
        }
        k = k + 1;
        if !crate::text::is_utf8(b, a, z) {
            continue;
        }
        let mut e: usize = a;
        while e < z && b[e] != 0x3d
            invariant
                a <= e <= z,
                z <= b@.len(),
                b@.subrange(a as int, z as int) == seg,
                eq_from(seg, 0) == eq_from(seg, e - a),
            decreases z - e,
        {
            assert(seg[e - a] == b@[e as int]);
            e = e + 1;
        }
        proof {
            if e < z {
                assert(seg[e - a] == b@[e as int]);
            }
        }
        if e >= z {
            continue;
        }
        let (ka, kz) = crate::text::trim_range(b, a, e);
        proof {
            assert(b@.subrange(a as int, e as int) =~= seg.subrange(0, e - a));
            assert(b@.subrange(e + 1, z as int) =~= seg.subrange(e - a + 1, seg.len() as int));
        }
        if crate::text::eq_ignore_case(b, ka, kz, &wword) {
            w = crate::img::parse_dim(b, e + 1, z);
        } else if crate::text::eq_ignore_case(b, ka, kz, &hword) {
            h = crate::img::parse_dim(b, e + 1, z);
        } else if crate::text::eq_ignore_case(b, ka, kz, &pword) {
            let (va, vz) = crate::text::trim_range(b, e + 1, z);
            preserve = !(vz - va == 1 && b[va] == 0x30);
            proof {
                let t = b@.subrange(va as int, vz as int);
                if vz - va == 1 && b[va as int] == 0x30 {
                    assert(t =~= seq![0x30u8]);
                }
            }
        }
    }
    proof { assert(segs.take(parts@.len() as int) =~= segs); }
    (w, h, preserve)
}

/// `from` scaled by `num / den` (truncated to 64 bits), or `from` when
/// `den` is 0.
pub open spec fn aspect_of(from: int, num: int, den: int) -> usize {
    if den > 0 { ((from * num / den) as u64) as usize } else { from as usize }
}

/// An iTerm2 dimension in pixels for cells of `cell_px` on an axis of
/// `axis_px`; none for `auto`.
pub open spec fn dim_px(d: crate::img::Dim, cell_px: int, axis_px: int) -> Option<usize> {
    match d {
        crate::img::Dim::Auto => None,
        crate::img::Dim::Cells(n) => Some(sat_product(n as int, if cell_px > 1 { cell_px } else { 1 }) as usize),
        crate::img::Dim::Pixels(px) => Some(px as usize),
        crate::img::Dim::Percent(p) => Some((sat_product(axis_px, p as int) / 100) as usize),
    }
}

/// `width`, `height` and `preserveAspectRatio`, the iTerm2 argument keys.
pub open spec fn width_word() -> Seq<u8> {
    seq![0x77u8, 0x69, 0x64, 0x74, 0x68]
}

pub open spec fn height_word() -> Seq<u8> {
    seq![0x68u8, 0x65, 0x69, 0x67, 0x68, 0x74]
}

pub open spec fn preserve_word() -> Seq<u8> {
    seq![0x70u8, 0x72, 0x65, 0x73, 0x65, 0x72, 0x76, 0x65, 0x61, 0x73, 0x70, 0x65, 0x63, 0x74, 0x72, 0x61, 0x74, 0x69, 0x6f]
}

/// The position of the first `=` in `s` at or after `i` (`s.len()` if none).
pub open spec fn eq_from(s: Seq<u8>, i: int) -> int
    decreases s.len() - i,
{
    if i >= s.len() { s.len() as int } else if s[i] == 0x3d { i } else { eq_from(s, i + 1) }
}

/// Both sides lowered, `key` names `word`.
pub open spec fn key_is(key: Seq<u8>, word: Seq<u8>) -> bool {
    trim(key).map_values(|c: u8| crate::text::ascii_lower(c)) == word.map_values(|c: u8| crate::text::ascii_lower(c))
}

/// One `key=value` argument applied to the width, height and aspect flag so
/// far: `width` and `height` take a dimension, `preserveAspectRatio` is on
/// unless the value is `0`; other keys, values that are not UTF-8 and
/// arguments without `=` are skipped.
pub open spec fn iterm_arg(acc: (crate::img::Dim, crate::img::Dim, bool), seg: Seq<u8>) -> (crate::img::Dim, crate::img::Dim, bool) {
    let e = eq_from(seg, 0);
    if !valid_utf8(seg) || e >= seg.len() {
        acc
    } else {
        let key = seg.subrange(0, e);
        let val = seg.subrange(e + 1, seg.len() as int);
        if key_is(key, width_word()) {
            (crate::img::dim_of(val), acc.1, acc.2)
        } else if key_is(key, height_word()) {
            (acc.0, crate::img::dim_of(val), acc.2)
        } else if key_is(key, preserve_word()) {
            (acc.0, acc.1, trim(val) != seq![0x30u8])
        } else {
            acc
        }
    }
}

/// The iTerm2 arguments `segs` applied in order (width and height `auto`,
/// aspect kept, to begin with).
pub open spec fn iterm_args_of(segs: Seq<Seq<u8>>) -> (crate::img::Dim, crate::img::Dim, bool)
    decreases segs.len(),
{
    if segs.len() == 0 {
        (crate::img::Dim::Auto, crate::img::Dim::Auto, true)
    } else {
        iterm_arg(iterm_args_of(segs.drop_last()), segs.last())
    }
}

/// The placement words of `s` relative to top serial `top`.
pub open spec fn placements(s: Seq<ImageRec>, top: i64) -> Seq<i32>
    decreases s.len(),
{
    if s.len() == 0 {
        Seq::empty()
    } else {
        let im = s.last();
        placements(s.drop_last(), top) + seq![im.id as i32, im.serial.wrapping_sub(top) as i32, im.col as i32,
            im.width as i32, im.height as i32]
    }
}

/// The MIME text of an image kind.
pub open spec fn mime_text(m: Mime) -> Seq<char> {
    match m {
        Mime::Rgba => Seq::empty(),
        Mime::Known(f) => crate::img::mime_of(f),
        Mime::OctetStream => "application/octet-stream"@,
    }
}

impl Terminal {
    /// Queue a Kitty response (`ESC _ G i=<id> ; OK ESC \`, or without the id
    /// part for id 0) unless `quiet >= 2` suppresses it.
    fn kitty_reply_ok(&mut self, id: u32, quiet: u32)
        requires
            old(self).wf(),
        ensures
            final(self).wf(),
            final(self).evolves(old(self)),
            final(self).acked(old(self), id, quiet < 2),
    {
        if quiet >= 2 {
            proof {
                old(self).lemma_evolves_refl();
                assert(old(self).output@ + Seq::<u8>::empty() =~= old(self).output@);
            }
            return;
        }
        let ghost s0 = *self;
        if id != 0 {
            let head: [u8; 5] = [0x1bu8, 0x5f, 0x47, 0x69, 0x3d];
            assert(head@ =~= seq![0x1bu8, 0x5f, 0x47, 0x69, 0x3d]);
            self.reply(&head);
            let ghost s1 = *self;
            self.reply_decimal(id as u64);
            let ghost s2 = *self;
            let tail: [u8; 5] = [0x3bu8, 0x4f, 0x4b, 0x1b, 0x5c];
            assert(tail@ =~= seq![0x3bu8, 0x4f, 0x4b, 0x1b, 0x5c]);
            self.reply(&tail);
            proof {
                Terminal::lemma_evolves_trans(&s0, &s1, &s2);
                Terminal::lemma_evolves_trans(&s0, &s2, self);
                assert(self.output@ =~= old(self).output@ + kitty_ok(id));
            }
        } else {
            let msg: [u8; 8] = [0x1bu8, 0x5f, 0x47, 0x3b, 0x4f, 0x4b, 0x1b, 0x5c];
            assert(msg@ =~= seq![0x1bu8, 0x5f, 0x47, 0x3b, 0x4f, 0x4b, 0x1b, 0x5c]);
            self.reply(&msg);
        }
    }

    /// Display size in whole cells for a Kitty image: explicit `c`/`r` win,
    /// else derived from the native pixel size, clamped to the screen width.
    fn kitty_cell_box(&self, cmd: &Cmd, nw: usize, nh: usize) -> (r: (usize, usize))
        requires
            self.wf(),
        ensures
            1 <= r.0 <= self.screen.cols,
            1 <= r.1,
            r == self.cell_box(*cmd, nw as int, nh as int),
    {
        let cols = self.screen.cols;
        let rows = self.screen.rows;
        let cc = if cmd.cols > 0 {
            cmd.cols as usize
        } else if nw > 0 {
            div_ceil(nw, self.cell_px_w)
        } else if cols / 2 > 1 {
            cols / 2
        } else {
            1
        };
        let rc = if cmd.rows > 0 {
            cmd.rows as usize
        } else if nh > 0 {
            div_ceil(nh, self.cell_px_h)
        } else if rows / 3 > 1 {
            rows / 3
        } else {
            1
        };
        (if cc < 1 { 1 } else if cc > cols { cols } else { cc }, if rc > 1 { rc } else { 1 })
    }

    /// Anchor a normalized Kitty image at the cursor and move the cursor below
    /// it. Raw RGBA draws 1:1 at native pixels; a PNG is handed to the
    /// front-end and laid into a cell box.
    /// The cell box of a Kitty PNG placement: explicit `c` / `r` win, else the
    /// native size in cells, else half the columns / a third of the rows; at
    /// least one cell each way and no wider than the screen.
    pub closed spec fn cell_box(&self, cmd: Cmd, nw: int, nh: int) -> (usize, usize) {
        let cols = self.screen.cols as int;
        let rows = self.screen.rows as int;
        let cc = if cmd.cols > 0 { cmd.cols as int } else if nw > 0 { ceil_div(nw, self.cell_px_w as int) }
            else if cols / 2 > 1 { cols / 2 } else { 1 };
        let rc = if cmd.rows > 0 { cmd.rows as int } else if nh > 0 { ceil_div(nh, self.cell_px_h as int) }
            else if rows / 3 > 1 { rows / 3 } else { 1 };
        ((if cc < 1 { 1 } else if cc > cols { cols } else { cc }) as usize, (if rc > 1 { rc } else { 1 }) as usize)
    }

    /// `self` is `o` after Kitty image `img` was placed for command `cmd`: a
    /// record with the next image id, the cursor's absolute row and column
    /// and the client id is appended (`image_pushed`); a PNG keeps its file
    /// bytes and fills its cell box, raw RGBA keeps its pixels at native
    /// size; the cursor moves to the line below the image.
    pub closed spec fn kitty_placed(&self, o: &Terminal, img: (u32, u32, u32, u32, Seq<u8>), cmd: Cmd) -> bool {
        let (kid, format, iw, ih, data) = img;
        let (cc, rc) = o.cell_box(cmd, iw as int, ih as int);
        let png = format == 100;
        let h = ceil_div(ih as int, o.cell_px_h as int);
        let rows_cells: int = if png { rc as int } else if h > 1 { h } else { 1 };
        exists|m: Terminal, rec: ImageRec| {
            &&& #[trigger] m.image_pushed(&Terminal { next_image_id: Terminal::next_id(o.next_image_id), ..*o }, rec)
            &&& rec.id == o.next_image_id
            &&& rec.serial == o.scrolled_off.wrapping_add(o.screen.cursor.y as i64)
            &&& rec.col == o.screen.cursor.x
            &&& rec.from_kitty && rec.kitty_id == kid
            &&& rec.rows_cells == rows_cells
            &&& if png {
                &&& rec.width == sat_product(cc as int, o.cell_px_w as int)
                &&& rec.height == sat_product(rc as int, o.cell_px_h as int)
                &&& rec.rgba@.len() == 0 && rec.encoded@ == data
                &&& rec.mime == Mime::Known(Format::Png)
            } else {
                &&& rec.width == iw && rec.height == ih
                &&& rec.rgba@ == data && rec.encoded@.len() == 0
                &&& rec.mime == Mime::Rgba
            }
            &&& self.advanced_below(&m, rows_cells as nat)
        }
    }

    fn place_kitty(&mut self, img: &KittyImage, cmd: &Cmd)
        requires
            old(self).wf(),
        ensures
            final(self).wf(),
            final(self).evolves(old(self)),
            final(self).kitty_placed(old(self), img@, *cmd),
    {
        let col = self.screen.cursor.x;
        let serial = self.cursor_serial();
        let ghost s0 = *self;
        let id = self.take_image_id();
        let rec = if img.format == 100 {
            let (cc, rc) = self.kitty_cell_box(cmd, img.width as usize, img.height as usize);
            ImageRec {
                id,
                serial,
                col,
                width: sat_mul(cc, self.cell_px_w),
                height: sat_mul(rc, self.cell_px_h),
                rows_cells: rc,
                rgba: Vec::new(),
                encoded: copy_bytes_of(&img.data),
                mime: Mime::Known(Format::Png),
                from_kitty: true,
                kitty_id: img.id,
            }
        } else {
            let h = div_ceil(img.height as usize, self.cell_px_h);
            ImageRec {
                id,
                serial,
                col,
                width: img.width as usize,
                height: img.height as usize,
                rows_cells: if h > 1 { h } else { 1 },
                rgba: copy_bytes_of(&img.data),
                encoded: Vec::new(),
                mime: Mime::Rgba,
                from_kitty: true,
                kitty_id: img.id,
            }
        };
        let rows_cells = rec.rows_cells;
        let ghost s1 = *self;
        self.push_image(rec);
        let ghost s2 = *self;
        self.advance_below(rows_cells);
        proof {
            Terminal::lemma_evolves_trans(&s0, &s1, &s2);
            Terminal::lemma_evolves_trans(&s0, &s2, self);
            let r = s2.images@.last();
            assert(s2.image_pushed(&s1, r));
        }
    }

    /// Keep a transmitted image for a later `a=p`, replacing any same-id
    /// entry and bounding the store by count (32) and total bytes.
    fn kitty_remember(&mut self, img: KittyImage)
        requires
            old(self).wf(),
        ensures
            final(self).wf(),
            final(self).evolves(old(self)),
            final(self).kitty_remembered(old(self), img@),
    {
        let ghost s0 = *self;
        let ghost orig = self.kitty_store@;
        let ghost flags = Seq::new(orig.len(), |j: int| orig[j].id != img.id);
        let ghost all = kept(orig, flags).push(img);
        let mut src: Vec<KittyImage> = Vec::new();
        std::mem::swap(&mut src, &mut self.kitty_store);
        let ghost s1 = *self;
        let total_n = src.len();
        let mut rev: Vec<KittyImage> = Vec::new();
        while src.len() > 0
            invariant
                *self == (Terminal { kitty_store: self.kitty_store, ..s0 }),
                *self == s1,
                src@.len() + rev@.len() == total_n,
                total_n == orig.len(),
                src@ == orig.take(src@.len() as int),
                forall|j: int| 0 <= j < rev@.len() ==> #[trigger] rev@[j] == orig[total_n - 1 - j],
            decreases src.len(),
        {
            let im = src.pop().unwrap();
            rev.push(im);
        }
        let mut k: usize = 0;
        while rev.len() > 0
            invariant
                *self == (Terminal { kitty_store: self.kitty_store, ..s0 }),
                rev@.len() + k == total_n,
                total_n == orig.len(),
                flags == Seq::new(orig.len(), |j: int| orig[j].id != img.id),
                forall|j: int| 0 <= j < rev@.len() ==> #[trigger] rev@[j] == orig[total_n - 1 - j],
                self.kitty_store@ == kept(orig.take(k as int), flags.take(k as int)),
            decreases rev.len(),
        {
            let im = rev.pop().unwrap();
            proof {
                assert(orig.take(k as int + 1).drop_last() == orig.take(k as int));
                assert(flags.take(k as int + 1).drop_last() == flags.take(k as int));
            }
            if im.id != img.id {
                self.kitty_store.push(im);
            }
            k = k + 1;
        }
        proof {
            assert(orig.take(total_n as int) == orig);
            assert(flags.take(total_n as int) == flags);
        }
        self.kitty_store.push(img);
        assert(all.subrange(all.len() - self.kitty_store@.len(), all.len() as int) =~= self.kitty_store@);
        while self.kitty_store.len() > 32
            invariant
                *self == (Terminal { kitty_store: self.kitty_store, ..s0 }),
                1 <= self.kitty_store@.len() <= all.len(),
                self.kitty_store@.len() >= (if all.len() <= 32 { all.len() as int } else { 32 }),
                self.kitty_store@ == all.subrange(all.len() - self.kitty_store@.len(), all.len() as int),
            decreases self.kitty_store.len(),
        {
            let ghost before = self.kitty_store@;
            self.kitty_store.remove(0);
            assert(self.kitty_store@ =~= all.subrange(all.len() - self.kitty_store@.len(), all.len() as int));
        }
        let ghost capped = kitty_views(self.kitty_store@);
        proof {
            let n32 = if all.len() <= 32 { all.len() as int } else { 32 };
            assert(self.kitty_store@.len() == n32);
            assert(capped =~= kitty_views(all).subrange(all.len() - n32, all.len() as int));
        }
        let mut total: u64 = 0;
        let mut i: usize = 0;
        proof { assert(capped.take(0) =~= Seq::<(u32, u32, u32, u32, Seq<u8>)>::empty()); }
        while i < self.kitty_store.len()
            invariant
                *self == (Terminal { kitty_store: self.kitty_store, ..s0 }),
                capped == kitty_views(self.kitty_store@),
                i <= self.kitty_store@.len(),
                total == stored_bytes(capped.take(i as int)),
            decreases self.kitty_store.len() - i,
        {
            let l = self.kitty_store[i].data.len() as u64;
            proof {
                assert(capped.take(i as int + 1).drop_last() =~= capped.take(i as int));
                assert(capped[i as int].4.len() == l);
            }
            total = if total <= u64::MAX - l { total + l } else { u64::MAX };
            i = i + 1;
        }
        proof { assert(capped.take(i as int) =~= capped); }
        let ghost goal = bytes_trimmed(capped, total as int);
        while total > MAX_KITTY_STORE as u64 && self.kitty_store.len() > 1
            invariant
                *self == (Terminal { kitty_store: self.kitty_store, ..s0 }),
                1 <= self.kitty_store@.len() <= 32,
                self.kitty_store@.len() <= all.len(),
                self.kitty_store@ == all.subrange(all.len() - self.kitty_store@.len(), all.len() as int),
                bytes_trimmed(kitty_views(self.kitty_store@), total as int) == goal,
            decreases self.kitty_store.len(),
        {
            let ghost before = kitty_views(self.kitty_store@);
            let gone = self.kitty_store.remove(0);
            assert(self.kitty_store@ =~= all.subrange(all.len() - self.kitty_store@.len(), all.len() as int));
            let l = gone.data.len() as u64;
            proof {
                assert(kitty_views(self.kitty_store@) =~= before.drop_first());
                assert(before[0].4.len() == l);
            }
            total = if total >= l { total - l } else { 0 };
        }
        proof {
            old(self).lemma_evolves_refl();
            let n = self.kitty_store@.len();
            let st = kitty_views(orig);
            lemma_kept_views(orig, flags);
            assert(Seq::new(st.len(), |j: int| st[j].0 != img@.0) =~= flags);
            assert(kitty_views(all) =~= kept(st, flags).push(img@));
            assert(kitty_views(self.kitty_store@) =~= kitty_views(all).subrange(all.len() - n, all.len() as int));
        }
    }

    /// `self` is `o` after transmitted image `img` was kept for later
    /// display: stored images with the same id are dropped, `img` is
    /// appended, the oldest go until at most 32 remain, and then the oldest
    /// go while the total bytes exceed the store cap (`bytes_trimmed`); `img`
    /// always stays.
    pub closed spec fn kitty_remembered(&self, o: &Terminal, img: (u32, u32, u32, u32, Seq<u8>)) -> bool {
        let st = kitty_views(o.kitty_store@);
        let all = kept(st, Seq::new(st.len(), |j: int| st[j].0 != img.0)).push(img);
        let n = self.kitty_store@.len();
        let n32 = if all.len() <= 32 { all.len() as int } else { 32 };
        let capped = all.subrange(all.len() - n32, all.len() as int);
        &&& *self == (Terminal { kitty_store: self.kitty_store, ..*o })
        &&& 1 <= n <= 32
        &&& n <= all.len()
        &&& kitty_views(self.kitty_store@) == all.subrange(all.len() - n, all.len() as int)
        &&& n == bytes_trimmed(capped, stored_bytes(capped) as int)
    }

    /// Delete Kitty images: `d=i`/`I` with an id targets that client id;
    /// anything else clears all Kitty images. Sixel / iTerm2 images are never
    /// touched.
    fn kitty_delete(&mut self, cmd: &Cmd)
        requires
            old(self).wf(),
        ensures
            final(self).wf(),
            final(self).evolves(old(self)),
            final(self).kitty_deleted(old(self), *cmd),
    {
        let by_id = (cmd.delete == 0x69 || cmd.delete == 0x49) && cmd.id != 0;
        let mut keep: Vec<bool> = Vec::new();
        let mut i: usize = 0;
        while i < self.images.len()
            invariant
                i <= self.images@.len(),
                by_id == ((cmd.delete == 0x69 || cmd.delete == 0x49) && cmd.id != 0),
                keep@ == kitty_keep_flags(self.images@, by_id, cmd.id).take(i as int),
            decreases self.images.len() - i,
        {
            let im = &self.images[i];
            keep.push(if by_id { !(im.from_kitty && im.kitty_id == cmd.id) } else { !im.from_kitty });
            i = i + 1;
        }
        proof { assert(keep@ == kitty_keep_flags(self.images@, by_id, cmd.id)); }
        self.retain_images(&keep);
        let ghost s1 = *self;
        if by_id {
            let ghost orig = self.kitty_store@;
            let ghost flags = Seq::new(orig.len(), |j: int| orig[j].id != cmd.id);
            let mut src: Vec<KittyImage> = Vec::new();
            std::mem::swap(&mut src, &mut self.kitty_store);
            let ghost s2 = *self;
            let total = src.len();
            let mut rev: Vec<KittyImage> = Vec::new();
            while src.len() > 0
                invariant
                    *self == (Terminal { kitty_store: self.kitty_store, ..s2 }),
                    src@.len() + rev@.len() == total,
                    total == orig.len(),
                    src@ == orig.take(src@.len() as int),
                    forall|j: int| 0 <= j < rev@.len() ==> #[trigger] rev@[j] == orig[total - 1 - j],
                decreases src.len(),
            {
                let im = src.pop().unwrap();
                rev.push(im);
            }
            let mut k: usize = 0;
            while rev.len() > 0
                invariant
                    *self == (Terminal { kitty_store: self.kitty_store, ..s2 }),
                    rev@.len() + k == total,
                    total == orig.len(),
                    flags.len() == total,
                    flags == Seq::new(orig.len(), |j: int| orig[j].id != cmd.id),
                    forall|j: int| 0 <= j < rev@.len() ==> #[trigger] rev@[j] == orig[total - 1 - j],
                    self.kitty_store@ == kept(orig.take(k as int), flags.take(k as int)),
                decreases rev.len(),
            {
                let im = rev.pop().unwrap();
                proof {
                    assert(orig.take(k as int + 1).drop_last() == orig.take(k as int));
                    assert(flags.take(k as int + 1).drop_last() == flags.take(k as int));
                }
                if im.id != cmd.id {
                    self.kitty_store.push(im);
                }
                k = k + 1;
            }
            proof {
                assert(orig.take(total as int) == orig);
                assert(flags.take(total as int) == flags);
            }
        } else {
            self.kitty_store.clear();
        }
        proof {
            s1.lemma_evolves_refl();
            Terminal::lemma_evolves_trans(old(self), &s1, self);
        }
    }

    /// `self` is `o` after Kitty graphics payload `data`: an unparsable
    /// payload changes nothing; a query (`a=q`) is acknowledged unless quiet;
    /// a delete (`a=d`) takes the effect `kitty_deleted` states; a put
    /// without data (`a=p`) displays a stored image (`kitty_displayed`);
    /// anything else is a transmission chunk (`kitty_transmitted`).
    pub closed spec fn kitty_effect(&self, o: &Terminal, data: Seq<u8>) -> bool {
        match crate::kitty::parse_spec(data) {
            None => *self == *o,
            Some((cmd, b64)) => if cmd.action == 0x71 {
                self.acked(o, cmd.id, cmd.quiet < 2)
            } else if cmd.action == 0x64 {
                self.kitty_deleted(o, cmd)
            } else if cmd.action == 0x70 && b64.len() == 0 && !cmd.more {
                self.kitty_displayed(o, cmd)
            } else {
                self.kitty_transmitted(o, cmd, b64)
            },
        }
    }

    /// `self` is `o` after `a=p` without data: the stored image with the
    /// command's id (the first such) is placed and, when the command has an
    /// id and is not quiet, acknowledged; with none stored nothing changes.
    pub closed spec fn kitty_displayed(&self, o: &Terminal, cmd: Cmd) -> bool {
        match stored_index(o.kitty_store@, cmd.id) {
            None => *self == *o,
            Some(pos) => exists|m: Terminal| #[trigger] m.kitty_placed(o, o.kitty_store@[pos]@, cmd)
                && self.acked(&m, cmd.id, cmd.id != 0 && cmd.quiet == 0),
        }
    }

    /// A placement of the stored image found by id, then the acknowledgement,
    /// is the display `kitty_displayed` states.
    proof fn lemma_displayed(t: Terminal, o: Terminal, cmd: Cmd, pos: int, m: Terminal)
        requires
            stored_index(o.kitty_store@, cmd.id) == Some(pos),
            m.kitty_placed(&o, o.kitty_store@[pos]@, cmd),
            t.acked(&m, cmd.id, cmd.id != 0 && cmd.quiet == 0),
        ensures
            t.kitty_displayed(&o, cmd),
    {
        let p = stored_index(o.kitty_store@, cmd.id)->0;
        assert(p == pos);
        assert(m.kitty_placed(&o, o.kitty_store@[p]@, cmd));
    }

    /// `self` is `o` with the Kitty `OK` for `id` queued when `send`.
    pub closed spec fn acked(&self, o: &Terminal, id: u32, send: bool) -> bool {
        &&& *self == (Terminal { output: self.output, ..*o })
        &&& self.output@ == o.output@ + (if send { kitty_ok(id) } else { Seq::empty() })
    }

    /// `self` is `o` after Kitty transmission chunk `b64` with control block
    /// `cmd`: the chunk joins the transfer in progress (whose first control
    /// block governs); a transfer over the size cap is dropped; with more
    /// chunks announced it waits; a finished direct, uncompressed transfer
    /// whose base64 decodes to a displayable image (`kitty_normalized`) is
    /// placed for `a=T` / `a=p`, kept for later display when it has an id,
    /// and then acknowledged unless quiet; anything else is dropped.
    pub closed spec fn kitty_transmitted(&self, o: &Terminal, cmd: Cmd, b64: Seq<u8>) -> bool {
        let first = match o.kitty_pending { Some((c, _v)) => c, None => cmd };
        let all = pending_bytes(o.kitty_pending) + b64;
        let o1 = Terminal { kitty_pending: None, ..*o };
        if all.len() > MAX_KITTY_B64 {
            *self == o1
        } else if cmd.more {
            &&& *self == (Terminal { kitty_pending: self.kitty_pending, ..*o })
            &&& self.kitty_pending matches Some((c, v)) && c == first && v@ == all
        } else {
            self.kitty_finished(&o1, first, all)
        }
    }

    /// `self` is `o` after a finished transfer with control block `first`
    /// and base64 `all`: a direct, uncompressed transfer whose base64 decodes
    /// to a displayable image (`kitty_normalized`) is placed for `a=T` /
    /// `a=p`, kept for later display when it has an id, and then
    /// acknowledged unless quiet; anything else changes nothing.
    pub closed spec fn kitty_finished(&self, o: &Terminal, first: Cmd, all: Seq<u8>) -> bool {
        match kitty_image_of(first, all) {
            None => *self == *o,
            Some(img) => exists|m1: Terminal| #[trigger] m1.placed_or_not(o, img, first) && (if first.id != 0 {
                exists|m2: Terminal| #[trigger] m2.kitty_remembered(&m1, img) && self.acked(&m2, first.id, first.quiet == 0)
            } else {
                *self == m1
            }),
        }
    }

    /// `self` is `o` with `img` placed when `cmd` asks for display (`a=T` /
    /// `a=p`), else `o`.
    pub closed spec fn placed_or_not(&self, o: &Terminal, img: (u32, u32, u32, u32, Seq<u8>), cmd: Cmd) -> bool {
        if cmd.action == 0x54 || cmd.action == 0x70 { self.kitty_placed(o, img, cmd) } else { *self == *o }
    }

    /// `self` is `o` after a Kitty delete command: `d=i` / `d=I` with an id
    /// removes that client id's placements and stored transmissions; any
    /// other delete removes every Kitty placement and empties the store.
    /// Sixel and iTerm2 images stay; the image version is bumped when a
    /// placement goes.
    pub closed spec fn kitty_deleted(&self, o: &Terminal, cmd: Cmd) -> bool {
        let by_id = (cmd.delete == 0x69 || cmd.delete == 0x49) && cmd.id != 0;
        let flags = kitty_keep_flags(o.images@, by_id, cmd.id);
        let store = o.kitty_store@;
        &&& *self == (Terminal { images: self.images, images_version: self.images_version,
            kitty_store: self.kitty_store, ..*o })
        &&& self.images@ == kept(o.images@, flags)
        &&& self.images_version == (if flags.contains(false) { o.images_version.wrapping_add(1) } else { o.images_version })
        &&& self.kitty_store@ == (if by_id {
            kept(store, Seq::new(store.len(), |j: int| store[j].id != cmd.id))
        } else {
            Seq::empty()
        })
    }

    /// Normalize a decoded Kitty transmission: raw RGB is expanded to opaque
    /// RGBA, RGBA is cut to size, PNG is kept with its sniffed size. `None`
    /// for an unknown format or a raw image whose size doesn't fit its data.
    fn kitty_normalize(first: &Cmd, bytes: Vec<u8>) -> (img: Option<KittyImage>)
        ensures
            match kitty_normalized(*first, bytes@) {
                Some((f, w, h, data)) => img matches Some(i) && i@ == (first.id, f, w, h, data),
                None => img is None,
            },
    {
        if first.format == 24 || first.format == 32 {
            let w = first.width as usize;
            let h = first.height as usize;
            let bpp: u64 = if first.format == 24 { 3 } else { 4 };
            if w == 0 || h == 0 || w > 65536 || h > 65536 {
                return None;
            }
            let w64 = w as u64;
            let h64 = h as u64;
            assert(w64 * h64 <= 0x1_0000_0000 && w64 * h64 * bpp <= 0x4_0000_0000) by (nonlinear_arith)
                requires
                    1 <= w64 <= 65536,
                    1 <= h64 <= 65536,
                    bpp <= 4,
            ;
            let need = w64 * h64 * bpp;
            if (bytes.len() as u64) < need {
                return None;
            }
            let px = (w64 * h64) as usize;
            assert(px * bpp <= bytes@.len());
            let data = if first.format == 24 {
                let mut rgba: Vec<u8> = Vec::new();
                let mut p: usize = 0;
                let blen = bytes.len();
                while p < px
                    invariant
                        px * 3 <= blen,
                        blen == bytes@.len(),
                        p <= px,
                        rgba@ == rgb_to_rgba(bytes@, p as int),
                    decreases px - p,
                {
                    assert(3 * p + 3 <= px * 3) by (nonlinear_arith)
                        requires
                            p < px,
                    ;
                    let o = 3 * p;
                    let ghost before = rgba@;
                    rgba.push(bytes[o]);
                    rgba.push(bytes[o + 1]);
                    rgba.push(bytes[o + 2]);
                    rgba.push(0xff);
                    proof {
                        assert(rgba@ =~= before + seq![bytes@[3 * p], bytes@[3 * p + 1], bytes@[3 * p + 2], 0xffu8]);
                        lemma_rgb_to_rgba_step(bytes@, p as int);
                    }
                    p = p + 1;
                }
                rgba
            } else {
                crate::kitty::copy_range(bytes.as_slice(), 0, px * 4)
            };
            Some(KittyImage { id: first.id, format: 32, width: w as u32, height: h as u32, data })
        } else if first.format == 100 {
            let (w, h) = match crate::img::sniff_dimensions(bytes.as_slice()) {
                Some(d) => d,
                None => (0, 0),
            };
            Some(KittyImage { id: first.id, format: 100, width: w, height: h, data: bytes })
        } else {
            None
        }
    }

    /// A stored Kitty image as an independent copy.
    fn kitty_stored(&self, pos: usize) -> (img: KittyImage)
        requires
            pos < self.kitty_store@.len(),
        ensures
            img@ == self.kitty_store@[pos as int]@,
    {
        let s = &self.kitty_store[pos];
        KittyImage { id: s.id, format: s.format, width: s.width, height: s.height, data: copy_bytes_of(&s.data) }
    }

    /// Handle one Kitty graphics APC command (payload after `ESC _`).
    #[verifier::spinoff_prover]
    #[verifier::rlimit(50)]
    fn kitty(&mut self, data: &[u8])
        requires
            old(self).wf(),
        ensures
            final(self).wf(),
            final(self).evolves(old(self)),
            final(self).kitty_effect(old(self), data@),
    {
        proof { old(self).lemma_evolves_refl(); }
        let (cmd, b64) = match crate::kitty::parse(data) {
            Some(x) => x,
            None => return,
        };
        if cmd.action == 0x71 {
            // Query: acknowledge so a client can probe support.
            self.kitty_reply_ok(cmd.id, cmd.quiet);
            return;
        }
        if cmd.action == 0x64 {
            self.kitty_delete(&cmd);
            return;
        }
        if cmd.action == 0x70 && b64.len() == 0 && !cmd.more {
            // Display a stored image with no new data.
            let mut pos: usize = 0;
            while pos < self.kitty_store.len() && self.kitty_store[pos].id != cmd.id
                invariant
                    pos <= self.kitty_store@.len(),
                    forall|j: int| 0 <= j < pos ==> self.kitty_store@[j].id != cmd.id,
                decreases self.kitty_store.len() - pos,
            {
                pos = pos + 1;
            }
            proof {
                let st = self.kitty_store@;
                if pos < st.len() {
                    let w = choose|k: int| 0 <= k < st.len() && st[k].id == cmd.id && forall|j: int| 0 <= j < k ==> st[j].id != cmd.id;
                    assert(0 <= pos < st.len() && st[pos as int].id == cmd.id);
                    if w < pos {
                        assert(st[w].id != cmd.id);
                    } else if w > pos {
                        assert(st[pos as int].id != cmd.id);
                    }
                    assert(stored_index(st, cmd.id) == Some(pos as int));
                } else {
                    if exists|k: int| 0 <= k < st.len() && st[k].id == cmd.id {
                        let k = choose|k: int| 0 <= k < st.len() && st[k].id == cmd.id;
                        assert(st[k].id != cmd.id);
                    }
                    assert(stored_index(st, cmd.id) is None);
                }
            }
            if pos < self.kitty_store.len() {
                let img = self.kitty_stored(pos);
                self.place_kitty(&img, &cmd);
                let ghost m = *self;
                if cmd.id != 0 && cmd.quiet == 0 {
                    let ghost s1 = *self;
                    self.kitty_reply_ok(cmd.id, cmd.quiet);
                    proof { Terminal::lemma_evolves_trans(old(self), &s1, self); }
                } else {
                    proof { assert(m.output@ + Seq::<u8>::empty() =~= m.output@); }
                }
                assert(self.acked(&m, cmd.id, cmd.id != 0 && cmd.quiet == 0));
                assert(m.kitty_placed(old(self), old(self).kitty_store@[pos as int]@, cmd));
                assert(exists|mm: Terminal| #[trigger] mm.kitty_placed(old(self), old(self).kitty_store@[pos as int]@, cmd)
                    && self.acked(&mm, cmd.id, cmd.id != 0 && cmd.quiet == 0));
                assert(stored_index(old(self).kitty_store@, cmd.id) == Some(pos as int));
                assert(crate::kitty::parse_spec(data@) == Some((cmd, b64@)));
                assert(cmd.action == 0x70 && b64@.len() == 0 && !cmd.more);
                assert(cmd.action != 0x71 && cmd.action != 0x64);
                proof { Terminal::lemma_displayed(*self, *old(self), cmd, pos as int, m); }
                assert(self.kitty_displayed(old(self), cmd));
            } else {
                assert(stored_index(old(self).kitty_store@, cmd.id) is None);
                assert(self.kitty_displayed(old(self), cmd));
            }
            return;
        }
        // Transmission: accumulate this chunk; the first chunk's control block
        // governs the whole transfer.
        let ghost acc = pending_bytes(self.kitty_pending);
        let mut pending = match self.kitty_pending.take() {
            Some(p) => p,
            None => (cmd, Vec::new()),
        };
        let ghost first0 = pending.0;
        let ghost o1 = Terminal { kitty_pending: None, ..*old(self) };
        assert(*self == o1);
        assert(first0 == (match old(self).kitty_pending { Some((c, _v)) => c, None => cmd }));
        let mut k: usize = 0;
        while k < b64.len()
            invariant
                k <= b64@.len(),
                pending.0 == first0,
                pending.1@ == acc + b64@.take(k as int),
            decreases b64.len() - k,
        {
            pending.1.push(b64[k]);
            k = k + 1;
            assert(pending.1@ =~= acc + b64@.take(k as int));
        }
        assert(b64@.take(k as int) =~= b64@);
        if pending.1.len() > MAX_KITTY_B64 {
            // Hostile / oversized transfer.
            self.kitty_pending = None;
            return;
        }
        if cmd.more {
            self.kitty_pending = Some(pending);
            return;
        }
        let (first, b64all) = pending;
        assert(*self == o1);
        self.kitty_finish(first, b64all);
    }

    /// Finish a Kitty transfer: decode, normalize, place, keep, acknowledge.
    fn kitty_finish(&mut self, first: Cmd, b64all: Vec<u8>)
        requires
            old(self).wf(),
        ensures
            final(self).wf(),
            final(self).evolves(old(self)),
            final(self).kitty_finished(old(self), first, b64all@),
    {
        proof { old(self).lemma_evolves_refl(); }
        // Only direct base64 transmission is honored.
        if first.medium != 0x64 || first.compressed {
            return;
        }
        let bytes = match crate::img::decode_base64(b64all.as_slice()) {
            Some(b) => b,
            None => return,
        };
        if bytes.len() == 0 {
            return;
        }
        let img = match Terminal::kitty_normalize(&first, bytes) {
            Some(i) => i,
            None => return,
        };
        let ghost s1 = *self;
        let ghost iv = img@;
        assert(kitty_image_of(first, b64all@) == Some(iv));
        if first.action == 0x54 || first.action == 0x70 {
            self.place_kitty(&img, &first);
        } else {
            proof { s1.lemma_evolves_refl(); }
        }
        let ghost s2 = *self;
        assert(s2.placed_or_not(&s1, iv, first));
        if first.id != 0 {
            let fid = first.id;
            self.kitty_remember(img);
            let ghost s3 = *self;
            proof { Terminal::lemma_evolves_trans(&s1, &s2, &s3); }
            if first.quiet == 0 {
                self.kitty_reply_ok(fid, first.quiet);
                proof { Terminal::lemma_evolves_trans(&s1, &s3, self); }
            } else {
                proof { assert(s3.output@ + Seq::<u8>::empty() =~= s3.output@); }
            }
            assert(s3.kitty_remembered(&s2, iv));
            assert(self.acked(&s3, first.id, first.quiet == 0));
            proof { Terminal::lemma_finished(*self, s1, first, b64all@, s2, s3); }
        } else {
            assert(*self == s2);
            proof { Terminal::lemma_finished(*self, s1, first, b64all@, s2, s2); }
        }
        proof {
            Terminal::lemma_evolves_trans(old(self), &s1, self);
        }
    }

    /// Placing (or not), keeping and acknowledging the transfer's image is the
    /// finish `kitty_finished` states.
    proof fn lemma_finished(t: Terminal, o: Terminal, first: Cmd, all: Seq<u8>, m1: Terminal, m2: Terminal)
        requires
            kitty_image_of(first, all) is Some,
            m1.placed_or_not(&o, kitty_image_of(first, all)->0, first),
            first.id != 0 ==> m2.kitty_remembered(&m1, kitty_image_of(first, all)->0)
                && t.acked(&m2, first.id, first.quiet == 0),
            first.id == 0 ==> t == m1,
        ensures
            t.kitty_finished(&o, first, all),
    {
    }
}

/// The ANSI modes after mode `v` was set or reset: IRM (4) and LNM (20).
pub open spec fn ansi_modes_spec(m: Modes, v: u16, enable: bool) -> Modes {
    if v == 4 {
        Modes { insert: enable, ..m }
    } else if v == 20 {
        Modes { newline_mode: enable, ..m }
    } else {
        m
    }
}

#[verifier::when_used_as_spec(ansi_modes_spec)]
fn ansi_modes(m: Modes, v: u16, enable: bool) -> (r: Modes)
    ensures
        r == ansi_modes_spec(m, v, enable),
{
    if v == 4 {
        Modes { insert: enable, ..m }
    } else if v == 20 {
        Modes { newline_mode: enable, ..m }
    } else {
        m
    }
}

/// The DEC private flag modes after mode `v` was set or reset.
pub open spec fn dec_modes_spec(m: Modes, v: u16, enable: bool) -> Modes {
    if v == 1 {
        Modes { app_cursor_keys: enable, ..m }
    } else if v == 7 {
        Modes { autowrap: enable, ..m }
    } else if v == 12 {
        Modes { cursor_blink: enable, ..m }
    } else if v == 25 {
        Modes { cursor_visible: enable, ..m }
    } else if v == 9 || v == 1000 || v == 1002 || v == 1003 {
        Modes { mouse_mode: if enable { v } else { 0 }, ..m }
    } else if v == 1004 {
        Modes { focus_events: enable, ..m }
    } else if v == 1006 {
        Modes { mouse_sgr: enable, ..m }
    } else if v == 2004 {
        Modes { bracketed_paste: enable, ..m }
    } else {
        m
    }
}

#[verifier::when_used_as_spec(dec_modes_spec)]
fn dec_modes(m: Modes, v: u16, enable: bool) -> (r: Modes)
    ensures
        r == dec_modes_spec(m, v, enable),
{
    if v == 1 {
        Modes { app_cursor_keys: enable, ..m }
    } else if v == 7 {
        Modes { autowrap: enable, ..m }
    } else if v == 12 {
        Modes { cursor_blink: enable, ..m }
    } else if v == 25 {
        Modes { cursor_visible: enable, ..m }
    } else if v == 9 || v == 1000 || v == 1002 || v == 1003 {
        Modes { mouse_mode: if enable { v } else { 0 }, ..m }
    } else if v == 1004 {
        Modes { focus_events: enable, ..m }
    } else if v == 1006 {
        Modes { mouse_sgr: enable, ..m }
    } else if v == 2004 {
        Modes { bracketed_paste: enable, ..m }
    } else {
        m
    }
}

/// Cells `x ..` of `cells` overwritten by the bytes of `run` as characters in
/// `pen` with hyperlink `link`.
pub open spec fn write_run(cells: Seq<Cell>, x: int, run: Seq<u8>, pen: Pen, link: u32) -> Seq<Cell> {
    Seq::new(cells.len(), |i: int| if x <= i < x + run.len() {
        Cell { ch: run[i - x] as char, pen, link, grapheme: 0 }
    } else {
        cells[i]
    })
}

/// `tr` is a run of states in which each byte of `bytes`, printed as a
/// character, leads from one state to the next.
pub open spec fn ascii_chain(tr: Seq<Terminal>, bytes: Seq<u8>) -> bool {
    &&& tr.len() == bytes.len() + 1
    &&& forall|k: int| 0 <= k < bytes.len() ==> #[trigger] tr[k + 1].print_effect(&tr[k], bytes[k] as char)
}

/// Span `q` of the trace: from state `tr[q]` the bytes `starts[q] ..
/// starts[q + 1]` of `bytes` are laid out, giving `tr[q + 1]`.
pub open spec fn span_step(tr: Seq<Terminal>, starts: Seq<int>, bytes: Seq<u8>, q: int) -> bool {
    &&& 0 <= starts[q] < starts[q + 1] <= bytes.len()
    &&& tr[q + 1].span_put(&tr[q], bytes.subrange(starts[q], starts[q + 1]), bytes.len() - starts[q])
}

/// `tr` is a run of states over the spans of `bytes` that `starts` marks.
pub open spec fn span_trace(tr: Seq<Terminal>, starts: Seq<int>, bytes: Seq<u8>) -> bool {
    &&& tr.len() == starts.len()
    &&& starts.len() >= 1
    &&& starts[0] == 0
    &&& forall|q: int| 0 <= q < tr.len() - 1 ==> #[trigger] span_step(tr, starts, bytes, q)
}

/// `tr` is a run of `k` line feeds.
pub open spec fn line_trace(tr: Seq<Terminal>, k: nat) -> bool {
    &&& tr.len() == k + 1
    &&& forall|i: int| 0 <= i < k ==> #[trigger] tr[i + 1].line_fed(&tr[i])
}

/// `tr` is a run of states in which each mode value of `vals` leads from one
/// state to the next.
pub open spec fn mode_trace(tr: Seq<Terminal>, vals: Seq<u16>, private: bool, enable: bool) -> bool {
    &&& tr.len() == vals.len() + 1
    &&& forall|k: int| 0 <= k < vals.len() ==> #[trigger] tr[k + 1].mode_effect(&tr[k], vals[k], private, enable)
}

/// `tr` is a run of states in which each token of `es` leads from one state
/// to the next.
pub open spec fn token_trace(tr: Seq<Terminal>, es: Seq<Event>) -> bool {
    &&& tr.len() == es.len() + 1
    &&& forall|k: int| 0 <= k < es.len() ==> #[trigger] tr[k + 1].event_effect(&tr[k], es[k])
}

impl Terminal {
    /// `self` is `o` after token `e`: printed text, C0 controls, CSI, ESC,
    /// OSC, DCS (Sixel) and APC (Kitty graphics) sequences take the effects
    /// their own relations state; every token keeps the terminal's frame
    /// (`evolves`).
    pub closed spec fn event_effect(&self, o: &Terminal, e: Event) -> bool {
        &&& self.evolves(o)
        &&& match e {
            Event::Execute(b) => self.c0_effect(o, b),
            Event::Csi(p, i, ig, a) => self.csi_effect(o, p, i, ig, a),
            Event::Esc(i, b) => self.esc_effect(o, i, b),
            Event::Osc(ps, _bell) => self.osc_effect(o, ps),
            Event::Print(c) => self.print_effect(o, c),
            Event::PrintAscii(bs) => self.ascii_effect(o, bs),
            Event::Dcs(d, _t) => match crate::sixel::decode_spec(d) {
                Some((w, h, rgba)) => self.sixel_placed(o, w, h, rgba),
                None => *self == *o,
            },
            Event::Apc(d) => self.kitty_effect(o, d),
        }
    }

    /// `self` is `o` after the tokens `es`, applied in order: some sequence
    /// of states leads from `o` to `self`, each token taking its effect.
    pub closed spec fn events_applied(&self, o: &Terminal, es: Seq<Event>) -> bool {
        exists|tr: Seq<Terminal>| #[trigger] token_trace(tr, es) && tr[0] == *o && tr.last() == *self
    }

    /// Tokens applied one by one: a single token takes its own effect.
    pub proof fn lemma_applied_single(&self, o: &Terminal, e: Event)
        requires
            self.events_applied(o, seq![e]),
        ensures
            self.event_effect(o, e),
    {
        let tr = choose|tr: Seq<Terminal>| #[trigger] token_trace(tr, seq![e]) && tr[0] == *o && tr.last() == *self;
        assert(tr[1].event_effect(&tr[0], seq![e][0]));
    }

    /// Tokens applied in turn: `es1` then `es2` from `o` is `es1 + es2`.
    pub proof fn lemma_applied_concat(a: &Terminal, b: &Terminal, c: &Terminal, es1: Seq<Event>, es2: Seq<Event>)
        requires
            b.events_applied(a, es1),
            c.events_applied(b, es2),
        ensures
            c.events_applied(a, es1 + es2),
    {
        let t1 = choose|tr: Seq<Terminal>| #[trigger] token_trace(tr, es1) && tr[0] == *a && tr.last() == *b;
        let t2 = choose|tr: Seq<Terminal>| #[trigger] token_trace(tr, es2) && tr[0] == *b && tr.last() == *c;
        let tr = t1 + t2.skip(1);
        let es = es1 + es2;
        assert forall|k: int| 0 <= k < es.len() implies #[trigger] tr[k + 1].event_effect(&tr[k], es[k]) by {
            if k < es1.len() {
                assert(tr[k + 1] == t1[k + 1] && tr[k] == t1[k]);
                assert(es[k] == es1[k]);
                assert(t1[k + 1].event_effect(&t1[k], es1[k]));
            } else {
                let m = k - es1.len();
                assert(tr[k + 1] == t2[m + 1]);
                assert(tr[k] == t2[m]);
                assert(es[k] == es2[m]);
                assert(t2[m + 1].event_effect(&t2[m], es2[m]));
            }
        }
        assert(token_trace(tr, es));
        assert(tr.last() == t2.last());
    }

    /// What a token's effect says, by kind: a CSI sequence takes
    /// `csi_effect`, a C0 control `c0_effect`, a printed character
    /// `print_effect`; every token keeps the frame (`evolves`).
    pub proof fn lemma_event_kinds(&self, o: &Terminal, e: Event)
        requires
            self.event_effect(o, e),
        ensures
            self.evolves(o),
            e matches Event::Csi(p, i, ig, a) ==> self.csi_effect(o, p, i, ig, a),
            e matches Event::Execute(b) ==> self.c0_effect(o, b),
            e matches Event::Print(c) ==> self.print_effect(o, c),
            e matches Event::Esc(i, b) ==> self.esc_effect(o, i, b),
            e matches Event::Osc(ps, bell) ==> self.osc_effect(o, ps),
    {
    }

    /// A cursor motion (CUU, CUD, CUF, CUB, CNL, CPL, CHA, CUP, HVP, VPA, ...):
    /// the cursor goes where `motion_cursor` puts it on the active screen (in
    /// origin mode, relative to the scroll region), and the screen's
    /// contents, the pen, the modes, the replies, the bell, the history and
    /// the title stay.
    pub proof fn lemma_csi_motion(&self, o: &Terminal, p: Seq<Seq<u16>>, inter: Seq<u8>, action: char)
        requires
            self.csi_effect(o, p, inter, false, action),
            is_motion_final(action),
        ensures
            self.active().cursor == motion_cursor(o.active(), o.spec_modes().origin, p, action),
            self.active().screen() == o.active().screen(),
            self.spec_pen() == o.spec_pen(),
            self.spec_modes() == o.spec_modes(),
            self.spec_output() == o.spec_output(),
            self.spec_bell_count() == o.spec_bell_count(),
            self.history() == o.history(),
            self.spec_title() == o.spec_title(),
    {
    }

    /// SGR (`CSI ... m`): the pen becomes `sgr_pen` of the old pen and the
    /// parameters; the cursor and the screen stay.
    pub proof fn lemma_csi_sgr(&self, o: &Terminal, p: Seq<Seq<u16>>, inter: Seq<u8>)
        requires
            self.csi_effect(o, p, inter, false, 'm'),
        ensures
            self.spec_pen() == sgr_pen(o.spec_pen(), p),
            self.active().cursor == o.active().cursor,
            self.active().screen() == o.active().screen(),
            self.spec_output() == o.spec_output(),
    {
        assert(!is_motion_final('m'));
    }

    /// Host replies: DSR (`CSI n`) queues `dsr_reply` for the cursor's
    /// position, DA (`CSI c`) queues `ESC [ ? 1 ; 2 c`; nothing else changes
    /// that a client sees on the screen.
    pub proof fn lemma_csi_replies(&self, o: &Terminal, p: Seq<Seq<u16>>, inter: Seq<u8>, action: char)
        requires
            self.csi_effect(o, p, inter, false, action),
            action == 'n' || action == 'c',
        ensures
            action == 'n' ==> self.spec_output() == o.spec_output() + dsr_reply(p_get(p, 0, 0), o.active().cursor),
            action == 'c' ==> self.spec_output() == o.spec_output() + seq![0x1bu8, 0x5b, 0x3f, 0x31, 0x3b, 0x32, 0x63],
            self.active().cursor == o.active().cursor,
            self.active().screen() == o.active().screen(),
            self.spec_pen() == o.spec_pen(),
    {
        assert(!is_motion_final('n') && !is_motion_final('c'));
    }

    /// C0 controls a client sees most: BEL counts one more bell (wrapping),
    /// CR returns to column 0 and BS steps left, stopping at column 0; the
    /// screen's contents stay.
    pub proof fn lemma_c0_basics(&self, o: &Terminal, byte: u8)
        requires
            self.c0_effect(o, byte),
            byte == 0x07 || byte == 0x08 || byte == 0x0d,
        ensures
            byte == 0x07 ==> self.spec_bell_count() == o.spec_bell_count().wrapping_add(1)
                && self.active().cursor == o.active().cursor,
            byte == 0x0d ==> self.active().cursor == (Cursor { x: 0, y: o.active().cursor.y, pending_wrap: false }),
            byte == 0x08 ==> self.active().cursor == (Cursor {
                x: if o.active().cursor.x > 0 { (o.active().cursor.x - 1) as usize } else { 0 },
                y: o.active().cursor.y,
                pending_wrap: false,
            }),
            self.active().screen() == o.active().screen(),
    {
    }

    /// Hand one parsed token to its handler.
    fn dispatch(&mut self, a: &crate::parser::Action)
        requires
            old(self).wf(),
        ensures
            final(self).wf(),
            final(self).evolves(old(self)),
            final(self).event_effect(old(self), a@),
    {
        match a {
            crate::parser::Action::Print(c) => self.write_char(*c),
            crate::parser::Action::PrintAscii(b) => self.print_ascii_run(b.as_slice()),
            crate::parser::Action::Execute(b) => self.execute_byte(*b),
            crate::parser::Action::Csi(p, inter, ig, act) => self.csi(p, inter.as_slice(), *ig, *act),
            crate::parser::Action::Esc(inter, b) => self.esc(inter.as_slice(), *b),
            crate::parser::Action::Osc(parts, bell) => self.osc(parts.as_slice(), *bell),
            crate::parser::Action::Dcs(d, _t) => {
                match crate::sixel::decode(d.as_slice()) {
                    Some(img) => self.place_sixel(img),
                    None => {
                        proof { old(self).lemma_evolves_refl(); }
                    },
                }
            },
            crate::parser::Action::Apc(d) => self.kitty(d.as_slice()),
        }
    }

    /// `self` as a feed leaves it before the first token is applied: the
    /// parser as in `after` (the parser the tokens came from), the viewport
    /// back at the bottom.
    pub closed spec fn feed_start(&self, after: &Terminal) -> Terminal {
        Terminal {
            parser: after.parser,
            display_offset: 0,
            viewport_full: self.viewport_full || self.display_offset != 0,
            ..*self
        }
    }

    /// Feed raw bytes from the host / PTY. Any output snaps the viewport back
    /// to the bottom; the bytes are parsed and every token applied in order.
    #[verifier::spinoff_prover]
    pub fn feed(&mut self, bytes: &[u8])
        requires
            old(self).wf(),
        ensures
            final(self).wf(),
            final(self).parser_state() == m_run(old(self).parser_state(), bytes@).0,
            final(self).spec_display_offset() == 0,
            final(self).continues(old(self)),
            final(self).events_applied(&old(self).feed_start(final(self)), m_run(old(self).parser_state(), bytes@).1),
    {
        if self.display_offset != 0 {
            self.display_offset = 0;
            self.viewport_full = true;
        }
        let actions = self.parser.advance_events(bytes);
        let ghost s1 = *self;
        let ghost es = events_of(actions@);
        let ghost mut tr: Seq<Terminal> = seq![s1];
        proof {
            s1.lemma_evolves_refl();
            assert(es.take(0) =~= Seq::<Event>::empty());
        }
        let mut i: usize = 0;
        while i < actions.len()
            invariant
                self.wf(),
                self.evolves(&s1),
                s1.display_offset == 0,
                es == events_of(actions@),
                i <= actions@.len(),
                tr.len() == i + 1,
                tr[0] == s1,
                tr.last() == *self,
                token_trace(tr, es.take(i as int)),
            decreases actions.len() - i,
        {
            let ghost s2 = *self;
            self.dispatch(&actions[i]);
            proof {
                Terminal::lemma_evolves_trans(&s1, &s2, self);
                let t = es.take(i as int + 1);
                let tr2 = tr.push(*self);
                assert forall|k: int| 0 <= k < t.len() implies #[trigger] tr2[k + 1].event_effect(&tr2[k], t[k]) by {
                    if k < i {
                        assert(es.take(i as int)[k] == t[k]);
                        assert(tr[k + 1].event_effect(&tr[k], es.take(i as int)[k]));
                    } else {
                        assert(t[k] == actions@[i as int]@);
                    }
                }
                tr = tr2;
            }
            i = i + 1;
        }
        proof {
            assert(es.take(actions@.len() as int) =~= es);
            assert(s1 == old(self).feed_start(self));
            assert(token_trace(tr, es));
        }
        proof {
            let ga = old(self).graphemes@.map_values(|s: String| s@);
            let gb = s1.graphemes@.map_values(|s: String| s@);
            assert(ga =~= gb);
            assert(old(self).output@ =~= s1.output@);
        }
    }

    /// Feed UTF-8 text (a convenience for hosts that hold strings).
    pub fn feed_str(&mut self, s: &str)
        requires
            old(self).wf(),
        ensures
            final(self).wf(),
            final(self).parser_state() == m_run(old(self).parser_state(), vstd::utf8::encode_utf8(s@)).0,
            final(self).spec_display_offset() == 0,
            final(self).continues(old(self)),
            final(self).events_applied(&old(self).feed_start(final(self)), m_run(old(self).parser_state(), vstd::utf8::encode_utf8(s@)).1),
    {
        let b = s.as_bytes();
        self.feed(b);
    }
}

impl Perform for Terminal {
    closed spec fn inv(&self) -> bool {
        self.wf()
    }

    closed spec fn printed(&self, o: &Terminal, c: char) -> bool {
        self.print_effect(o, c)
    }

    fn print(&mut self, c: char)
        ensures
            final(self).print_effect(old(self), c),
    {
        self.write_char(c);
    }

    fn print_ascii(&mut self, bytes: &[u8])
        ensures
            final(self).ascii_effect(old(self), bytes@),
    {
        self.print_ascii_run(bytes);
    }

    fn execute(&mut self, byte: u8)
        ensures
            final(self).c0_effect(old(self), byte),
    {
        self.execute_byte(byte);
    }

    fn csi_dispatch(&mut self, params: &Params, intermediates: &[u8], ignore: bool, action: char)
        ensures
            final(self).csi_effect(old(self), params@, intermediates@, ignore, action),
    {
        self.csi(params, intermediates, ignore, action);
    }

    fn esc_dispatch(&mut self, intermediates: &[u8], byte: u8)
        ensures
            final(self).esc_effect(old(self), intermediates@, byte),
    {
        self.esc(intermediates, byte);
    }

    fn osc_dispatch(&mut self, params: &[Vec<u8>], bell_terminated: bool)
        ensures
            final(self).osc_effect(old(self), bytes_view(params@)),
    {
        self.osc(params, bell_terminated);
    }

    fn dcs_dispatch(&mut self, data: &[u8], truncated: bool)
        ensures
            match crate::sixel::decode_spec(data@) {
                Some((w, h, rgba)) => final(self).sixel_placed(old(self), w, h, rgba),
                None => *final(self) == *old(self),
            },
    {
        match crate::sixel::decode(data) {
            Some(img) => self.place_sixel(img),
            None => {},
        }
    }

    fn apc_dispatch(&mut self, data: &[u8])
        ensures
            final(self).kitty_effect(old(self), data@),
    {
        self.kitty(data);
    }
}

/// A cursor kept inside a `cols` x `rows` screen, its pending wrap dropped.
pub open spec fn clamped_cursor(c: Cursor, cols: int, rows: int) -> Cursor {
    Cursor {
        x: if c.x < cols { c.x } else { (cols - 1) as usize },
        y: if c.y < rows { c.y } else { (rows - 1) as usize },
        pending_wrap: false,
    }
}

/// A screen cut or padded to `cols` x `rows` without rewrapping.
pub open spec fn fit_screen(s: Seq<LineView>, cols: nat, rows: nat) -> Seq<LineView> {
    Seq::new(rows, |y: int| if y < s.len() {
        LineView { cells: fit_cells(s[y].cells, cols, default_cell()), wrapped: s[y].wrapped }
    } else {
        default_line_view(cols)
    })
}

/// Whether a row holds anything a rewrap must keep: a soft wrap, or a cell
/// that is not default.
pub open spec fn row_has_content(l: LineView) -> bool {
    l.wrapped || exists|x: int| 0 <= x < l.cells.len() && l.cells[x] != default_cell()
}

/// The last of the first `n` rows with content, or 0 when none has.
pub open spec fn last_content(screen: Seq<LineView>, n: int) -> int
    decreases n,
{
    if n <= 0 { 0 } else if row_has_content(screen[n - 1]) { n - 1 } else { last_content(screen, n - 1) }
}

/// The last screen row a rewrap takes: the last with content, or the
/// cursor's row when that is lower; blank rows below are regenerated.
pub open spec fn content_bottom(b: Buffer) -> int {
    let cy = if b.cursor.y < b.rows - 1 { b.cursor.y as int } else { b.rows - 1 };
    let lc = last_content(b.screen(), b.rows as int);
    if cy > lc { cy } else { lc }
}

/// The physical rows a rewrap works on: the history, then the screen down
/// to `content_bottom`.
pub open spec fn rewrap_phys(hist: Seq<LineView>, b: Buffer) -> Seq<LineView> {
    hist + b.screen().take(content_bottom(b) + 1)
}

/// The cursor's row within `rewrap_phys`.
pub open spec fn rewrap_cursor_row(hist: Seq<LineView>, b: Buffer) -> int {
    hist.len() + if (b.cursor.y as int) < content_bottom(b) { b.cursor.y as int } else { content_bottom(b) }
}

/// The rewrapped stream at `cols`.
pub open spec fn rewrapped(hist: Seq<LineView>, b: Buffer, cols: int) -> Seq<LineView> {
    crate::reflow::reflow_rows(rewrap_phys(hist, b), rewrap_cursor_row(hist, b), b.cursor.x as int, cols)
}

/// How many rewrapped rows go to the history: all but the last `rows`.
pub open spec fn rewrap_split(total: int, rows: int) -> int {
    if total <= rows { 0 } else { total - rows }
}

/// The history after a rewrap: the rows above the screen, the oldest
/// dropped beyond `max`.
pub open spec fn rewrap_history(hist: Seq<LineView>, b: Buffer, cols: int, rows: int, max: int) -> Seq<LineView> {
    let out = rewrapped(hist, b, cols);
    let split = rewrap_split(out.len() as int, rows);
    out.subrange(if split > max { split - max } else { 0 }, split)
}

/// The screen after a rewrap: the last `rows` rewrapped rows (blank rows
/// below when there are fewer).
pub open spec fn rewrap_screen(hist: Seq<LineView>, b: Buffer, cols: int, rows: int) -> Seq<LineView> {
    let out = rewrapped(hist, b, cols);
    let split = rewrap_split(out.len() as int, rows);
    Seq::new(rows as nat, |y: int| if split + y < out.len() { out[split + y] } else { default_line_view(cols as nat) })
}

/// The cursor after a rewrap: on the same character, moved into the new
/// screen (its top row when the character went into the history).
pub open spec fn rewrap_cursor(hist: Seq<LineView>, b: Buffer, cols: int, rows: int) -> Cursor {
    let out = rewrapped(hist, b, cols);
    let rc = crate::reflow::reflow_cursor(rewrap_phys(hist, b), rewrap_cursor_row(hist, b), b.cursor.x as int, cols);
    let split = rewrap_split(out.len() as int, rows);
    let y = if out.len() <= rows {
        if rc.0 < rows - 1 { rc.0 } else { rows - 1 }
    } else if rc.0 >= split {
        rc.0 - split
    } else {
        0
    };
    Cursor { x: rc.1 as usize, y: y as usize, pending_wrap: false }
}

/// Rewrap `primary` and its `scrollback` to `new_cols` x `new_rows` (both at
/// least 1), moving rows between screen and scrollback as the geometry
/// changes and keeping the cursor on the same character (see
/// `rewrap_history`, `rewrap_screen`, `rewrap_cursor`).
fn reflow_buffer(primary: &mut Buffer, scrollback: &mut VecDeque<Line>, max_scrollback: usize, new_cols: usize, new_rows: usize)
    requires
        old(primary).wf(),
        old(scrollback)@.len() <= max_scrollback,
        new_cols >= 1,
        new_rows >= 1,
    ensures
        final(primary).wf(),
        final(primary).cols == new_cols,
        final(primary).rows == new_rows,
        final(scrollback)@.len() <= max_scrollback,
        line_views(final(scrollback)@) == rewrap_history(line_views(old(scrollback)@), *old(primary), new_cols as int,
            new_rows as int, max_scrollback as int),
        final(primary).screen() == rewrap_screen(line_views(old(scrollback)@), *old(primary), new_cols as int, new_rows as int),
        final(primary).cursor == rewrap_cursor(line_views(old(scrollback)@), *old(primary), new_cols as int, new_rows as int),
        final(primary).saved == old(primary).saved,
        final(primary).redrawn_whole(),
{
    let ghost hist = line_views(scrollback@);
    let ghost b0 = *primary;
    let old_rows = primary.rows;
    let cursor = primary.cursor;
    // The last row with content (a non-default cell or a soft-wrap flag);
    // blank rows below it and the cursor are regenerated, not reflowed.
    let mut last_row: usize = 0;
    let mut y: usize = 0;
    while y < old_rows
        invariant
            primary.wf(),
            *primary == b0,
            old_rows == primary.rows,
            last_row < old_rows,
            y <= old_rows,
            last_row == last_content(b0.screen(), y as int),
        decreases old_rows - y,
    {
        let line = primary.line(y);
        assert(line@ == b0.screen()[y as int]);
        let mut found = line.wrapped;
        let mut x: usize = 0;
        while x < line.cells.len() && !found
            invariant
                x <= line.cells@.len(),
                found == (line.wrapped || exists|x1: int| 0 <= x1 < x && line.cells@[x1] != default_cell()),
            decreases line.cells.len() - x,
        {
            if line.cells[x] != Cell::empty() {
                found = true;
            }
            x = x + 1;
        }
        assert(found == row_has_content(line@));
        if found {
            last_row = y;
        }
        y = y + 1;
    }
    let cy0 = if cursor.y < old_rows - 1 { cursor.y } else { old_rows - 1 };
    let bottom = if cy0 > last_row { cy0 } else { last_row };
    assert(bottom == content_bottom(b0));
    // The physical stream: scrollback (drained) then the screen rows.
    let mut phys: Vec<Line> = Vec::new();
    let ghost sb0 = scrollback@;
    while scrollback.len() > 0
        invariant
            line_views(phys@) + line_views(scrollback@) == hist,
        decreases scrollback.len(),
    {
        let ghost before = scrollback@;
        match scrollback.pop_front() {
            Some(l) => {
                proof { lemma_line_views_push(phys@, l); }
                phys.push(l);
                assert(line_views(before) =~= seq![l@] + line_views(scrollback@));
                assert(line_views(phys@) + line_views(scrollback@) =~= hist);
            },
            None => {},
        }
    }
    assert(line_views(phys@) =~= hist);
    let sb_before = phys.len();
    let mut r: usize = 0;
    while r <= bottom
        invariant
            primary.wf(),
            *primary == b0,
            bottom < primary.rows,
            r <= bottom + 1,
            sb_before == hist.len(),
            line_views(phys@) == hist + b0.screen().take(r as int),
        decreases bottom + 1 - r,
    {
        let l = primary.line(r).clone();
        proof { lemma_line_views_push(phys@, l); }
        phys.push(l);
        r = r + 1;
        assert(line_views(phys@) =~= hist + b0.screen().take(r as int));
    }
    let plen = phys.len();
    assert(line_views(phys@) == rewrap_phys(hist, b0));
    let cursor_row = if cursor.y < bottom { sb_before + cursor.y } else { sb_before + bottom };
    let re = crate::reflow::reflow(phys.as_slice(), cursor_row, cursor.x, new_cols);
    let ghost out = line_views(re.rows@);
    assert(out == rewrapped(hist, b0, new_cols as int));
    let total = re.rows.len();
    let mut rows = re.rows;
    let (grid, cy) = if total <= new_rows {
        let c = if re.cursor_row < new_rows - 1 { re.cursor_row } else { new_rows - 1 };
        let g = rows;
        rows = Vec::new();
        (g, c)
    } else {
        let split = total - new_rows;
        let g = rows.split_off(split);
        let c = if re.cursor_row >= split { re.cursor_row - split } else { 0 };
        (g, c)
    };
    let ghost split = rewrap_split(out.len() as int, new_rows as int);
    assert(line_views(rows@) =~= out.subrange(0, split));
    assert(line_views(grid@) =~= out.subrange(split, out.len() as int));
    scrollback.clear();
    let ghost sbrows = line_views(rows@);
    let mut k: usize = 0;
    while k < rows.len()
        invariant
            k <= rows@.len(),
            sbrows == line_views(rows@),
            scrollback@.len() <= max_scrollback,
            line_views(scrollback@) == sbrows.subrange(if k > max_scrollback { k - max_scrollback } else { 0 }, k as int),
        decreases rows.len() - k,
    {
        let l = rows[k].clone();
        let ghost before = scrollback@;
        scrollback.push_back(l);
        proof {
            assert(line_views(scrollback@) =~= line_views(before).push(l@));
        }
        if scrollback.len() > max_scrollback {
            let ghost b2 = scrollback@;
            scrollback.pop_front();
            assert(line_views(scrollback@) =~= line_views(b2).subrange(1, b2.len() as int));
        }
        k = k + 1;
        assert(line_views(scrollback@) =~= sbrows.subrange(if k > max_scrollback { k - max_scrollback } else { 0 }, k as int));
    }
    assert(forall|j: int| 0 <= j < grid@.len() ==> (#[trigger] grid@[j])@.cells.len() == new_cols) by {
        assert forall|j: int| 0 <= j < grid@.len() implies (#[trigger] grid@[j])@.cells.len() == new_cols by {
            assert(grid@[j]@ == out[split + j]);
        }
    }
    primary.set_grid(new_cols, new_rows, grid, re.cursor_col, cy);
    assert(primary.screen() =~= rewrap_screen(hist, b0, new_cols as int, new_rows as int)) by {
        assert forall|yy: int| 0 <= yy < new_rows implies #[trigger] primary.screen()[yy]
            == rewrap_screen(hist, b0, new_cols as int, new_rows as int)[yy] by {
            if yy < grid@.len() {
                assert(grid@[yy]@ == out[split + yy]);
                assert(fit_cells(grid@[yy]@.cells, new_cols as nat, default_cell()) =~= grid@[yy]@.cells);
            }
        }
    }
}

impl Terminal {
    /// Resize to `cols` x `rows` (0 is taken as 1). The primary screen and its
    /// scrollback are rewrapped as one stream; the alternate screen is only
    /// cut or padded, since the full-screen programs using it repaint. The
    /// viewport returns to the bottom.
    pub fn resize(&mut self, cols: usize, rows: usize)
        requires
            old(self).wf(),
        ensures
            final(self).wf(),
            final(self).spec_cols() == if cols == 0 { 1 } else { cols },
            final(self).spec_rows() == if rows == 0 { 1 } else { rows },
            (final(self).spec_cols() != old(self).spec_cols() || final(self).spec_rows() != old(self).spec_rows())
                ==> final(self).spec_display_offset() == 0 && final(self).spec_viewport_full(),
            final(self).spec_cols() == old(self).spec_cols() && final(self).spec_rows() == old(self).spec_rows()
                ==> *final(self) == *old(self),
            final(self).spec_alt_active() == old(self).spec_alt_active(),
            (final(self).spec_cols() != old(self).spec_cols() || final(self).spec_rows() != old(self).spec_rows()) ==> {
                let c = final(self).spec_cols() as int;
                let r = final(self).spec_rows() as int;
                &&& final(self).history() == rewrap_history(old(self).history(), old(self).primary_buffer(), c, r,
                    old(self).spec_max_scrollback() as int)
                &&& final(self).primary_buffer().screen() == rewrap_screen(old(self).history(), old(self).primary_buffer(), c, r)
                &&& final(self).primary_buffer().cursor == rewrap_cursor(old(self).history(), old(self).primary_buffer(), c, r)
                &&& final(self).alternate_buffer().screen() == fit_screen(old(self).alternate_buffer().screen(),
                    c as nat, r as nat)
                &&& final(self).alternate_buffer().cursor == clamped_cursor(old(self).alternate_buffer().cursor, c, r)
                &&& final(self).alternate_buffer().saved == old(self).alternate_buffer().saved
                &&& final(self).primary_buffer().saved == old(self).primary_buffer().saved
                &&& final(self).alternate_buffer().redrawn_whole()
                &&& final(self).primary_buffer().redrawn_whole()
            },
            final(self).same_except_layout(old(self)),
    {
        let cols = if cols == 0 { 1 } else { cols };
        let rows = if rows == 0 { 1 } else { rows };
        if cols == self.screen.cols && rows == self.screen.rows {
            return;
        }
        if self.alt_active {
            self.screen.resize(cols, rows);
            reflow_buffer(&mut self.other, &mut self.scrollback, self.max_scrollback, cols, rows);
        } else {
            self.other.resize(cols, rows);
            reflow_buffer(&mut self.screen, &mut self.scrollback, self.max_scrollback, cols, rows);
        }
        self.display_offset = 0;
        self.viewport_full = true;
    }
}

/// The six snapshot words of a cell: `[codepoint, fg, bg, flags, link, grapheme]`.
pub open spec fn cell_words(c: Cell) -> Seq<u32> {
    seq![c.ch as u32, packed_color(c.pen.fg), packed_color(c.pen.bg), c.pen.flags as u32, c.link, c.grapheme]
}

/// The words of the first `n` columns of a row (missing cells are default).
pub open spec fn line_words(cells: Seq<Cell>, n: int) -> Seq<u32>
    decreases n,
{
    if n <= 0 {
        Seq::empty()
    } else {
        line_words(cells, n - 1) + cell_words(if n - 1 < cells.len() { cells[n - 1] } else { default_cell() })
    }
}

/// Cell `x` of a row, or a default cell past its end.
pub open spec fn cell_or_default(cells: Seq<Cell>, x: int) -> Cell {
    if x < cells.len() { cells[x] } else { default_cell() }
}

pub proof fn lemma_line_words_len(cells: Seq<Cell>, n: int)
    requires
        0 <= n,
    ensures
        line_words(cells, n).len() == 6 * n,
    decreases n,
{
    if n > 0 {
        lemma_line_words_len(cells, n - 1);
    }
}

/// Word `j` of cell `x` among the first `n` columns of a row.
pub proof fn lemma_line_words_at(cells: Seq<Cell>, n: int, x: int, j: int)
    requires
        0 <= x < n,
        0 <= j < 6,
    ensures
        line_words(cells, n)[6 * x + j] == cell_words(cell_or_default(cells, x))[j],
    decreases n,
{
    lemma_line_words_len(cells, n - 1);
    if x < n - 1 {
        lemma_line_words_at(cells, n - 1, x, j);
    }
}

fn push_line(out: &mut Vec<u32>, line: &Line, cols: usize)
    ensures
        final(out)@ == old(out)@ + line_words(line@.cells, cols as int),
{
    let ghost start = out@;
    let mut x: usize = 0;
    assert(line_words(line@.cells, 0) =~= Seq::<u32>::empty());
    assert(out@ =~= start + line_words(line@.cells, 0));
    while x < cols
        invariant
            x <= cols,
            out@ == start + line_words(line@.cells, x as int),
        decreases cols - x,
    {
        let c = if x < line.cells.len() { line.cells[x] } else { Cell::empty() };
        out.push(c.ch as u32);
        out.push(c.pen.fg.pack());
        out.push(c.pen.bg.pack());
        out.push(c.pen.flags as u32);
        out.push(c.link);
        out.push(c.grapheme);
        x = x + 1;
        assert(out@ =~= start + line_words(line@.cells, x as int));
    }
}

impl Terminal {
    /// Row `y` of the viewport: history while scrolled back, else the screen.
    pub closed spec fn view_row(&self, y: int) -> LineView {
        let off = self.display_offset as int;
        let back = self.scrollback@.len() as int;
        if y < off { self.scrollback@[back - off + y]@ } else { self.screen.lines@[y - off]@ }
    }

    /// Whether viewport row `y` is re-emitted: forced, a full redraw is due,
    /// or (at the bottom) the screen row is dirty.
    pub closed spec fn row_emitted(&self, force: bool, y: int) -> bool {
        force || self.viewport_full || (self.display_offset == 0 && self.screen.dirty@[y])
    }

    /// The row records of viewport rows `0..n`: `[y, cells...]` for each
    /// emitted row.
    pub closed spec fn rows_words(&self, force: bool, n: int) -> Seq<u32>
        decreases n,
    {
        if n <= 0 {
            Seq::empty()
        } else {
            self.rows_words(force, n - 1) + if self.row_emitted(force, n - 1) {
                seq![(n - 1) as u32] + line_words(self.view_row(n - 1).cells, self.screen.cols as int)
            } else {
                Seq::empty()
            }
        }
    }

    /// How many of viewport rows `0..n` are emitted.
    pub closed spec fn rows_emitted(&self, force: bool, n: int) -> int
        decreases n,
    {
        if n <= 0 { 0 } else { self.rows_emitted(force, n - 1) + if self.row_emitted(force, n - 1) { 1int } else { 0 } }
    }

    /// Cursor flags: 1 visible, 2 blinking, 4 on the visible screen.
    pub closed spec fn cursor_flags(&self) -> u32 {
        ((if self.modes.cursor_visible { 1int } else { 0 }) + (if self.modes.cursor_blink { 2int } else { 0 })
            + (if self.display_offset == 0 { 4int } else { 0 })) as u32
    }

    /// The render snapshot: `[MAGIC, cols, rows, cur_x, cur_y, cur_flags,
    /// n_rows]`, then for each emitted row `[row, cell*cols]`.
    pub closed spec fn snapshot_words(&self, force: bool) -> Seq<u32> {
        seq![SNAPSHOT_MAGIC, self.screen.cols as u32, self.screen.rows as u32, self.screen.cursor.x as u32,
            self.screen.cursor.y as u32, self.cursor_flags(), self.rows_emitted(force, self.screen.rows as int) as u32]
            + self.rows_words(force, self.screen.rows as int)
    }

    /// The header of a snapshot, then the row records.
    pub proof fn lemma_snapshot_layout(&self, force: bool)
        ensures
            self.snapshot_words(force) == seq![SNAPSHOT_MAGIC, self.spec_cols() as u32, self.spec_rows() as u32,
                self.active().cursor.x as u32, self.active().cursor.y as u32, self.cursor_flags(),
                self.rows_emitted(force, self.spec_rows() as int) as u32] + self.rows_words(force, self.spec_rows() as int),
    {
    }

    /// A forced snapshot emits every viewport row, each as its index and
    /// six words per column.
    pub proof fn lemma_forced_rows(&self, n: int)
        requires
            0 <= n,
        ensures
            self.rows_emitted(true, n) == n,
            self.rows_words(true, n).len() == n * (6 * self.spec_cols() + 1),
        decreases n,
    {
        if n > 0 {
            self.lemma_forced_rows(n - 1);
            lemma_line_words_len(self.view_row(n - 1).cells, self.screen.cols as int);
            assert(n * (6 * self.spec_cols() + 1) == (n - 1) * (6 * self.spec_cols() + 1) + 6 * self.spec_cols() + 1)
                by (nonlinear_arith);
        }
    }

    /// Word `j` of cell `x` of row `y` in a forced snapshot's row records,
    /// and the row index heading the record.
    pub proof fn lemma_forced_word(&self, n: int, y: int, x: int, j: int)
        requires
            0 <= y < n,
            0 <= x < self.spec_cols(),
            0 <= j < 6,
        ensures
            self.rows_words(true, n)[y * (6 * self.spec_cols() + 1)] == y as u32,
            self.rows_words(true, n)[y * (6 * self.spec_cols() + 1) + 1 + 6 * x + j]
                == cell_words(cell_or_default(self.view_row(y).cells, x))[j],
        decreases n,
    {
        let c = self.spec_cols() as int;
        self.lemma_forced_rows(n - 1);
        let pre = self.rows_words(true, n - 1);
        let rec = seq![(n - 1) as u32] + line_words(self.view_row(n - 1).cells, c);
        assert(self.rows_words(true, n) == pre + rec);
        assert(y * (6 * c + 1) + 1 + 6 * x + j < (y + 1) * (6 * c + 1)) by (nonlinear_arith)
            requires
                0 <= x < c,
                0 <= j < 6,
        ;
        if y < n - 1 {
            self.lemma_forced_word(n - 1, y, x, j);
            assert((y + 1) * (6 * c + 1) <= (n - 1) * (6 * c + 1)) by (nonlinear_arith)
                requires
                    y + 1 <= n - 1,
                    c >= 0,
            ;
        } else {
            lemma_line_words_len(self.view_row(n - 1).cells, c);
            lemma_line_words_at(self.view_row(n - 1).cells, c, x, j);
        }
    }

    /// The viewport row heading row record `k` of a snapshot.
    pub open spec fn record_row(&self, force: bool, k: int) -> u32 {
        self.snapshot_words(force)[7 + k * (6 * self.spec_cols() + 1)]
    }

    spec fn head(&self, force: bool, n: int, k: int) -> u32 {
        self.rows_words(force, n)[k * (6 * self.screen.cols + 1)]
    }

    proof fn lemma_records(&self, force: bool, n: int)
        requires
            0 <= n <= self.screen.rows,
            self.screen.rows <= u32::MAX,
        ensures
            0 <= self.rows_emitted(force, n) <= n,
            self.rows_words(force, n).len() == self.rows_emitted(force, n) * (6 * self.screen.cols + 1),
            forall|k: int| 0 <= k < self.rows_emitted(force, n) ==> #[trigger] self.head(force, n, k) < n,
            forall|k1: int, k2: int| 0 <= k1 < k2 < self.rows_emitted(force, n)
                ==> #[trigger] self.head(force, n, k1) < #[trigger] self.head(force, n, k2),
        decreases n,
    {
        if n > 0 {
            self.lemma_records(force, n - 1);
            let c = self.screen.cols as int;
            let e = self.rows_emitted(force, n - 1);
            let pre = self.rows_words(force, n - 1);
            assert(e * (6 * c + 1) >= 0) by (nonlinear_arith)
                requires
                    e >= 0,
                    c >= 0,
            ;
            if self.row_emitted(force, n - 1) {
                let rec = seq![(n - 1) as u32] + line_words(self.view_row(n - 1).cells, c);
                lemma_line_words_len(self.view_row(n - 1).cells, c);
                assert(self.rows_words(force, n) == pre + rec);
                assert((e + 1) * (6 * c + 1) == e * (6 * c + 1) + 6 * c + 1) by (nonlinear_arith);
                assert(self.head(force, n, e) == (n - 1) as u32);
                assert forall|k: int| 0 <= k < e implies #[trigger] self.head(force, n, k) == self.head(force, n - 1, k) by {
                    assert(k * (6 * c + 1) + 1 <= e * (6 * c + 1)) by (nonlinear_arith)
                        requires
                            0 <= k < e,
                            c >= 0,
                    ;
                }
                assert forall|k: int| 0 <= k < e + 1 implies #[trigger] self.head(force, n, k) < n by {
                    if k < e {
                        assert(self.head(force, n, k) == self.head(force, n - 1, k));
                    }
                }
                assert forall|k1: int, k2: int| 0 <= k1 < k2 < e + 1
                    implies #[trigger] self.head(force, n, k1) < #[trigger] self.head(force, n, k2) by {
                    assert(self.head(force, n, k1) == self.head(force, n - 1, k1));
                    if k2 < e {
                        assert(self.head(force, n, k2) == self.head(force, n - 1, k2));
                    }
                }
            } else {
                assert(self.rows_words(force, n) =~= pre);
                assert forall|k: int| 0 <= k < e implies #[trigger] self.head(force, n, k) == self.head(force, n - 1, k) by {
                }
            }
        }
    }

    /// The whole layout of a snapshot: the seven header words, word 6
    /// counting the row records that follow (every viewport row when
    /// forced, at most all of them otherwise), each record `1 + 6 * cols`
    /// words headed by its viewport row, the rows strictly increasing.
    pub proof fn lemma_snapshot_shape(&self, force: bool)
        requires
            self.wf(),
            self.spec_rows() <= u32::MAX,
        ensures
            ({
                let w = self.snapshot_words(force);
                let e = self.rows_emitted(force, self.spec_rows() as int);
                &&& 0 <= e <= self.spec_rows()
                &&& force ==> e == self.spec_rows()
                &&& w[1] == self.spec_cols() as u32
                &&& w[2] == self.spec_rows() as u32
                &&& w[6] == e as u32
                &&& w.len() == 7 + e * (6 * self.spec_cols() + 1)
                &&& forall|k: int| 0 <= k < e ==> #[trigger] self.record_row(force, k) < self.spec_rows()
                &&& forall|k1: int, k2: int| 0 <= k1 < k2 < e
                    ==> #[trigger] self.record_row(force, k1) < #[trigger] self.record_row(force, k2)
            }),
    {
        let n = self.screen.rows as int;
        let c = self.screen.cols as int;
        self.lemma_records(force, n);
        if force {
            self.lemma_forced_rows(n);
        }
        let e = self.rows_emitted(force, n);
        let hdr = seq![SNAPSHOT_MAGIC, self.screen.cols as u32, self.screen.rows as u32, self.screen.cursor.x as u32,
            self.screen.cursor.y as u32, self.cursor_flags(), e as u32];
        let body = self.rows_words(force, n);
        assert(self.snapshot_words(force) == hdr + body);
        assert forall|k: int| 0 <= k < e implies #[trigger] self.record_row(force, k) == self.head(force, n, k) by {
            assert(k * (6 * c + 1) + 1 <= e * (6 * c + 1)) by (nonlinear_arith)
                requires
                    0 <= k < e,
                    c >= 0,
            ;
        }
        assert forall|k1: int, k2: int| 0 <= k1 < k2 < e
            implies #[trigger] self.record_row(force, k1) < #[trigger] self.record_row(force, k2) by {
            assert(self.record_row(force, k1) == self.head(force, n, k1));
            assert(self.record_row(force, k2) == self.head(force, n, k2));
        }
    }

    /// `self` is `o` after a snapshot: all dirty state consumed, nothing else
    /// changed.
    pub closed spec fn snapshot_taken(&self, o: &Terminal) -> bool {
        &&& *self == (Terminal { screen: self.screen, other: self.other, viewport_full: false, ..*o })
        &&& self.screen.lines == o.screen.lines
        &&& self.screen.same_frame(&o.screen)
        &&& self.screen.dirty@ == Seq::new(o.screen.rows as nat, |_i: int| false)
        &&& self.other.lines == o.other.lines
        &&& self.other.same_frame(&o.other)
        &&& self.other.dirty@ == Seq::new(o.other.rows as nat, |_i: int| false)
    }

    /// A snapshot consumes the changes: with no input in between, the next
    /// incremental snapshot is the header alone, emitting no rows.
    pub proof fn lemma_snapshot_consumes(&self, o: &Terminal)
        requires
            o.wf(),
            self.snapshot_taken(o),
        ensures
            self.snapshot_words(false).len() == 7,
            self.snapshot_words(false)[6] == 0,
    {
        self.lemma_no_rows_emitted(self.screen.rows as int);
    }

    proof fn lemma_no_rows_emitted(&self, n: int)
        requires
            !self.viewport_full,
            forall|y: int| 0 <= y < n ==> !self.screen.dirty@[y],
        ensures
            self.rows_emitted(false, n) == 0,
            self.rows_words(false, n) == Seq::<u32>::empty(),
        decreases n,
    {
        if n > 0 {
            self.lemma_no_rows_emitted(n - 1);
            assert(self.rows_words(false, n - 1) + Seq::<u32>::empty() =~= Seq::<u32>::empty());
        }
    }

    /// Produce a render snapshot (see `snapshot_words`). When `force` is true
    /// (or the viewport changed) every row is emitted; otherwise only dirty
    /// rows are. Consumes the dirty state.
    pub fn snapshot(&mut self, force: bool) -> (out: Vec<u32>)
        requires
            old(self).wf(),
        ensures
            final(self).wf(),
            out@ == old(self).snapshot_words(force),
            final(self).snapshot_taken(old(self)),
    {
        let mut out: Vec<u32> = Vec::new();
        self.snapshot_into(force, &mut out);
        out
    }

    /// Like `snapshot`, but fills a caller-provided buffer (cleared first) so
    /// its capacity is reused across frames.
    #[verifier::spinoff_prover]
    #[verifier::rlimit(50)]
    pub fn snapshot_into(&mut self, force: bool, out: &mut Vec<u32>)
        requires
            old(self).wf(),
        ensures
            final(self).wf(),
            final(out)@ == old(self).snapshot_words(force),
            final(self).snapshot_taken(old(self)),
    {
        let cols = self.screen.cols;
        let rows = self.screen.rows;
        let back = self.scrollback.len();
        let offset = self.display_offset;
        let all = force || self.viewport_full;
        out.clear();
        out.push(SNAPSHOT_MAGIC);
        out.push(cols as u32);
        out.push(rows as u32);
        out.push(self.screen.cursor.x as u32);
        out.push(self.screen.cursor.y as u32);
        let mut cflags: u32 = 0;
        if self.modes.cursor_visible {
            cflags = cflags + 1;
        }
        if self.modes.cursor_blink {
            cflags = cflags + 2;
        }
        if offset == 0 {
            cflags = cflags + 4;
        }
        out.push(cflags);
        out.push(0);
        let ghost head = out@;
        let mut n: usize = 0;
        let mut y: usize = 0;
        assert(out@ =~= head + self.rows_words(force, 0));
        while y < rows
            invariant
                self.wf(),
                *self == *old(self),
                rows == self.screen.rows,
                cols == self.screen.cols,
                back == self.scrollback@.len(),
                offset == self.display_offset,
                all == (force || self.viewport_full),
                head.len() == 7,
                y <= rows,
                out@ == head + self.rows_words(force, y as int),
                n == self.rows_emitted(force, y as int),
                n <= y,
            decreases rows - y,
        {
            let dirty = all || (offset == 0 && self.screen.is_dirty(y));
            if dirty {
                out.push(y as u32);
                if y < offset {
                    push_line(out, &self.scrollback[back - offset + y], cols);
                } else {
                    push_line(out, self.screen.line(y - offset), cols);
                }
                n = n + 1;
            }
            y = y + 1;
            assert(out@ =~= head + self.rows_words(force, y as int));
        }
        let ghost body = self.rows_words(force, rows as int);
        out.set(6, n as u32);
        assert(out@ =~= old(self).snapshot_words(force));
        self.screen.clear_dirty();
        self.other.clear_dirty();
        self.viewport_full = false;
    }
}

/// Unicode `White_Space` (what `char::is_whitespace` tests).
pub open spec fn is_ws_char(c: char) -> bool {
    let u = c as u32;
    (0x09 <= u <= 0x0d) || u == 0x20 || u == 0x85 || u == 0xa0 || u == 0x1680 || (0x2000 <= u <= 0x200a)
        || u == 0x2028 || u == 0x2029 || u == 0x202f || u == 0x205f || u == 0x3000
}

fn is_ws(c: char) -> (b: bool)
    ensures
        b == is_ws_char(c),
{
    let u = c as u32;
    (0x09 <= u && u <= 0x0d) || u == 0x20 || u == 0x85 || u == 0xa0 || u == 0x1680 || (0x2000 <= u && u <= 0x200a)
        || u == 0x2028 || u == 0x2029 || u == 0x202f || u == 0x205f || u == 0x3000
}

/// `s` without trailing whitespace (`str::trim_end`).
pub open spec fn trim_end_chars(s: Seq<char>) -> Seq<char>
    decreases s.len(),
{
    if s.len() > 0 && is_ws_char(s.last()) { trim_end_chars(s.drop_last()) } else { s }
}

/// `s` without trailing spaces.
pub open spec fn strip_spaces(s: Seq<char>) -> Seq<char>
    decreases s.len(),
{
    if s.len() > 0 && s.last() == ' ' { strip_spaces(s.drop_last()) } else { s }
}

/// Stripping twice strips nothing more.
pub proof fn lemma_strip_spaces_idem(s: Seq<char>)
    ensures
        strip_spaces(strip_spaces(s)) == strip_spaces(s),
        strip_spaces(s).len() > 0 ==> strip_spaces(s).last() != ' ',
    decreases s.len(),
{
    if s.len() > 0 && s.last() == ' ' {
        lemma_strip_spaces_idem(s.drop_last());
    }
}

pub open spec fn is_spacer_cell(c: Cell) -> bool {
    c.pen.flags & attr::WIDE_SPACER != 0
}

/// The characters of `cells`, wide-glyph spacer cells skipped.
pub open spec fn visible_chars(cells: Seq<Cell>) -> Seq<char>
    decreases cells.len(),
{
    if cells.len() == 0 {
        Seq::empty()
    } else {
        visible_chars(cells.drop_last()) + if is_spacer_cell(cells.last()) { Seq::<char>::empty() } else { seq![cells.last().ch] }
    }
}

/// The selected part of one row: columns `x0..=x1`, cut to the row.
pub open spec fn row_segment(cells: Seq<Cell>, x0: int, x1: int) -> Seq<char> {
    let hi = if x1 < cells.len() - 1 { x1 } else { cells.len() - 1 };
    if cells.len() == 0 || x0 > hi { Seq::empty() } else { visible_chars(cells.subrange(x0, hi + 1)) }
}

/// Lines joined with `\n`.
pub open spec fn join_lines(lines: Seq<Seq<char>>) -> Seq<char>
    decreases lines.len(),
{
    if lines.len() == 0 {
        Seq::empty()
    } else if lines.len() == 1 {
        lines[0]
    } else {
        join_lines(lines.drop_last()) + seq!['\n'] + lines.last()
    }
}

/// Collect the visible characters of `cells[lo..hi]` into `out`.
fn push_visible(out: &mut Vec<char>, cells: &Vec<Cell>, lo: usize, hi: usize)
    requires
        lo <= hi <= cells@.len(),
    ensures
        final(out)@ == old(out)@ + visible_chars(cells@.subrange(lo as int, hi as int)),
{
    let ghost start = out@;
    let mut x = lo;
    assert(cells@.subrange(lo as int, lo as int) =~= Seq::<Cell>::empty());
    while x < hi
        invariant
            lo <= x <= hi <= cells@.len(),
            out@ == start + visible_chars(cells@.subrange(lo as int, x as int)),
        decreases hi - x,
    {
        let c = cells[x];
        if c.pen.flags & attr::WIDE_SPACER == 0 {
            out.push(c.ch);
        }
        x = x + 1;
        assert(cells@.subrange(lo as int, x as int).drop_last() =~= cells@.subrange(lo as int, x - 1));
        assert(out@ =~= start + visible_chars(cells@.subrange(lo as int, x as int)));
    }
}

impl Terminal {
    /// Logical line `abs` (0 = oldest scrollback line); indices past the end
    /// clamp to the last screen row.
    pub closed spec fn line_at_spec(&self, abs: int) -> LineView {
        let back = self.scrollback@.len() as int;
        if abs < back {
            self.scrollback@[abs]@
        } else {
            let r = abs - back;
            self.screen.lines@[if r < self.screen.rows - 1 { r } else { self.screen.rows - 1 }]@
        }
    }

    fn line_at(&self, abs: usize) -> (l: &Line)
        requires
            self.wf(),
        ensures
            l@ == self.line_at_spec(abs as int),
    {
        let back = self.scrollback.len();
        if abs < back {
            &self.scrollback[abs]
        } else {
            let r = abs - back;
            let rows = self.screen.rows;
            self.screen.line(if r < rows - 1 { r } else { rows - 1 })
        }
    }

    /// Text of logical line `abs` (0 = oldest scrollback line): wide-glyph
    /// spacer cells are skipped and trailing whitespace trimmed.
    pub fn line_text(&self, abs: usize) -> (s: String)
        requires
            self.wf(),
        ensures
            s@ == trim_end_chars(visible_chars(self.line_at_spec(abs as int).cells)),
    {
        let line = self.line_at(abs);
        let mut v: Vec<char> = Vec::new();
        push_visible(&mut v, &line.cells, 0, line.cells.len());
        assert(line@.cells.subrange(0, line@.cells.len() as int) =~= line@.cells);
        let ghost full = v@;
        while v.len() > 0 && is_ws(v[v.len() - 1])
            invariant
                trim_end_chars(full) == trim_end_chars(v@),
            decreases v.len(),
        {
            let ghost before = v@;
            v.pop();
            assert(v@ =~= before.drop_last());
        }
        string_from_chars(&v)
    }

    /// The selected text of one logical line, trailing spaces stripped.
    pub closed spec fn selected_row(&self, abs: int, sx: int, sy: int, ex: int, ey: int) -> Seq<char> {
        let x0 = if abs == sy { sx } else { 0 };
        let x1 = if abs == ey { ex } else { usize::MAX as int };
        strip_spaces(row_segment(self.line_at_spec(abs).cells, x0, x1))
    }

    /// The selected rows `sy..sy+k`.
    pub closed spec fn selected_rows(&self, sx: int, sy: int, ex: int, ey: int, k: int) -> Seq<Seq<char>>
        decreases k,
    {
        if k <= 0 {
            Seq::empty()
        } else {
            self.selected_rows(sx, sy, ex, ey, k - 1).push(self.selected_row(sy + k - 1, sx, sy, ex, ey))
        }
    }

    /// The text of a flow selection between `(col, line)` endpoints `a` and
    /// `b` (line 0 = oldest scrollback), put in reading order.
    pub closed spec fn selection_spec(&self, a: (usize, usize), b: (usize, usize)) -> Seq<char> {
        let (s, e) = if a.1 < b.1 || (a.1 == b.1 && a.0 <= b.0) { (a, b) } else { (b, a) };
        let total = self.scrollback@.len() + self.screen.rows;
        let last = if total > usize::MAX { usize::MAX as int } else { total - 1 };
        let end = if (e.1 as int) < last { e.1 as int } else { last };
        let k = if (s.1 as int) <= end { end - s.1 + 1 } else { 0 };
        join_lines(self.selected_rows(s.0 as int, s.1 as int, e.0 as int, e.1 as int, k))
    }

    /// Extract the text of a flow selection given absolute `(col, line)`
    /// endpoints (line 0 = oldest scrollback). The endpoints are put in
    /// reading order; the first line is taken from its start column, the last
    /// up to its end column, whole lines in between. Wide-glyph spacer cells
    /// are skipped, trailing blanks trimmed per line, and lines joined with
    /// `\n`. The selection may span history, not just the visible screen.
    #[verifier::spinoff_prover]
    #[verifier::rlimit(50)]
    pub fn selection_text(&self, a: (usize, usize), b: (usize, usize)) -> (s: String)
        requires
            self.wf(),
        ensures
            s@ == self.selection_spec(a, b),
    {
        let (s, e) = if a.1 < b.1 || (a.1 == b.1 && a.0 <= b.0) { (a, b) } else { (b, a) };
        let (sx, sy) = s;
        let (ex, ey) = e;
        let back = self.scrollback.len();
        let rows = self.screen.rows;
        let last = if back > usize::MAX - rows { usize::MAX } else { back + rows - 1 };
        let end = if ey < last { ey } else { last };
        let mut out: Vec<char> = Vec::new();
        if sy > end {
            assert(self.selected_rows(sx as int, sy as int, ex as int, ey as int, 0) =~= Seq::<Seq<char>>::empty());
            return string_from_chars(&out);
        }
        let mut abs = sy;
        let ghost k_total = end - sy + 1;
        assert(out@ =~= join_lines(self.selected_rows(sx as int, sy as int, ex as int, ey as int, 0)));
        loop
            invariant_except_break
                out@ == join_lines(self.selected_rows(sx as int, sy as int, ex as int, ey as int, abs - sy)),
            invariant
                self.wf(),
                sy <= abs <= end,
            ensures
                out@ == join_lines(self.selected_rows(sx as int, sy as int, ex as int, ey as int, end - sy + 1)),
            decreases end - abs,
        {
            let line = self.line_at(abs);
            let x0 = if abs == sy { sx } else { 0 };
            let x1 = if abs == ey { ex } else { usize::MAX };
            let len = line.cells.len();
            let mut seg: Vec<char> = Vec::new();
            if len > 0 {
                let hi = if x1 < len - 1 { x1 } else { len - 1 };
                if x0 <= hi {
                    push_visible(&mut seg, &line.cells, x0, hi + 1);
                }
            }
            assert(seg@ =~= row_segment(line@.cells, x0 as int, x1 as int));
            let ghost full = seg@;
            while seg.len() > 0 && seg[seg.len() - 1] == ' '
                invariant
                    strip_spaces(full) == strip_spaces(seg@),
                decreases seg.len(),
            {
                let ghost before = seg@;
                seg.pop();
                assert(seg@ =~= before.drop_last());
            }
            assert(seg@ == self.selected_row(abs as int, sx as int, sy as int, ex as int, ey as int));
            let ghost prev = out@;
            let ghost k = abs - sy;
            if abs > sy {
                out.push('\n');
            }
            let mut i: usize = 0;
            while i < seg.len()
                invariant
                    i <= seg@.len(),
                    out@ == (if abs > sy { prev + seq!['\n'] } else { prev }) + seg@.take(i as int),
                decreases seg.len() - i,
            {
                out.push(seg[i]);
                i = i + 1;
                assert(out@ =~= (if abs > sy { prev + seq!['\n'] } else { prev }) + seg@.take(i as int));
            }
            assert(seg@.take(i as int) =~= seg@);
            proof {
                let rows_k1 = self.selected_rows(sx as int, sy as int, ex as int, ey as int, k + 1);
                assert(rows_k1.drop_last() =~= self.selected_rows(sx as int, sy as int, ex as int, ey as int, k));
                assert(rows_k1.last() == seg@);
                if k == 0 {
                    assert(self.selected_rows(sx as int, sy as int, ex as int, ey as int, 0) =~= Seq::<Seq<char>>::empty());
                    assert(prev =~= Seq::<char>::empty());
                    assert(rows_k1.len() == 1);
                    assert(out@ =~= rows_k1[0]);
                } else {
                    assert(rows_k1.len() > 1);
                    assert(out@ =~= join_lines(rows_k1.drop_last()) + seq!['\n'] + rows_k1.last());
                }
                assert(out@ == join_lines(rows_k1));
            }
            if abs == end {
                break;
            }
            abs = abs + 1;
        }
        string_from_chars(&out)
    }

    /// The selected lines, in reading order, each with its trailing spaces
    /// stripped.
    pub closed spec fn selection_lines(&self, a: (usize, usize), b: (usize, usize)) -> Seq<Seq<char>> {
        let (s, e) = if a.1 < b.1 || (a.1 == b.1 && a.0 <= b.0) { (a, b) } else { (b, a) };
        let total = self.scrollback@.len() + self.screen.rows;
        let last = if total > usize::MAX { usize::MAX as int } else { total - 1 };
        let end = if (e.1 as int) < last { e.1 as int } else { last };
        let k = if (s.1 as int) <= end { end - s.1 + 1 } else { 0 };
        self.selected_rows(s.0 as int, s.1 as int, e.0 as int, e.1 as int, k)
    }

    proof fn lemma_selected_rows_stripped(&self, sx: int, sy: int, ex: int, ey: int, k: int)
        ensures
            self.selected_rows(sx, sy, ex, ey, k).len() == if k <= 0 { 0 } else { k },
            forall|i: int| 0 <= i < self.selected_rows(sx, sy, ex, ey, k).len()
                ==> #[trigger] strip_spaces(self.selected_rows(sx, sy, ex, ey, k)[i]) == self.selected_rows(sx, sy, ex, ey, k)[i],
        decreases k,
    {
        if k > 0 {
            self.lemma_selected_rows_stripped(sx, sy, ex, ey, k - 1);
            let r = self.selected_rows(sx, sy, ex, ey, k);
            lemma_strip_spaces_idem(row_segment(self.line_at_spec(sy + k - 1).cells, if sy + k - 1 == sy { sx } else { 0 },
                if sy + k - 1 == ey { ex } else { usize::MAX as int }));
            assert forall|i: int| 0 <= i < r.len() implies #[trigger] strip_spaces(r[i]) == r[i] by {
                if i < k - 1 {
                    assert(r[i] == self.selected_rows(sx, sy, ex, ey, k - 1)[i]);
                }
            }
        }
    }

    /// A selection reads the same whichever endpoint is given first: the
    /// endpoints are put in reading order.
    pub proof fn lemma_selection_symmetric(&self, a: (usize, usize), b: (usize, usize))
        ensures
            self.selection_spec(a, b) == self.selection_spec(b, a),
            self.selection_lines(a, b) == self.selection_lines(b, a),
    {
    }

    /// The selected text is its lines joined with `\n`, one line for each
    /// logical line from the first endpoint's to the last's (clamped to the
    /// last screen row), none of them ending in a space.
    pub proof fn lemma_selection_lines(&self, a: (usize, usize), b: (usize, usize))
        ensures
            self.selection_spec(a, b) == join_lines(self.selection_lines(a, b)),
            self.selection_lines(a, b).len() == ({
                let (s, e) = if a.1 < b.1 || (a.1 == b.1 && a.0 <= b.0) { (a, b) } else { (b, a) };
                let total = self.history().len() + self.spec_rows();
                let last = if total > usize::MAX { usize::MAX as int } else { total - 1 };
                let end = if (e.1 as int) < last { e.1 as int } else { last };
                if (s.1 as int) <= end { end - s.1 + 1 } else { 0 }
            }),
            forall|i: int| 0 <= i < self.selection_lines(a, b).len() && self.selection_lines(a, b)[i].len() > 0
                ==> #[trigger] self.selection_lines(a, b)[i].last() != ' ',
    {
        let (s, e) = if a.1 < b.1 || (a.1 == b.1 && a.0 <= b.0) { (a, b) } else { (b, a) };
        let total = self.scrollback@.len() + self.screen.rows;
        let last = if total > usize::MAX { usize::MAX as int } else { total - 1 };
        let end = if (e.1 as int) < last { e.1 as int } else { last };
        let k = if (s.1 as int) <= end { end - s.1 + 1 } else { 0 };
        self.lemma_selected_rows_stripped(s.0 as int, s.1 as int, e.0 as int, e.1 as int, k);
        assert(self.history().len() == self.scrollback@.len());
        let ls = self.selection_lines(a, b);
        assert forall|i: int| 0 <= i < ls.len() && ls[i].len() > 0 implies #[trigger] ls[i].last() != ' ' by {
            assert(strip_spaces(ls[i]) == ls[i]);
            lemma_strip_spaces_idem(ls[i]);
        }
    }

    /// The character at grid position `(x, y)` of the active buffer; `' '`
    /// out of range.
    pub fn cell_char(&self, x: usize, y: usize) -> (c: char)
        requires
            self.wf(),
        ensures
            c == if x < self.spec_cols() && y < self.spec_rows() { self.active().screen()[y as int].cells[x as int].ch } else { ' ' },
    {
        if x < self.screen.cols && y < self.screen.rows {
            self.screen.cell(x, y).ch
        } else {
            ' '
        }
    }

    /// The grapheme cluster displayed at `(x, y)`: the cell's own scalar, or
    /// its merged cluster string; empty out of range.
    pub fn cell_cluster(&self, x: usize, y: usize) -> (s: String)
        requires
            self.wf(),
        ensures
            s@ == if x < self.spec_cols() && y < self.spec_rows() {
                let c = self.active().screen()[y as int].cells[x as int];
                if 1 <= c.grapheme <= self.grapheme_table().len() { self.grapheme_table()[c.grapheme - 1] } else { seq![c.ch] }
            } else {
                Seq::<char>::empty()
            },
    {
        if x < self.screen.cols && y < self.screen.rows {
            let cell = *self.screen.cell(x, y);
            match self.grapheme(cell.grapheme) {
                Some(g) => g.to_owned(),
                None => {
                    let mut s = String::new();
                    push_char(&mut s, cell.ch);
                    s
                },
            }
        } else {
            String::new()
        }
    }
}

} // verus!
