//! The front-end side: snapshot decoding into a grid, selection, color
//! resolution, pixel operations, key mapping and window layout.

use ferroterm::attr;
use ferroterm::input::{encode, map_key, Pressed};
use ferroterm::keys::{Key, Mods};
use ferroterm::faces::{collection_slots, face_plan};
use ferroterm::layout::{frame_finish, frame_size, grid_layout, rgb, FrameState, BLINK_FRAMES};
use ferroterm::raster::{blit, cell_instance, cell_paint, cursor_instance, decoration_rows, dim, fill};
use ferroterm::view::{class_of, word_range, Class, GCell, Grid, Palette, Selection, Theme};
use ferroterm::Terminal;

fn grid_of(cols: usize, rows: usize, feed: &str) -> Grid {
    let mut term = Terminal::new(cols, rows, 100);
    term.feed(feed.as_bytes());
    let mut grid = Grid::default();
    let mut snap = Vec::new();
    term.snapshot_into(true, &mut snap);
    grid.apply(&snap);
    grid
}

fn no_mods() -> Mods {
    Mods { shift: false, alt: false, ctrl: false, meta: false }
}

// --- selection ---

#[test]
fn normalizes_endpoints() {
    // Anchor after focus in reading order → swapped.
    let s = Selection::new((5, 2), (1, 0));
    assert_eq!(s.start, (1, 0));
    assert_eq!(s.end, (5, 2));
}

#[test]
fn contains_flows_across_rows() {
    let s = Selection::new((3, 0), (2, 2));
    assert!(!s.contains(2, 0), "before start on first row");
    assert!(s.contains(3, 0), "start cell");
    assert!(s.contains(9, 0), "rest of first row");
    assert!(s.contains(0, 1), "whole middle row");
    assert!(s.contains(2, 2), "end cell");
    assert!(!s.contains(3, 2), "after end on last row");
    assert!(!s.contains(0, 3), "below selection");
}

#[test]
fn single_cell_is_empty() {
    assert!(Selection::new((4, 1), (4, 1)).is_empty());
    assert!(!Selection::new((4, 1), (5, 1)).is_empty());
}

#[test]
fn word_range_spans_a_word() {
    let grid = grid_of(20, 1, "foo bar");
    // Clicking anywhere in "foo" (cols 0..=2) selects the whole word.
    assert_eq!(word_range(&grid, 1, 0), (0, 2));
    // Clicking in "bar" (cols 4..=6).
    assert_eq!(word_range(&grid, 5, 0), (4, 6));
    // A URL-ish token stays one word across the punctuation we treat as word.
    let grid = grid_of(40, 1, "see https://a.b/c ok");
    assert_eq!(word_range(&grid, 8, 0), (4, 16));
}

#[test]
fn selection_order_does_not_matter() {
    let a = Selection::new((7, 3), (2, 1));
    let b = Selection::new((2, 1), (7, 3));
    assert_eq!(a, b);
    for y in 0..5 {
        for x in 0..10 {
            assert_eq!(a.contains(x, y), b.contains(x, y));
        }
    }
}

#[test]
fn same_row_selection_is_a_column_span() {
    let s = Selection::new((6, 2), (3, 2));
    assert!(!s.contains(2, 2));
    assert!(s.contains(3, 2));
    assert!(s.contains(6, 2));
    assert!(!s.contains(7, 2));
    assert!(!s.contains(4, 1));
}

#[test]
fn word_range_off_grid_and_on_space() {
    let grid = grid_of(10, 1, "ab  cd");
    assert_eq!(word_range(&grid, 15, 0), (15, 15));
    assert_eq!(word_range(&grid, 2, 5), (2, 2));
    // The run of blanks between the words, through to the end of the row.
    assert_eq!(word_range(&grid, 2, 0), (2, 3));
    assert_eq!(word_range(&grid, 8, 0), (6, 9));
}

#[test]
fn character_classes() {
    assert_eq!(class_of('a' as u32), Class::Word);
    assert_eq!(class_of('é' as u32), Class::Word);
    assert_eq!(class_of('7' as u32), Class::Word);
    assert_eq!(class_of('/' as u32), Class::Word);
    assert_eq!(class_of(' ' as u32), Class::Space);
    assert_eq!(class_of(0), Class::Space);
    assert_eq!(class_of(0xD800), Class::Space);
    assert_eq!(class_of('(' as u32), Class::Other);
    assert_eq!(class_of('!' as u32), Class::Other);
}

// --- snapshot decoding ---

#[test]
fn grid_decodes_colored_text() {
    let mut t = Terminal::new(20, 3, 100);
    t.feed(b"\x1b[31mAB\x1b[0m");
    let snap = t.snapshot(true);

    let mut g = Grid::default();
    g.apply(&snap);

    assert_eq!(g.cols, 20);
    assert_eq!(g.rows, 3);

    let a = g.cell(0, 0);
    assert_eq!(char::from_u32(a.cp).unwrap(), 'A');
    // Red = ANSI index 1 => packed 0x01_000001 (see Color::pack).
    assert_eq!(a.fg, 0x0100_0001);
    assert_eq!(a.flags & attr::WIDE_SPACER, 0);

    let b = g.cell(1, 0);
    assert_eq!(char::from_u32(b.cp).unwrap(), 'B');
    assert_eq!(b.fg, 0x0100_0001);
}

#[test]
fn wide_char_marks_spacer() {
    let mut t = Terminal::new(20, 1, 100);
    t.feed("世".as_bytes());
    let snap = t.snapshot(true);
    let mut g = Grid::default();
    g.apply(&snap);

    assert_ne!(g.cell(0, 0).flags & attr::WIDE, 0, "cell 0 should be WIDE");
    assert_ne!(g.cell(1, 0).flags & attr::WIDE_SPACER, 0, "cell 1 should be a WIDE_SPACER");
}

#[test]
fn malformed_snapshot_leaves_grid() {
    let mut g = grid_of(4, 2, "xy");
    let before: Vec<u32> = g.cells.iter().map(|c| c.cp).collect();
    g.apply(&[1, 2, 3]);
    g.apply(&[0xdead_beef, 4, 2, 0, 0, 0, 0]);
    assert_eq!(g.cols, 4);
    assert_eq!(g.rows, 2);
    assert!(g.dirty_rows.is_empty());
    assert!(!g.full);
    let after: Vec<u32> = g.cells.iter().map(|c| c.cp).collect();
    assert_eq!(before, after);
}

#[test]
fn incremental_snapshot_patches_only_dirty_rows() {
    let mut t = Terminal::new(5, 3, 10);
    let mut g = Grid::default();
    g.apply(&t.snapshot(true));
    assert!(g.full);
    assert!(g.dirty_rows.is_empty());
    t.feed(b"\x1b[2;1Hq");
    g.apply(&t.snapshot(false));
    assert!(!g.full);
    assert_eq!(g.dirty_rows, vec![1]);
    assert_eq!(g.cell(0, 1).cp, 'q' as u32);
    assert_eq!(g.cursor_x, 1);
    assert_eq!(g.cursor_y, 1);
}

#[test]
fn truncated_snapshot_leaves_grid() {
    let mut g = Grid::default();
    // A 2x1 grid announcing one row but carrying only half of it.
    let snap = vec![ferroterm::SNAPSHOT_MAGIC, 2, 1, 0, 0, 1, 1, 0, 65, 0, 0, 0, 0, 0];
    g.apply(&snap);
    assert!(!g.full);
    assert_eq!(g.cols, 0);
    assert_eq!(g.rows, 0);
    assert!(g.cells.is_empty());
    // One row announced, no cell words at all.
    g.apply(&[ferroterm::SNAPSHOT_MAGIC, 2, 1, 1, 0, 5, 1, 0]);
    assert_eq!((g.cols, g.rows, g.cursor_x), (0, 0, 0));
    assert!(!g.cursor_visible);
    // A row index past the grid is malformed too.
    let mut ok = vec![ferroterm::SNAPSHOT_MAGIC, 1, 1, 0, 0, 1, 1, 3];
    ok.extend_from_slice(&[65, 0, 0, 0, 0, 0]);
    g.apply(&ok);
    assert_eq!(g.cols, 0);
    ok[7] = 0;
    g.apply(&ok);
    assert_eq!((g.cols, g.rows), (1, 1));
    assert_eq!(g.cell(0, 0).cp, 65);
}

// --- colors and pixels ---

#[test]
fn palette_resolves_packed_colors() {
    let p = Palette::new(Theme::default());
    let t = Theme::default();
    assert_eq!(p.resolve(0, true, false), t.fg);
    assert_eq!(p.resolve(0, false, false), t.bg);
    assert_eq!(p.resolve(0x0100_0001, true, false), (0xf7, 0x76, 0x8e));
    // Bold brightens the low eight: 2 -> 10.
    assert_eq!(p.resolve(0x0100_0002, true, true), (0x9e, 0xce, 0x6a));
    assert_eq!(p.resolve(0x0100_0008, true, true), (0x41, 0x48, 0x68));
    assert_eq!(p.resolve(0x0100_0010, true, false), (0, 0, 0));
    assert_eq!(p.resolve(0x0100_00e7, true, false), (255, 255, 255));
    assert_eq!(p.resolve(0x0212_3456, false, false), (0x12, 0x34, 0x56));
}

#[test]
fn fill_clips_to_buffer() {
    let (w, h) = (3usize, 2usize);
    let mut buf = vec![0u8; w * h * 4];
    fill(&mut buf, w, h, 2, 1, 5, 5, (1, 2, 3));
    for y in 0..h {
        for x in 0..w {
            let o = (y * w + x) * 4;
            let px = (buf[o], buf[o + 1], buf[o + 2], buf[o + 3]);
            if x == 2 && y == 1 {
                assert_eq!(px, (1, 2, 3, 255));
            } else {
                assert_eq!(px, (0, 0, 0, 0));
            }
        }
    }
}

#[test]
fn blit_blends_by_coverage() {
    let (w, h) = (2usize, 2usize);
    let mut buf = vec![100u8; w * h * 4];
    // A 2x2 glyph placed one pixel up and left: only its bottom-right pixel
    // lands on the buffer, at (0, 0).
    let cov = [255u8, 255, 255, 51];
    blit(&mut buf, w, h, -1, -1, 2, 2, &cov, (250, 0, 100));
    // (250*51 + 100*204) / 255 = 130; (0*51 + 100*204) / 255 = 80.
    assert_eq!(&buf[0..4], &[130, 80, 100, 255]);
    assert_eq!(&buf[4..16], &[100u8; 12][..]);
    // Zero coverage leaves the buffer alone.
    let mut buf2 = vec![7u8; 16];
    blit(&mut buf2, w, h, 0, 0, 2, 2, &[0, 0, 0, 0], (1, 1, 1));
    assert_eq!(buf2, vec![7u8; 16]);
}

#[test]
fn dim_is_sixty_percent() {
    assert_eq!(dim((255, 100, 1)), (153, 60, 0));
}

#[test]
fn cell_paint_inverse_dim_and_cursor() {
    let g = grid_of(4, 1, "\x1b[7;2mA\x1b[0m\x1b[4mB");
    let p = Palette::new(Theme::default());
    let t = Theme::default();
    let a = cell_paint(&g, &p, 0, 0, false).unwrap();
    // Inverse swaps the defaults, then dim darkens the (new) foreground.
    assert_eq!(a.bg, t.fg);
    assert_eq!(a.fg, dim(t.bg));
    assert!(a.glyph);
    let b = cell_paint(&g, &p, 1, 0, false).unwrap();
    assert!(b.underline);
    assert!(!b.strike);
    // The cursor sits after "B", at column 2.
    let c = cell_paint(&g, &p, 2, 0, true).unwrap();
    assert_eq!(c.bg, t.cursor);
    assert_eq!(c.fg, t.cursor_text);
    assert!(!c.glyph);
    let c_off = cell_paint(&g, &p, 2, 0, false).unwrap();
    assert_eq!(c_off.bg, t.bg);
    let wide = grid_of(4, 1, "世");
    assert!(cell_paint(&wide, &p, 0, 0, false).unwrap().wide);
    assert!(cell_paint(&wide, &p, 1, 0, false).is_none());
}

#[test]
fn decoration_rows_stay_in_cell() {
    assert_eq!(decoration_rows(32, 16, 12), (45, 40));
    assert_eq!(decoration_rows(0, 16, 20), (15, 8));
    assert_eq!(decoration_rows(5, 0, 3), (5, 5));
}

// --- keys ---

#[test]
fn map_key_named_and_text() {
    let m = no_mods();
    assert_eq!(map_key("\u{F700}", m, false), b"\x1b[A");
    assert_eq!(map_key("\u{F700}", m, true), b"\x1bOA");
    assert_eq!(map_key("\u{F704}", m, false), b"\x1bOP");
    assert_eq!(map_key("\u{F70F}", m, false), b"\x1b[24~");
    assert_eq!(map_key("\r", m, false), b"\r");
    assert_eq!(map_key("\u{0011}", m, false), b"");
    assert_eq!(map_key("hi", m, false), b"hi");
    assert_eq!(map_key("é", m, false), "é".as_bytes());
    let ctrl = Mods { ctrl: true, ..no_mods() };
    assert_eq!(map_key("c", ctrl, false), &[0x03]);
    let meta = Mods { meta: true, ..no_mods() };
    assert_eq!(map_key("c", meta, false), b"");
    // A named key still encodes under Meta.
    assert_eq!(map_key("\u{F701}", meta, false), b"\x1b[1;9B");
}

#[test]
fn encode_logical_keys() {
    let m = no_mods();
    assert_eq!(encode(&Pressed::Named(Key::Up), m, false), b"\x1b[A");
    assert_eq!(encode(&Pressed::Space, m, false), b" ");
    assert_eq!(encode(&Pressed::Character("xyz".to_string()), m, false), b"x");
    assert_eq!(encode(&Pressed::Character(String::new()), m, false), b"");
    let meta = Mods { meta: true, ..no_mods() };
    assert_eq!(encode(&Pressed::Character("v".to_string()), meta, false), b"");
    assert_eq!(encode(&Pressed::Other, m, false), b"");
}

// --- layout ---

#[test]
fn rgb_packs() {
    assert_eq!(rgb((0x12, 0x34, 0x56)), 0x123456);
}

#[test]
fn grid_layout_centers_cells() {
    // 100 - 2*4 = 92 wide: 9 cells of 10 leave 2, split 1 + 1.
    assert_eq!(grid_layout(100, 50, 10, 20, 4), (9, 2, 5, 5));
    // Too small for one cell: still one column and row, at the inset.
    assert_eq!(grid_layout(5, 5, 10, 20, 4), (1, 1, 4, 4));
}

// --- the GPU front end's cell decisions ---

#[test]
fn cell_instances_follow_attributes_hover_and_selection() {
    let grid = grid_of(10, 2, "\x1b]8;;http://x\x07ab\x1b]8;;\x07 \x1b[7mc\x1b[0m\x1b[2md\x1b[9me");
    let pal = Palette::new(Theme::default());
    let t = Theme::default();
    // Plain glyph over the cleared background.
    let a = cell_instance(&grid, &pal, 0, 0, None, 0, 0).unwrap();
    assert!(a.glyph && a.rect && !a.underline && !a.strike);
    assert_eq!((a.fg, a.fg_alpha, a.bg_alpha), (t.fg, 255, 0));
    // Hovering the link underlines its whole run, and only it.
    let link = grid.cell(0, 0).link;
    assert!(link != 0);
    assert!(cell_instance(&grid, &pal, 0, 0, None, 0, link).unwrap().underline);
    assert!(cell_instance(&grid, &pal, 1, 0, None, 0, link).unwrap().underline);
    // A blank, unlinked, unselected cell draws nothing.
    assert!(cell_instance(&grid, &pal, 2, 0, None, 0, link).is_none());
    // Inverse swaps the colors and fills the background.
    let c = cell_instance(&grid, &pal, 3, 0, None, 0, 0).unwrap();
    assert_eq!((c.fg, c.bg, c.bg_alpha), (t.bg, t.fg, 255));
    // Dim text is drawn at alpha 153; strike-through is kept.
    assert_eq!(cell_instance(&grid, &pal, 4, 0, None, 0, 0).unwrap().fg_alpha, 153);
    assert!(cell_instance(&grid, &pal, 5, 0, None, 0, 0).unwrap().strike);
    // A selected blank cell gets the opaque selection background.
    let sel = Selection::new((2, 0), (3, 0));
    let s = cell_instance(&grid, &pal, 2, 0, Some(sel), 0, 0).unwrap();
    assert_eq!((s.bg, s.bg_alpha, s.glyph, s.rect), (t.selection, 255, false, true));
    // The selection is in absolute lines: scrolled by 5, line 5 is row 0.
    let far = Selection::new((2, 5), (3, 5));
    assert_eq!(cell_instance(&grid, &pal, 2, 0, Some(far), 5, 0).unwrap().bg, t.selection);
    assert!(cell_instance(&grid, &pal, 2, 0, Some(far), 0, 0).is_none());
    // A single-cell selection is no selection.
    let empty = Selection::new((2, 0), (2, 0));
    assert!(cell_instance(&grid, &pal, 2, 0, Some(empty), 0, 0).is_none());
}

#[test]
fn cursor_instance_needs_blink_phase_and_visibility() {
    let grid = grid_of(10, 2, "ab");
    let pal = Palette::new(Theme::default());
    let t = Theme::default();
    let c = cursor_instance(&grid, &pal, true).unwrap();
    assert_eq!((c.x, c.y, c.fg, c.bg, c.glyph), (2, 0, t.cursor_text, t.cursor, false));
    assert!(cursor_instance(&grid, &pal, false).is_none());
    let hidden = grid_of(10, 2, "ab\x1b[?25l");
    assert!(cursor_instance(&hidden, &pal, true).is_none());
}

// --- the frame loop ---

fn frame0() -> FrameState {
    FrameState { cols: 80, rows: 24, px_w: 0, px_h: 0, dirty: false, blink_frames: 0, blink_on: true }
}

#[test]
fn frame_size_tracks_the_window() {
    let (s, a) = frame_size(frame0(), 800, 480, 10, 20);
    assert!(a.proceed && a.resize.is_none() && s.dirty);
    assert_eq!((s.px_w, s.px_h), (800, 480));
    let (s2, a2) = frame_size(s, 805, 250, 10, 20);
    assert_eq!(a2.resize, Some((80, 12)));
    assert_eq!((s2.cols, s2.rows), (80, 12));
    // The same size again changes nothing.
    let (s3, a3) = frame_size(s2, 805, 250, 10, 20);
    assert!(a3.proceed && a3.resize.is_none());
    assert_eq!(s3, s2);
    // A window smaller than a cell still holds one.
    let (_, a4) = frame_size(frame0(), 5, 5, 10, 20);
    assert_eq!(a4.resize, Some((1, 1)));
    // A window with no area skips the frame.
    let (s5, a5) = frame_size(frame0(), 0, 480, 10, 20);
    assert!(!a5.proceed);
    assert_eq!(s5, frame0());
}

#[test]
fn frame_finish_blinks_paints_and_quits() {
    let (_, q) = frame_finish(frame0(), true, true);
    assert!(q.quit && !q.paint);
    let (s, a) = frame_finish(frame0(), false, false);
    assert!(!a.paint);
    assert_eq!(s.blink_frames, 1);
    let (_, b) = frame_finish(frame0(), true, false);
    assert!(b.paint);
    let last = FrameState { blink_frames: BLINK_FRAMES - 1, ..frame0() };
    let (s2, c) = frame_finish(last, false, false);
    assert!(c.paint && !s2.blink_on && !s2.dirty);
    assert_eq!(s2.blink_frames, 0);
}

// --- font style slots ---

#[test]
fn face_slots_and_plan() {
    // Not a font: one face searched, none parses.
    assert_eq!(collection_slots(b"not a font"), [None, None, None, None]);
    // An empty collection: no face at all.
    assert_eq!(collection_slots(b"ttcf\x00\x01\x00\x00\x00\x00\x00\x00"), [None, None, None, None]);
    // Missing styles come from the regular face, sheared and/or emboldened.
    assert_eq!(
        face_plan([true, false, true, false]),
        [(0, false, false), (0, false, true), (2, false, false), (0, true, true)]
    );
    assert_eq!(face_plan([true; 4]), [(0, false, false), (1, false, false), (2, false, false), (3, false, false)]);
}

/// A minimal TrueType face whose tables sit at `base` in the file: `OS/2`
/// (with `selection` as its style flags: bit 0 italic, bit 5 bold), `head`,
/// `hhea` and `maxp`.
fn face_bytes(base: u32, selection: u16) -> Vec<u8> {
    let mut os2 = vec![0u8; 78];
    os2[62..64].copy_from_slice(&selection.to_be_bytes());
    let mut head = vec![0u8; 54];
    head[18..20].copy_from_slice(&1000u16.to_be_bytes());
    let hhea = vec![0u8; 36];
    let maxp = vec![0x00, 0x00, 0x50, 0x00, 0x00, 0x01];
    let tables: [(&[u8; 4], &Vec<u8>); 4] = [(b"OS/2", &os2), (b"head", &head), (b"hhea", &hhea), (b"maxp", &maxp)];
    let mut out = Vec::new();
    out.extend_from_slice(&0x0001_0000u32.to_be_bytes());
    out.extend_from_slice(&4u16.to_be_bytes());
    out.extend_from_slice(&[0u8; 6]);
    let mut offset = base + 12 + 4 * 16;
    for (tag, data) in tables.iter() {
        out.extend_from_slice(&tag[..]);
        out.extend_from_slice(&0u32.to_be_bytes());
        out.extend_from_slice(&offset.to_be_bytes());
        out.extend_from_slice(&(data.len() as u32).to_be_bytes());
        offset += data.len() as u32;
    }
    for (_, data) in tables.iter() {
        out.extend_from_slice(data);
    }
    out
}

/// A font collection of faces with the given style flags.
fn collection_bytes(selections: &[u16]) -> Vec<u8> {
    let n = selections.len() as u32;
    let mut out = Vec::new();
    out.extend_from_slice(b"ttcf");
    out.extend_from_slice(&0x0001_0000u32.to_be_bytes());
    out.extend_from_slice(&n.to_be_bytes());
    let header = 12 + 4 * n;
    let face_len = face_bytes(0, 0).len() as u32;
    for k in 0..n {
        out.extend_from_slice(&(header + k * face_len).to_be_bytes());
    }
    for (k, sel) in selections.iter().enumerate() {
        out.extend(face_bytes(header + k as u32 * face_len, *sel));
    }
    out
}

#[test]
fn face_slots_take_the_first_face_of_each_style() {
    // A plain font file is one face: bold italic fills slot 3.
    assert_eq!(collection_slots(&face_bytes(0, 0x21)), [None, None, None, Some(0)]);
    // In a collection the first face of a style wins: bold, regular, bold.
    assert_eq!(collection_slots(&collection_bytes(&[0x20, 0x00, 0x20])), [Some(1), Some(0), None, None]);
    // Italic only.
    assert_eq!(collection_slots(&collection_bytes(&[0x01])), [None, None, Some(0), None]);
}
