//! The browser handle's input encoding and PNG decoding for inline images.

use ferroterm::png_image::{decode_png, rgba_from_frame, PixelKind};
use ferroterm::web::{decode_keycode, decode_mods, Terminal};
use ferroterm::keys::{encode_char, Key, Mods};

fn png_of(w: u32, h: u32, color: png::ColorType, data: &[u8], palette: Option<&[u8]>) -> Vec<u8> {
    let mut out = Vec::new();
    {
        let mut enc = png::Encoder::new(&mut out, w, h);
        enc.set_color(color);
        enc.set_depth(png::BitDepth::Eight);
        if let Some(p) = palette {
            enc.set_palette(p.to_vec());
        }
        let mut writer = enc.write_header().unwrap();
        writer.write_image_data(data).unwrap();
    }
    out
}

// --- PNG ---

#[test]
fn png_rgb_gains_opaque_alpha() {
    let bytes = png_of(2, 1, png::ColorType::Rgb, &[1, 2, 3, 4, 5, 6], None);
    let (w, h, rgba) = decode_png(&bytes).unwrap();
    assert_eq!((w, h), (2, 1));
    assert_eq!(rgba, vec![1, 2, 3, 255, 4, 5, 6, 255]);
}

#[test]
fn png_rgba_passes_through() {
    let bytes = png_of(1, 2, png::ColorType::Rgba, &[9, 8, 7, 6, 5, 4, 3, 2], None);
    assert_eq!(decode_png(&bytes), Some((1, 2, vec![9, 8, 7, 6, 5, 4, 3, 2])));
}

#[test]
fn png_gray_and_gray_alpha_spread() {
    let g = png_of(2, 1, png::ColorType::Grayscale, &[10, 200], None);
    assert_eq!(decode_png(&g).unwrap().2, vec![10, 10, 10, 255, 200, 200, 200, 255]);
    let ga = png_of(1, 1, png::ColorType::GrayscaleAlpha, &[77, 128], None);
    assert_eq!(decode_png(&ga).unwrap().2, vec![77, 77, 77, 128]);
}

#[test]
fn png_palette_is_expanded_by_the_decoder() {
    let bytes = png_of(2, 1, png::ColorType::Indexed, &[1, 0], Some(&[10, 20, 30, 40, 50, 60]));
    assert_eq!(decode_png(&bytes).unwrap().2, vec![40, 50, 60, 255, 10, 20, 30, 255]);
}

#[test]
fn png_garbage_is_refused() {
    assert_eq!(decode_png(b"not a png at all"), None);
    assert_eq!(decode_png(&[]), None);
    let mut bytes = png_of(2, 1, png::ColorType::Rgb, &[1, 2, 3, 4, 5, 6], None);
    bytes.truncate(bytes.len() - 20);
    assert_eq!(decode_png(&bytes), None);
}

#[test]
fn frame_expansion_rules() {
    // A trailing partial pixel is dropped.
    assert_eq!(rgba_from_frame(1, 1, PixelKind::Rgb, vec![1, 2, 3, 4]), Some((1, 1, vec![1, 2, 3, 255])));
    assert_eq!(rgba_from_frame(1, 1, PixelKind::GrayscaleAlpha, vec![5, 6, 7]), Some((1, 1, vec![5, 5, 5, 6])));
    // Paletted samples cannot be mapped; a short frame is refused.
    assert_eq!(rgba_from_frame(1, 1, PixelKind::Indexed, vec![0]), None);
    assert_eq!(rgba_from_frame(2, 2, PixelKind::Rgba, vec![0; 15]), None);
    assert_eq!(rgba_from_frame(2, 1, PixelKind::Grayscale, vec![1]), None);
}

// --- input encoding ---

#[test]
fn key_codes_and_modifier_bits() {
    assert_eq!(decode_keycode(1), Some(Key::Up));
    assert_eq!(decode_keycode(14), Some(Key::Escape));
    assert_eq!(decode_keycode(100), Some(Key::F(1)));
    assert_eq!(decode_keycode(111), Some(Key::F(12)));
    assert_eq!(decode_keycode(0), None);
    assert_eq!(decode_keycode(15), None);
    assert_eq!(decode_keycode(112), None);
    let m = decode_mods(0b1010);
    assert!(!m.shift && m.alt && !m.ctrl && m.meta);
}

#[test]
fn key_follows_cursor_key_mode() {
    let mut t = Terminal::new(10, 3, 10);
    assert_eq!(t.key(1, 0), b"\x1b[A");
    t.feed(b"\x1b[?1h");
    assert!(t.app_cursor_keys());
    assert_eq!(t.key(1, 0), b"\x1bOA");
    assert_eq!(t.key(1, 4), b"\x1b[1;5A");
    assert_eq!(t.key(999, 0), b"");
}

#[test]
fn char_input_folds_ctrl_and_alt() {
    let mut t = Terminal::new(10, 3, 10);
    assert_eq!(t.char_input('a' as u32, 0), b"a");
    assert_eq!(t.char_input('a' as u32, 4), &[0x01]);
    assert_eq!(t.char_input('x' as u32, 2), b"\x1bx");
    assert_eq!(t.char_input('é' as u32, 0), "é".as_bytes());
    assert_eq!(t.char_input(0xD800, 0), b"");
    assert_eq!(t.char_input(0x11_0000, 0), b"");
}

#[test]
fn ctrl_alt_char_sends_esc_then_c0() {
    let mut out = Vec::new();
    let m = Mods { shift: false, alt: true, ctrl: true, meta: false };
    encode_char('a', m, &mut out);
    assert_eq!(out, vec![0x1b, 0x01]);
    // A character with no C0 form keeps its own bytes behind the prefix.
    out.clear();
    encode_char('1', m, &mut out);
    assert_eq!(out, vec![0x1b, b'1']);
    // Through the web front end: Alt is the mask 2, Ctrl the mask 4.
    let mut t = Terminal::new(10, 3, 10);
    assert_eq!(t.char_input('[' as u32, 6), &[0x1b, 0x1b]);
}

#[test]
fn mouse_reports_follow_the_mode() {
    let mut t = Terminal::new(10, 3, 10);
    // Reporting off: nothing.
    assert_eq!(t.mouse(0, 1, 2, 0, 0), b"");
    t.feed(b"\x1b[?1000h");
    assert_eq!(t.mouse_mode(), 1000);
    // Legacy encoding: button + 32, coordinates 1-based + 32.
    assert_eq!(t.mouse(0, 1, 2, 0, 0), &[0x1b, b'[', b'M', 32, 34, 35]);
    // Release is button 3.
    assert_eq!(t.mouse(0, 1, 2, 1, 0), &[0x1b, b'[', b'M', 35, 34, 35]);
    // Motion is not reported in button mode.
    assert_eq!(t.mouse(0, 1, 2, 2, 0), b"");
    // Coordinates clamp at 223.
    assert_eq!(t.mouse(2, 500, 0, 0, 1), &[0x1b, b'[', b'M', 38, 255, 33]);
    t.feed(b"\x1b[?1006h\x1b[?1003h");
    assert!(t.mouse_sgr());
    assert_eq!(t.mouse(0, 9, 4, 0, 4 | 2), b"\x1b[<24;10;5M");
    assert_eq!(t.mouse(0, 9, 4, 1, 0), b"\x1b[<0;10;5m");
    assert_eq!(t.mouse(64, 0, 0, 2, 0), b"\x1b[<96;1;1M");
}

#[test]
fn scroll_lines_moves_the_viewport() {
    let mut t = Terminal::new(5, 2, 100);
    for _ in 0..10 {
        t.feed(b"x\r\n");
    }
    let back = t.scrollback_len();
    assert!(back >= 8);
    t.scroll_lines(-3);
    assert_eq!(t.display_offset(), 3);
    t.scroll_lines(-1000);
    assert_eq!(t.display_offset(), back);
    t.scroll_lines(2);
    assert_eq!(t.display_offset(), back - 2);
    t.scroll_lines(1000);
    assert_eq!(t.display_offset(), 0);
    t.scroll_to_line(0);
    assert_eq!(t.display_offset(), back);
    t.scroll_to_bottom();
    assert_eq!(t.display_offset(), 0);
}

#[test]
fn handle_forwards_state() {
    let mut t = Terminal::new(0, 0, 10);
    assert_eq!((t.cols(), t.rows()), (1, 1));
    t.resize(12, 4);
    assert_eq!((t.cols(), t.rows()), (12, 4));
    t.feed_str("\x1b]2;hi\x07\x07");
    assert!(t.title_changed());
    assert!(!t.title_changed());
    assert_eq!(t.title(), "hi");
    assert_eq!(t.bell_count(), 1);
    t.feed(b"\x1b[6n");
    assert_eq!(t.take_output(), b"\x1b[1;1R");
    assert!(t.take_output().is_empty());
    assert_eq!(t.total_lines(), 4);
    assert_eq!(t.line_text(0), "");
    assert!(t.cursor_visible());
    assert!(!t.bracketed_paste());
    assert_eq!(t.palette_export().len(), 259);
    assert_eq!(t.palette_version(), 0);
    t.set_default_colors(0x102030, 0, 0);
    t.set_cell_pixels(0, 20);
    assert_eq!(t.images_version(), 0);
    assert!(t.image_ids().is_empty());
    assert!(t.image_rgba(1).is_empty());
    assert_eq!(t.image_size(1), vec![0, 0]);
    assert!(t.image_placements().is_empty());
    assert_eq!(t.link_uri(1), None);
    assert_eq!(t.grapheme(1), None);
    let snap = t.snapshot(true);
    assert_eq!(snap[1], 12);
    assert_eq!(snap[6], 4);
}
