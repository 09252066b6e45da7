//! Concrete instances of the properties the library proves: chunked input,
//! rewrap round trips, snapshot decoding and consumption, viewport scrolling.

use ferroterm::img::decode_base64;
use ferroterm::reflow::reflow;
use ferroterm::sixel::decode;
use ferroterm::view::Grid;
use ferroterm::{attr, Cell, Line, Params, Pen, Terminal};

fn screen_text(t: &Terminal) -> Vec<String> {
    (0..t.rows()).map(|y| t.line_text(t.scrollback_len() + y)).collect()
}

#[test]
fn chunking_does_not_matter() {
    let input: &[u8] = b"ab\x1b[31mc\xc3\xa9\x1b[2;3Hxyz\x1b]0;t\x07\xe4\xb8\x96q\r\nend";
    let mut whole = Terminal::new(10, 4, 20);
    whole.feed(input);
    for cut in 0..input.len() {
        let mut parts = Terminal::new(10, 4, 20);
        parts.feed(&input[..cut]);
        parts.feed(&input[cut..]);
        assert_eq!(screen_text(&parts), screen_text(&whole), "split at {cut}");
        assert_eq!(parts.cursor(), whole.cursor(), "split at {cut}");
        assert_eq!(parts.title(), whole.title());
    }
}

#[test]
fn resizing_through_a_width_matches_a_direct_resize() {
    let text = "the quick brown fox jumps over the lazy dog\r\nand a second logical line here";
    let mut direct = Terminal::new(30, 6, 100);
    direct.feed(text.as_bytes());
    let mut through = Terminal::new(30, 6, 100);
    through.feed(text.as_bytes());
    through.resize(7, 6);
    through.resize(13, 6);
    direct.resize(13, 6);
    let all = |t: &Terminal| (0..t.total_lines()).map(|i| t.line_text(i)).collect::<Vec<_>>();
    assert_eq!(all(&through), all(&direct));
}

#[test]
fn rewrap_keeps_the_text() {
    let mut t = Terminal::new(12, 3, 100);
    t.feed(b"abcdefghijklmnopqrstuvwxyz\r\n0123");
    let before: String = (0..t.total_lines()).map(|i| t.line_text(i)).collect();
    t.resize(5, 3);
    let after: String = (0..t.total_lines()).map(|i| t.line_text(i)).collect();
    assert_eq!(before, after);
    assert_eq!(t.line_text(0), "abcde");
}

#[test]
fn forced_snapshot_decodes_to_the_screen() {
    let mut t = Terminal::new(6, 3, 10);
    t.feed(b"hi\r\n\x1b[1mzz");
    let mut g = Grid::default();
    g.apply(&t.snapshot(true));
    assert_eq!((g.cols, g.rows), (6, 3));
    for y in 0..3 {
        for x in 0..6 {
            assert_eq!(g.cell(x, y).cp, t.cell_char(x, y) as u32, "cell ({x},{y})");
        }
    }
    assert_eq!((g.cursor_x, g.cursor_y), t.cursor());
}

#[test]
fn snapshot_consumes_changes() {
    let mut t = Terminal::new(6, 3, 10);
    t.feed(b"abc");
    let first = t.snapshot(false);
    assert!(first.len() > 7);
    let second = t.snapshot(false);
    assert_eq!(second.len(), 7);
    assert_eq!(second[6], 0);
}

#[test]
fn scrolling_back_and_forth_returns() {
    let mut t = Terminal::new(4, 2, 50);
    for _ in 0..20 {
        t.feed(b"a\r\n");
    }
    t.scroll_up_view(5);
    t.scroll_up_view(3);
    assert_eq!(t.display_offset(), 8);
    t.scroll_down_view(3);
    assert_eq!(t.display_offset(), 5);
    t.scroll_down_view(5);
    assert_eq!(t.display_offset(), 0);
}

#[test]
fn grapheme_ids_survive_more_input() {
    let mut t = Terminal::new(10, 2, 10);
    t.feed("e\u{0301}".as_bytes());
    let id = t.snapshot(true)[7 + 1 + 5];
    assert_ne!(id, 0);
    let cluster = t.grapheme(id).unwrap().to_string();
    t.feed("a\u{0300}b\r\nmore text".as_bytes());
    assert_eq!(t.grapheme(id).unwrap(), cluster);
    assert_eq!((t.cols(), t.rows()), (10, 2));
}

fn cell(ch: char, flags: u16) -> Cell {
    let mut pen = Pen::new();
    if flags != 0 {
        pen.set(flags);
    }
    Cell { ch, pen, link: 0, grapheme: 0 }
}

fn text_line(s: &str, wrapped: bool) -> Line {
    Line { cells: s.chars().map(|c| cell(c, 0)).collect(), wrapped }
}

#[test]
fn reflow_keeps_the_hard_line_ends() {
    // Three logical lines: "abcdef" (soft-wrapped over two rows), "gh", "ijk".
    let phys = vec![text_line("abc", true), text_line("def", false), text_line("gh ", false), text_line("ijk", false)];
    for w in 1..8 {
        let r = reflow(&phys, 0, 0, w);
        let hard = r.rows.iter().filter(|l| !l.wrapped).count();
        assert_eq!(hard, 3, "width {w}");
        assert!(!r.rows.last().unwrap().wrapped);
    }
    // A trailing soft wrap still ends a line.
    let open = vec![text_line("ab", true)];
    let r = reflow(&open, 0, 0, 1);
    assert_eq!(r.rows.iter().filter(|l| !l.wrapped).count(), 1);
}

#[test]
fn reflow_never_puts_a_wide_glyph_in_the_last_column() {
    // "ab", a wide glyph and its spacer, "c".
    for w in 2..7 {
        let row = Line {
            cells: vec![cell('a', 0), cell('b', 0), cell('世', attr::WIDE), cell(' ', attr::WIDE_SPACER), cell('c', 0)],
            wrapped: false,
        };
        let r = reflow(&[row], 0, 0, w);
        for l in &r.rows {
            for (x, c) in l.cells.iter().enumerate() {
                if c.pen.has(attr::WIDE) {
                    assert!(x + 1 < w, "wide glyph in the last column at width {w}");
                }
            }
        }
    }
}

#[test]
fn reflow_without_wide_glyphs_keeps_the_text() {
    let phys = vec![text_line("hello", true), text_line("world", false), text_line("x", false)];
    for w in 1..12 {
        let r = reflow(&phys, 0, 0, w);
        let mut lines: Vec<String> = Vec::new();
        let mut cur = String::new();
        for l in &r.rows {
            cur.extend(l.cells.iter().map(|c| c.ch));
            if !l.wrapped {
                lines.push(cur.trim_end().to_string());
                cur.clear();
            }
        }
        assert_eq!(lines, vec!["helloworld".to_string(), "x".to_string()], "width {w}");
    }
}

#[test]
fn base64_decodes_what_encoding_wrote() {
    assert_eq!(decode_base64(b"Zg==").unwrap(), b"f");
    assert_eq!(decode_base64(b"Zm8=").unwrap(), b"fo");
    assert_eq!(decode_base64(b"Zm9v").unwrap(), b"foo");
    assert_eq!(decode_base64(b"AP8A/w==").unwrap(), &[0x00, 0xff, 0x00, 0xff]);
    assert_eq!(decode_base64(b"").unwrap(), b"");
}

#[test]
fn sixel_pixels_are_clear_or_opaque() {
    // Color 2 set to pure red, then '@' paints only the top pixel of column 0;
    // '~' paints all six of column 1.
    let img = decode(b"q#2;2;100;0;0@~").unwrap();
    assert_eq!((img.width, img.height), (2, 6));
    assert_eq!(img.rgba.len(), img.width * img.height * 4);
    for px in img.rgba.chunks(4) {
        assert!(px[3] == 255 || px == [0, 0, 0, 0]);
    }
    // Top-left painted red, the pixel below it untouched and transparent.
    assert_eq!(&img.rgba[0..4], &[255, 0, 0, 255]);
    assert_eq!(&img.rgba[8..12], &[0, 0, 0, 0]);
    assert_eq!(&img.rgba[12..16], &[255, 0, 0, 255]);
}

#[test]
fn sixel_height_stops_after_the_band_cap() {
    // 700 new lines: bands past the cap are not decoded.
    let mut data = b"q~".to_vec();
    for _ in 0..700 {
        data.extend_from_slice(b"-~");
    }
    let img = decode(&data).unwrap();
    assert!(img.height <= 4096);
    // Band 681 ends at row 4092; band 682 would end past 4096 and is refused.
    assert_eq!(img.height, 682 * 6);
    // A payload whose only paint lies in band 682 paints nothing.
    let mut late = b"q".to_vec();
    late.extend(std::iter::repeat(b'-').take(682));
    late.push(b'~');
    assert!(decode(&late).is_none());
    // A run that would pass column 4096 gives no image.
    assert!(decode(b"q!5000~").is_none());
}

#[test]
fn selection_reads_the_same_both_ways_and_trims_each_line() {
    let mut t = Terminal::new(10, 3, 10);
    t.feed(b"ab  \r\ncd e  \r\nfg");
    let fwd = t.selection_text((1, 0), (1, 2));
    let back = t.selection_text((1, 2), (1, 0));
    assert_eq!(fwd, back);
    assert_eq!(fwd, "b\ncd e\nfg");
    for line in fwd.split('\n') {
        assert!(!line.ends_with(' '));
    }
}

#[test]
fn snapshot_has_one_record_per_emitted_row() {
    let mut t = Terminal::new(4, 3, 10);
    let full = t.snapshot(true);
    assert_eq!(full[6], 3);
    assert_eq!(full.len(), 7 + 3 * (1 + 4 * 6));
    t.feed(b"\x1b[3;1Hx\x1b[1;1Hy");
    let part = t.snapshot(false);
    let n = part[6] as usize;
    assert_eq!(part.len(), 7 + n * (1 + 4 * 6));
    let heads: Vec<u32> = (0..n).map(|k| part[7 + k * 25]).collect();
    assert!(heads.contains(&0) && heads.contains(&2));
    assert!(heads.windows(2).all(|w| w[0] < w[1]));
}

#[test]
fn resize_keeps_everything_but_the_screens() {
    let mut t = Terminal::new(8, 3, 10);
    t.feed(b"\x1b]2;name\x07\x07\x1b[31mab");
    let bells = t.bell_count();
    t.resize(5, 2);
    assert_eq!(t.title(), "name");
    assert_eq!(t.bell_count(), bells);
    // The pen is still red: the next glyph is printed in it.
    t.feed(b"c");
    let (x, y) = t.cursor();
    assert!(matches!(t.active_line(y).cells[x - 1].pen.fg, ferroterm::Color::Indexed(1)));
}

#[test]
fn params_default_is_empty() {
    let p = Params::default();
    assert_eq!(p.len(), 0);
}

#[test]
fn base64_skips_whitespace_and_refuses_exactly_the_malformed() {
    assert_eq!(decode_base64(b"Zm9v\n Yg==").unwrap(), b"foob");
    assert_eq!(decode_base64(b" Z\tm\r9\nv ").unwrap(), b"foo");
    assert_eq!(decode_base64(b"Zg==\n").unwrap(), b"f");
    assert!(decode_base64(b"Zm9v*").is_none());
    assert!(decode_base64(b"Zg==Zg").is_none());
    assert!(decode_base64(b"=Zg").is_none());
    assert!(decode_base64(b"Zg= =").is_some());
}

#[test]
fn sixel_unpainted_is_clear_and_painted_black_is_opaque() {
    // Palette entry 0 redefined as black: painted black stays opaque.
    let img = decode(b"q#0;2;0;0;0~").unwrap();
    for px in img.rgba.chunks(4) {
        assert_eq!(px, [0, 0, 0, 255]);
    }
    // Only the top bit of column 0: the five pixels below are untouched.
    let img = decode(b"q#0;2;0;0;0@").unwrap();
    assert_eq!((img.width, img.height), (1, 6));
    assert_eq!(&img.rgba[0..4], &[0, 0, 0, 255]);
    for y in 1..6 {
        assert_eq!(&img.rgba[y * 4..y * 4 + 4], &[0, 0, 0, 0]);
    }
}
