//! Concrete checks of the per-token effects the terminal states: modes,
//! reverse index, scroll up, full reset, the OSC dynamic colors, hyperlink
//! reuse, Kitty delete and acknowledgement, iTerm2 images and printing.

use ferroterm::{attr, Color, Terminal};

fn term() -> Terminal {
    Terminal::new(10, 3, 100)
}

fn row_text(t: &Terminal, y: usize) -> String {
    t.active_line(y).cells.iter().map(|c| c.ch).collect::<String>()
}

#[test]
fn dec_private_modes_set_and_reset() {
    let mut t = term();
    t.feed(b"\x1b[?1h\x1b[?25l\x1b[?2004h\x1b[?1000h\x1b[?1006h");
    assert!(t.modes().app_cursor_keys);
    assert!(!t.modes().cursor_visible);
    assert!(t.modes().bracketed_paste);
    assert_eq!(t.modes().mouse_mode, 1000);
    assert!(t.modes().mouse_sgr);
    t.feed(b"\x1b[?1l\x1b[?25h\x1b[?1000l");
    assert!(!t.modes().app_cursor_keys);
    assert!(t.modes().cursor_visible);
    assert_eq!(t.modes().mouse_mode, 0);
}

#[test]
fn several_modes_in_one_sequence() {
    let mut t = term();
    t.feed(b"\x1b[?7;2004l");
    assert!(!t.modes().autowrap);
    assert!(!t.modes().bracketed_paste);
    t.feed(b"\x1b[4;20h");
    assert!(t.modes().insert);
    assert!(t.modes().newline_mode);
}

#[test]
fn origin_mode_homes_to_region_top() {
    let mut t = term();
    t.feed(b"\x1b[2;3r\x1b[3;4H\x1b[?6h");
    assert_eq!(t.cursor(), (0, 1));
    t.feed(b"\x1b[?6l");
    assert_eq!(t.cursor(), (0, 0));
}

#[test]
fn reverse_index_at_top_scrolls_down() {
    let mut t = term();
    t.feed(b"aa\r\nbb");
    t.feed(b"\x1b[H\x1bM");
    assert_eq!(row_text(&t, 0), " ".repeat(10));
    assert_eq!(&row_text(&t, 1)[..2], "aa");
    assert_eq!(&row_text(&t, 2)[..2], "bb");
    assert_eq!(t.cursor(), (0, 0));
}

#[test]
fn reverse_index_below_top_moves_up() {
    let mut t = term();
    t.feed(b"\x1b[3;5H\x1bM");
    assert_eq!(t.cursor(), (4, 1));
}

#[test]
fn scroll_up_sends_the_top_row_to_scrollback() {
    let mut t = term();
    t.feed(b"one\r\ntwo\r\nsix");
    t.feed(b"\x1b[S");
    assert_eq!(t.scrollback_len(), 1);
    assert_eq!(&row_text(&t, 0)[..3], "two");
    assert_eq!(&row_text(&t, 1)[..3], "six");
    assert_eq!(row_text(&t, 2), " ".repeat(10));
}

#[test]
fn scrollback_keeps_the_newest_rows() {
    let mut t = Terminal::new(10, 2, 2);
    t.feed(b"a\r\nb\r\nc\r\nd\r\ne");
    // The screen holds "d" and "e"; of "a", "b", "c" only the newest two stay.
    assert_eq!(t.scrollback_len(), 2);
    assert_eq!(t.line_text(0), "b");
    assert_eq!(t.line_text(1), "c");
    assert_eq!(t.line_text(2), "d");
}

#[test]
fn full_reset_blanks_and_restores_defaults() {
    let mut t = term();
    t.feed(b"abc\x1b[?25l\x1b[4h\x1b[31m");
    t.feed(b"\x1bc");
    assert_eq!(row_text(&t, 0), " ".repeat(10));
    assert_eq!(t.cursor(), (0, 0));
    assert!(t.modes().cursor_visible);
    assert!(!t.modes().insert);
    t.feed(b"x");
    assert_eq!(t.active_line(0).cells[0].pen.fg, Color::Default);
}

#[test]
fn keypad_modes_by_escape() {
    let mut t = term();
    t.feed(b"\x1b=");
    assert!(t.modes().app_keypad);
    t.feed(b"\x1b>");
    assert!(!t.modes().app_keypad);
}

#[test]
fn next_line_escape_goes_to_column_zero() {
    let mut t = term();
    t.feed(b"abc\x1bEd");
    assert_eq!(t.cell_char(0, 1), 'd');
    assert_eq!(t.cursor(), (1, 1));
}

#[test]
fn dynamic_color_query_and_reset() {
    let mut t = term();
    t.feed(b"\x1b]10;#102030\x07");
    t.feed(b"\x1b]10;?\x07");
    assert_eq!(t.take_output(), b"\x1b]10;rgb:1010/2020/3030\x1b\\".to_vec());
    t.feed(b"\x1b]110\x07");
    t.feed(b"\x1b]10;?\x07");
    let out = t.take_output();
    assert!(out.starts_with(b"\x1b]10;rgb:"));
    assert_ne!(out, b"\x1b]10;rgb:1010/2020/3030\x1b\\".to_vec());
}

#[test]
fn hyperlink_reuses_the_newest_uri() {
    let mut t = term();
    t.feed(b"\x1b]8;;http://a\x07x\x1b]8;;\x07");
    t.feed(b"\x1b]8;;http://a\x07y");
    let c0 = t.active_line(0).cells[0];
    let c1 = t.active_line(0).cells[1];
    assert_eq!(c0.link, c1.link);
    t.feed(b"\x1b]8;;http://b\x07z");
    let c2 = t.active_line(0).cells[2];
    assert_eq!(c2.link, c1.link + 1);
    assert_eq!(t.link_uri(c2.link), Some("http://b"));
}

#[test]
fn hyperlink_uri_keeps_semicolons() {
    let mut t = term();
    t.feed(b"\x1b]8;id=1;http://x/a;b\x07q");
    let c = t.active_line(0).cells[0];
    assert_eq!(t.link_uri(c.link), Some("http://x/a;b"));
}

#[test]
fn title_takes_the_second_field() {
    let mut t = term();
    t.feed(b"\x1b]2;hello\x07");
    assert_eq!(t.title(), "hello");
    assert!(t.take_title_dirty());
    assert!(!t.take_title_dirty());
}

#[test]
fn kitty_query_without_id_is_acknowledged() {
    let mut t = term();
    t.feed(b"\x1b_Ga=q\x1b\\");
    assert_eq!(t.take_output(), b"\x1b_G;OK\x1b\\".to_vec());
    t.feed(b"\x1b_Ga=q,i=7,q=2\x1b\\");
    assert_eq!(t.take_output(), Vec::<u8>::new());
}

#[test]
fn printed_glyph_reads_back_with_its_pen() {
    let mut t = term();
    t.feed(b"\x1b[31mX");
    let c = t.active_line(0).cells[0];
    assert_eq!(c.ch, 'X');
    assert_eq!(c.pen.fg, Color::Indexed(1));
    assert_eq!(c.grapheme, 0);
}

#[test]
fn insert_mode_shifts_the_row() {
    let mut t = term();
    t.feed(b"abc\r\x1b[4hX");
    assert_eq!(&row_text(&t, 0)[..4], "Xabc");
}

#[test]
fn wide_glyph_at_last_column_wraps() {
    let mut t = term();
    t.feed(b"123456789");
    t.feed("世".as_bytes());
    assert_eq!(t.cell_char(0, 1), '世');
    assert!(t.active_line(0).wrapped);
    assert!(t.active_line(1).cells[0].pen.has(attr::WIDE));
}

#[test]
fn wide_glyph_without_autowrap_steps_back() {
    let mut t = term();
    t.feed(b"\x1b[?7l123456789");
    t.feed("世".as_bytes());
    assert_eq!(t.cell_char(8, 0), '世');
    assert_eq!(t.cursor(), (9, 0));
}

#[test]
fn iterm_inline_image_is_placed() {
    let mut t = term();
    // "File=:" then base64 of the bytes "abc".
    t.feed(b"\x1b]1337;File=inline=1:YWJj\x07");
    let ids = t.image_ids();
    assert_eq!(ids.len(), 1);
    assert_eq!(t.image_encoded(ids[0]), b"abc".to_vec());
    assert_eq!(t.image_mime(ids[0]), "application/octet-stream");
}

#[test]
fn iterm_body_without_file_prefix_is_ignored() {
    let mut t = term();
    t.feed(b"\x1b]1337;Nope=1:YWJj\x07");
    assert_eq!(t.image_ids().len(), 0);
}

#[test]
fn printed_run_reads_back_with_its_pen() {
    let mut t = term();
    t.feed(b"\x1b[32mhello");
    for (k, ch) in "hello".chars().enumerate() {
        let c = t.active_line(0).cells[k];
        assert_eq!(c.ch, ch);
        assert_eq!(c.pen.fg, Color::Indexed(2));
        assert_eq!(c.link, 0);
    }
    assert_eq!(t.cursor(), (5, 0));
}

#[test]
fn ascii_run_fills_rows_across_a_wrap() {
    let mut t = term();
    t.feed(b"abcdefghijklm");
    assert_eq!(row_text(&t, 0), "abcdefghij");
    assert_eq!(&row_text(&t, 1)[..3], "klm");
    assert!(t.active_line(0).wrapped);
    assert_eq!(t.cursor(), (3, 1));
}

#[test]
fn iterm_size_arguments_give_the_cell_box() {
    let mut t = term();
    t.set_cell_pixels(10, 20);
    t.feed(b"\x1b]1337;File=width=2;height=1;inline=1:YWJj\x07");
    let ids = t.image_ids();
    assert_eq!(ids.len(), 1);
    assert_eq!(t.image_size(ids[0]), vec![20, 20]);
    // The cursor resumes on the line below the one-row image.
    assert_eq!(t.cursor(), (0, 1));
}

#[test]
fn kitty_put_by_id_displays_and_acknowledges() {
    let mut t = term();
    // 1x1 RGBA pixel, transmitted only (a=t) under id 5.
    t.feed(b"\x1b_Ga=t,f=32,s=1,v=1,i=5;AAAA/w==\x1b\\");
    assert_eq!(t.take_output(), b"\x1b_Gi=5;OK\x1b\\".to_vec());
    assert_eq!(t.image_ids().len(), 0);
    t.feed(b"\x1b_Ga=p,i=5\x1b\\");
    assert_eq!(t.image_ids().len(), 1);
    assert_eq!(t.take_output(), b"\x1b_Gi=5;OK\x1b\\".to_vec());
    // An unknown id displays nothing.
    t.feed(b"\x1b_Ga=p,i=9\x1b\\");
    assert_eq!(t.image_ids().len(), 1);
}
