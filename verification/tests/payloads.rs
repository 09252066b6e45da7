//! Unit behavior of the payload parsers: base64 and image headers, Kitty
//! control blocks, X11 color specs and the Sixel decoder.

use ferroterm::img::{decode_base64, detect_format, sniff_dimensions, Dim, Format};
use ferroterm::kitty::parse;
use ferroterm::palette::{parse_color_spec, xterm256};
use ferroterm::sixel::decode;

// --- img ---

#[test]
fn base64_roundtrip() {
    assert_eq!(decode_base64(b"aGVsbG8=").unwrap(), b"hello");
    assert_eq!(decode_base64(b"Zm9vYmE=").unwrap(), b"fooba");
    assert_eq!(decode_base64(b"AAECAwQF").unwrap(), &[0, 1, 2, 3, 4, 5]);
    // Whitespace tolerated.
    assert_eq!(decode_base64(b"aGVs\nbG8=").unwrap(), b"hello");
    // Invalid alphabet rejected.
    assert!(decode_base64(b"aGVs*G8=").is_none());
}

#[test]
fn png_header_dimensions() {
    // 3x2 PNG (only the signature + IHDR are needed for a size sniff).
    let mut b = vec![0x89, b'P', b'N', b'G', b'\r', b'\n', 0x1a, b'\n'];
    b.extend_from_slice(&[0, 0, 0, 13]); // IHDR length
    b.extend_from_slice(b"IHDR");
    b.extend_from_slice(&3u32.to_be_bytes());
    b.extend_from_slice(&2u32.to_be_bytes());
    assert_eq!(detect_format(&b), Some(Format::Png));
    assert_eq!(sniff_dimensions(&b), Some((3, 2)));
}

#[test]
fn gif_header_dimensions() {
    let mut b = b"GIF89a".to_vec();
    b.extend_from_slice(&10u16.to_le_bytes());
    b.extend_from_slice(&20u16.to_le_bytes());
    assert_eq!(sniff_dimensions(&b), Some((10, 20)));
}

#[test]
fn jpeg_header_dimensions() {
    // SOI, then an APP0 segment, then SOF0 carrying 4x8.
    let mut b = vec![0xFF, 0xD8];
    b.extend_from_slice(&[0xFF, 0xE0, 0x00, 0x04, 0x00, 0x00]); // APP0 len=4
    b.extend_from_slice(&[0xFF, 0xC0, 0x00, 0x11, 0x08]); // SOF0, len, precision
    b.extend_from_slice(&8u16.to_be_bytes()); // height
    b.extend_from_slice(&4u16.to_be_bytes()); // width
    assert_eq!(sniff_dimensions(&b), Some((4, 8)));
}

#[test]
fn dim_parsing() {
    assert_eq!(Dim::parse("auto"), Dim::Auto);
    assert_eq!(Dim::parse(""), Dim::Auto);
    assert_eq!(Dim::parse("10"), Dim::Cells(10));
    assert_eq!(Dim::parse("64px"), Dim::Pixels(64));
    assert_eq!(Dim::parse("50%"), Dim::Percent(50));
    assert_eq!(Dim::parse("garbage"), Dim::Auto);
}

// --- kitty ---

#[test]
fn defaults_when_empty() {
    let (c, data) = parse(b"G;").unwrap();
    assert_eq!(c.action, b't');
    assert_eq!(c.format, 32);
    assert_eq!(c.medium, b'd');
    assert!(data.is_empty());
}

#[test]
fn not_a_graphics_command() {
    assert!(parse(b"Xhello").is_none());
    assert!(parse(b"").is_none());
}

#[test]
fn full_control_block() {
    let (c, data) = parse(b"Ga=T,f=24,i=7,s=4,v=3,c=10,r=5,m=1,q=1;AAAA").unwrap();
    assert_eq!(c.action, b'T');
    assert_eq!(c.format, 24);
    assert_eq!(c.id, 7);
    assert_eq!(c.width, 4);
    assert_eq!(c.height, 3);
    assert_eq!(c.cols, 10);
    assert_eq!(c.rows, 5);
    assert!(c.more);
    assert_eq!(c.quiet, 1);
    assert_eq!(data, b"AAAA");
}

#[test]
fn unsupported_medium_and_compression_flagged() {
    let (c, _) = parse(b"Ga=T,t=f,o=z;").unwrap();
    assert_eq!(c.medium, b'f');
    assert!(c.compressed);
}

#[test]
fn malformed_pairs_are_skipped() {
    // Bare keys, empty pairs and unknown keys must not derail parsing.
    let (c, _) = parse(b"Ga=q,,zz,x=1,i=9;").unwrap();
    assert_eq!(c.action, b'q');
    assert_eq!(c.id, 9);
}

// --- palette ---

#[test]
fn parses_rgb_forms() {
    assert_eq!(parse_color_spec(b"rgb:ff/00/80"), Some((255, 0, 128)));
    assert_eq!(parse_color_spec(b"rgb:ffff/0000/8000"), Some((255, 0, 128)));
    assert_eq!(parse_color_spec(b"#ff0080"), Some((255, 0, 128)));
    assert_eq!(parse_color_spec(b"#f08"), Some((255, 0, 136)));
    assert_eq!(parse_color_spec(b"red"), Some((255, 0, 0)));
    assert_eq!(parse_color_spec(b"nonsense"), None);
}

#[test]
fn hash_spec_that_splits_a_character_is_unrecognized() {
    // '#', U+00E9 (two bytes), '0': three bytes of digits cut inside the é.
    assert_eq!(parse_color_spec(b"#\xc3\xa90"), None);
    // Six bytes that split the same way.
    assert_eq!(parse_color_spec("#a\u{e9}bcd".as_bytes()), None);
}

#[test]
fn xterm256_cube_and_ramp() {
    assert_eq!(xterm256(16), (0, 0, 0));
    assert_eq!(xterm256(231), (255, 255, 255));
    assert_eq!(xterm256(232), (8, 8, 8));
    assert_eq!(xterm256(255), (238, 238, 238));
}

// --- sixel ---

#[test]
fn decodes_a_simple_block() {
    // Select color 1 (RGB red), one sixel column `~` (all 6 bits) repeated 4.
    // "1;2;100;0;0" defines color 1 = red.
    let data = b"q#1;2;100;0;0#1!4~";
    let img = decode(data).expect("sixel");
    assert_eq!(img.width, 4);
    assert_eq!(img.height, 6);
    // Top-left pixel is red, opaque.
    assert_eq!(&img.rgba[0..4], &[255, 0, 0, 255]);
}

#[test]
fn rejects_non_sixel_dcs() {
    assert!(decode(b"0;1|17/ab").is_none()); // DECUDK etc.
}

#[test]
fn newline_advances_band() {
    // Two bands of one column each.
    let img = decode(b"q#0!1~-#0!1~").unwrap();
    assert_eq!(img.height, 12);
    assert_eq!(img.width, 1);
}

