//! A VT100 / xterm-compatible terminal emulator core. It turns a byte stream
//! (typically from a PTY) into a grid of styled cells, and encodes user input
//! back into the byte sequences host programs expect. It has no rendering and
//! no I/O: a front-end reads `Terminal::snapshot` and feeds bytes via
//! `Terminal::feed`.

pub mod attr;
pub mod cell;
pub mod chars;
pub mod faces;
pub mod grid;
pub mod img;
pub mod input;
pub mod keys;
pub mod kitty;
pub mod layout;
pub mod palette;
pub mod params;
pub mod png_image;
pub mod raster;
pub mod parser;
pub mod reflow;
pub mod sixel;
pub mod strings;
pub mod terminal;
pub mod text;
pub mod view;
pub mod web;
pub mod width;

pub use cell::{Cell, Color, Pen};
pub use grid::{Buffer, Cursor, Line};
pub use keys::{encode_char, encode_key, Key, Mods};
pub use params::Params;
pub use parser::{Parser, Perform};
pub use terminal::{Modes, Terminal, SNAPSHOT_CELL_WORDS, SNAPSHOT_MAGIC};
pub use width::char_width;
