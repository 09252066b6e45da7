//! Keyboard input from the desktop front-ends, turned into PTY bytes through
//! the shared key encoder so every front-end sends the same bytes for the
//! same key press.
//!
//! One toolkit delivers a key press as text plus modifier flags, named keys
//! arriving as fixed private-use or control code points; the other delivers
//! a logical key (a named key, a space, or a character string), which the
//! front-end hands over as a `Pressed`.

use vstd::prelude::*;
use crate::keys::{char_bytes, encode_char, encode_key, key_bytes, Key, Mods};
use vstd::std_specs::iter::IteratorSpec;

verus! {

/// The named key a single code point stands for: the function-key range
/// from U+F700 (arrows, F1..F12 from U+F704, editing keys) plus a few C0
/// controls.
pub open spec fn named_key(c: char) -> Option<Key> {
    let u = c as u32;
    if u == 0xF700 { Some(Key::Up) }
    else if u == 0xF701 { Some(Key::Down) }
    else if u == 0xF702 { Some(Key::Left) }
    else if u == 0xF703 { Some(Key::Right) }
    else if u == 0xF729 { Some(Key::Home) }
    else if u == 0xF72B { Some(Key::End) }
    else if u == 0xF72C { Some(Key::PageUp) }
    else if u == 0xF72D { Some(Key::PageDown) }
    else if u == 0xF727 { Some(Key::Insert) }
    else if u == 0x7F { Some(Key::Delete) }
    else if u == 0x08 { Some(Key::Backspace) }
    else if u == 0x09 { Some(Key::Tab) }
    else if u == 0x0A || u == 0x0D { Some(Key::Enter) }
    else if u == 0x1B { Some(Key::Escape) }
    else if 0xF704 <= u <= 0xF70F { Some(Key::F((1 + (u - 0xF704)) as u8)) }
    else { None }
}

/// The code points of bare modifier keys (Control, Meta and their right-hand
/// twins), which produce no input.
pub open spec fn bare_modifier(c: char) -> bool {
    let u = c as u32;
    u == 0x11 || u == 0x16 || u == 0x17 || u == 0x18
}

/// The bytes of typing `s` character by character.
pub open spec fn chars_bytes(s: Seq<char>, m: Mods) -> Seq<u8>
    decreases s.len(),
{
    if s.len() == 0 { Seq::empty() } else { chars_bytes(s.drop_last(), m) + char_bytes(s.last(), m) }
}

/// The bytes for one key press given as `text`: a lone named-key code point
/// encodes as that key, a lone bare modifier as nothing; otherwise the text
/// is typed, unless the Meta (Cmd / Super) modifier leaves it to the app.
pub open spec fn map_key_spec(text: Seq<char>, m: Mods, app_cursor: bool) -> Seq<u8> {
    if text.len() == 1 && named_key(text[0]) is Some {
        key_bytes(named_key(text[0]).unwrap(), m, app_cursor)
    } else if text.len() == 1 && bare_modifier(text[0]) {
        Seq::empty()
    } else if m.meta {
        Seq::empty()
    } else {
        chars_bytes(text, m)
    }
}

fn named_key_of(c: char) -> (k: Option<Key>)
    ensures
        k == named_key(c),
{
    let u = c as u32;
    if u == 0xF700 { Some(Key::Up) }
    else if u == 0xF701 { Some(Key::Down) }
    else if u == 0xF702 { Some(Key::Left) }
    else if u == 0xF703 { Some(Key::Right) }
    else if u == 0xF729 { Some(Key::Home) }
    else if u == 0xF72B { Some(Key::End) }
    else if u == 0xF72C { Some(Key::PageUp) }
    else if u == 0xF72D { Some(Key::PageDown) }
    else if u == 0xF727 { Some(Key::Insert) }
    else if u == 0x7F { Some(Key::Delete) }
    else if u == 0x08 { Some(Key::Backspace) }
    else if u == 0x09 { Some(Key::Tab) }
    else if u == 0x0A || u == 0x0D { Some(Key::Enter) }
    else if u == 0x1B { Some(Key::Escape) }
    else if 0xF704 <= u && u <= 0xF70F { Some(Key::F((1 + (u - 0xF704)) as u8)) }
    else { None }
}

/// Type `text` into `out`, character by character.
fn type_text(text: &str, m: Mods, out: &mut Vec<u8>)
    ensures
        final(out)@ == old(out)@ + chars_bytes(text@, m),
{
    let mut it = text.chars();
    let ghost mut k: int = 0;
    loop
        invariant
            0 <= k <= text@.len(),
            it.remaining() == text@.skip(k),
            out@ == old(out)@ + chars_bytes(text@.take(k), m),
        ensures
            out@ == old(out)@ + chars_bytes(text@, m),
        decreases text@.len() - k,
    {
        match it.next() {
            Some(c) => {
                proof {
                    assert(text@.take(k + 1).drop_last() =~= text@.take(k));
                    assert(text@.take(k + 1).last() == c);
                }
                encode_char(c, m, out);
                proof {
                    assert(out@ =~= old(out)@ + chars_bytes(text@.take(k + 1), m));
                    k = k + 1;
                }
            },
            None => {
                assert(text@.take(k) =~= text@);
                break;
            },
        }
    }
}

/// Encode one key press given as `text` with modifiers `m`; `app_cursor` is
/// the terminal's DECCKM state. Empty for bare modifiers and for Meta combos
/// left to the app.
pub fn map_key(text: &str, m: Mods, app_cursor: bool) -> (out: Vec<u8>)
    ensures
        out@ == map_key_spec(text@, m, app_cursor),
{
    let mut out: Vec<u8> = Vec::new();
    let mut it = text.chars();
    let first = it.next();
    let second = it.next();
    if let Some(ch) = first {
        if second.is_none() {
            assert(text@.len() == 1);
            match named_key_of(ch) {
                Some(k) => {
                    encode_key(k, m, app_cursor, &mut out);
                    assert(out@ =~= map_key_spec(text@, m, app_cursor));
                    return out;
                },
                None => {},
            }
            let u = ch as u32;
            if u == 0x11 || u == 0x16 || u == 0x17 || u == 0x18 {
                return out;
            }
        }
    }
    if m.meta {
        return out;
    }
    type_text(text, m, &mut out);
    assert(out@ =~= chars_bytes(text@, m));
    out
}

/// A key press as the windowing toolkit reports it: a named key, the space
/// bar, a character string, or anything else (which sends nothing).
#[derive(Debug)]
pub enum Pressed {
    Named(Key),
    Space,
    Character(String),
    Other,
}

/// The bytes a key press sends: named keys through the key encoder, space
/// and the first character of a character key through the character
/// encoder (none for a Meta combo or an empty string).
pub open spec fn encode_spec(p: Pressed, m: Mods, app_cursor: bool) -> Seq<u8> {
    match p {
        Pressed::Named(k) => key_bytes(k, m, app_cursor),
        Pressed::Space => char_bytes(' ', m),
        Pressed::Character(s) => if m.meta || s@.len() == 0 { Seq::empty() } else { char_bytes(s@[0], m) },
        Pressed::Other => Seq::empty(),
    }
}

/// Encode a key press into PTY bytes; `app_cursor` is the terminal's DECCKM
/// state.
pub fn encode(logical: &Pressed, m: Mods, app_cursor: bool) -> (out: Vec<u8>)
    ensures
        out@ == encode_spec(*logical, m, app_cursor),
{
    let mut out: Vec<u8> = Vec::new();
    match logical {
        Pressed::Named(k) => {
            encode_key(*k, m, app_cursor, &mut out);
        },
        Pressed::Space => {
            encode_char(' ', m, &mut out);
        },
        Pressed::Character(s) => {
            if m.meta {
                return out;
            }
            let mut it = s.as_str().chars();
            match it.next() {
                Some(c) => encode_char(c, m, &mut out),
                None => {},
            }
        },
        Pressed::Other => {},
    }
    assert(out@ =~= encode_spec(*logical, m, app_cursor));
    out
}

} // verus!
