//! Keyboard input encoding: turn a logical key press into the byte sequence a
//! host program expects, respecting DECCKM (application cursor keys) and
//! modifier combinations (xterm-style `CSI 1 ; mod <final>`).
//!
//! Front-ends map their key events onto `Key` and call `encode_key`; keeping
//! this in the core means every front-end encodes keys identically.

use vstd::prelude::*;
use vstd::utf8::*;

verus! {

/// Modifier state; xterm's modifier parameter is `1 + bits`, with shift = 1,
/// alt = 2, ctrl = 4, meta = 8.
#[derive(Clone, Copy, Debug, Default, PartialEq, Eq, Structural)]
pub struct Mods {
    pub shift: bool,
    pub alt: bool,
    pub ctrl: bool,
    pub meta: bool,
}

pub open spec fn mods_code(m: Mods) -> u8 {
    (1 + (if m.shift { 1int } else { 0 }) + (if m.alt { 2int } else { 0 }) + (if m.ctrl { 4int } else { 0 })
        + (if m.meta { 8int } else { 0 })) as u8
}

pub open spec fn mods_any(m: Mods) -> bool {
    m.shift || m.alt || m.ctrl || m.meta
}

impl Mods {
    fn xterm_code(&self) -> (c: u8)
        ensures
            c == mods_code(*self),
    {
        let mut m: u8 = 1;
        if self.shift {
            m = m + 1;
        }
        if self.alt {
            m = m + 2;
        }
        if self.ctrl {
            m = m + 4;
        }
        if self.meta {
            m = m + 8;
        }
        m
    }

    fn any(&self) -> (b: bool)
        ensures
            b == mods_any(*self),
    {
        self.shift || self.alt || self.ctrl || self.meta
    }
}

/// A logical key. Printable text is handled by `encode_char`; this enum
/// covers the keys that need escape sequences.
#[derive(Clone, Copy, Debug, PartialEq, Eq, Structural)]
pub enum Key {
    Up,
    Down,
    Right,
    Left,
    Home,
    End,
    Insert,
    Delete,
    PageUp,
    PageDown,
    Enter,
    Backspace,
    Tab,
    Escape,
    F(u8),
}

/// The decimal digits of `n`.
pub open spec fn dec(n: nat) -> Seq<u8>
    decreases n,
{
    if n < 10 { seq![(0x30 + n) as u8] } else { dec(n / 10).push((0x30 + n % 10) as u8) }
}

/// `ESC [ 1 ; code letter`
pub open spec fn csi_mod_letter(code: u8, letter: u8) -> Seq<u8> {
    seq![0x1bu8, 0x5b, 0x31, 0x3b] + dec(code as nat) + seq![letter]
}

/// `ESC [ n ; code ~` when modified, else `ESC [ n ~`.
pub open spec fn csi_tilde(n: u8, code: u8, modified: bool) -> Seq<u8> {
    if modified {
        seq![0x1bu8, 0x5b] + dec(n as nat) + seq![0x3bu8] + dec(code as nat) + seq![0x7eu8]
    } else {
        seq![0x1bu8, 0x5b] + dec(n as nat) + seq![0x7eu8]
    }
}

/// A cursor key: modified form, else `SS3 letter` in application mode, else `CSI letter`.
pub open spec fn cursor_key(letter: u8, m: Mods, app: bool) -> Seq<u8> {
    if mods_any(m) {
        csi_mod_letter(mods_code(m), letter)
    } else if app {
        seq![0x1bu8, 0x4f, letter]
    } else {
        seq![0x1bu8, 0x5b, letter]
    }
}

/// Function key `n` (F1..F12; others send nothing).
pub open spec fn fn_key(n: u8, code: u8, modified: bool) -> Seq<u8> {
    let ss3 = |letter: u8| if modified { csi_mod_letter(code, letter) } else { seq![0x1bu8, 0x4f, letter] };
    if n == 1 { ss3(0x50) }
    else if n == 2 { ss3(0x51) }
    else if n == 3 { ss3(0x52) }
    else if n == 4 { ss3(0x53) }
    else if n == 5 { csi_tilde(15, code, modified) }
    else if n == 6 { csi_tilde(17, code, modified) }
    else if n == 7 { csi_tilde(18, code, modified) }
    else if n == 8 { csi_tilde(19, code, modified) }
    else if n == 9 { csi_tilde(20, code, modified) }
    else if n == 10 { csi_tilde(21, code, modified) }
    else if n == 11 { csi_tilde(23, code, modified) }
    else if n == 12 { csi_tilde(24, code, modified) }
    else { Seq::empty() }
}

/// The bytes a key press sends.
pub open spec fn key_bytes(key: Key, m: Mods, app: bool) -> Seq<u8> {
    let esc = if m.alt { seq![0x1bu8] } else { Seq::<u8>::empty() };
    match key {
        Key::Up => cursor_key(0x41, m, app),
        Key::Down => cursor_key(0x42, m, app),
        Key::Right => cursor_key(0x43, m, app),
        Key::Left => cursor_key(0x44, m, app),
        Key::Home => cursor_key(0x48, m, app),
        Key::End => cursor_key(0x46, m, app),
        Key::Insert => csi_tilde(2, mods_code(m), mods_any(m)),
        Key::Delete => csi_tilde(3, mods_code(m), mods_any(m)),
        Key::PageUp => csi_tilde(5, mods_code(m), mods_any(m)),
        Key::PageDown => csi_tilde(6, mods_code(m), mods_any(m)),
        Key::Enter => esc + seq![0x0du8],
        Key::Backspace => esc + seq![if m.ctrl { 0x08u8 } else { 0x7fu8 }],
        Key::Tab => if m.shift { seq![0x1bu8, 0x5b, 0x5a] } else { seq![0x09u8] },
        Key::Escape => seq![0x1bu8],
        Key::F(n) => fn_key(n, mods_code(m), mods_any(m)),
    }
}

fn push_all(out: &mut Vec<u8>, b: &[u8])
    ensures
        final(out)@ == old(out)@ + b@,
{
    let mut i: usize = 0;
    let ghost start = out@;
    while i < b.len()
        invariant
            i <= b@.len(),
            out@ == start + b@.take(i as int),
        decreases b.len() - i,
    {
        out.push(b[i]);
        i = i + 1;
        assert(out@ =~= start + b@.take(i as int));
    }
    assert(b@.take(i as int) =~= b@);
}

/// Append the decimal digits of `n`.
pub fn push_decimal(out: &mut Vec<u8>, n: u64)
    ensures
        final(out)@ == old(out)@ + dec(n as nat),
    decreases n,
{
    if n >= 10 {
        push_decimal(out, n / 10);
    }
    out.push((0x30 + n % 10) as u8);
    proof {
        if n >= 10 {
            assert(dec(n as nat) == dec((n / 10) as nat).push((0x30 + n % 10) as u8));
        }
    }
    assert(final_is(out@, old(out)@, n));
}

pub open spec fn final_is(v: Seq<u8>, o: Seq<u8>, n: u64) -> bool {
    v =~= o + dec(n as nat)
}

fn push_csi_mod_letter(out: &mut Vec<u8>, code: u8, letter: u8)
    ensures
        final(out)@ == old(out)@ + csi_mod_letter(code, letter),
{
    let ghost start = out@;
    push_all(out, &[0x1bu8, 0x5b, 0x31, 0x3b]);
    push_decimal(out, code as u64);
    out.push(letter);
    assert(out@ =~= start + csi_mod_letter(code, letter));
}

fn push_csi_tilde(out: &mut Vec<u8>, n: u8, code: u8, modified: bool)
    ensures
        final(out)@ == old(out)@ + csi_tilde(n, code, modified),
{
    let ghost start = out@;
    out.push(0x1b);
    out.push(0x5b);
    push_decimal(out, n as u64);
    if modified {
        out.push(0x3b);
        push_decimal(out, code as u64);
    }
    out.push(0x7e);
    assert(out@ =~= start + csi_tilde(n, code, modified));
}

fn push_cursor_key(out: &mut Vec<u8>, letter: u8, mods: Mods, app: bool)
    ensures
        final(out)@ == old(out)@ + cursor_key(letter, mods, app),
{
    if mods.any() {
        push_csi_mod_letter(out, mods.xterm_code(), letter);
    } else if app {
        push_all(out, &[0x1bu8, 0x4f, letter]);
    } else {
        push_all(out, &[0x1bu8, 0x5b, letter]);
    }
}

/// Encode `key` under `mods`, appending to `out`.
///
/// `app_cursor` is DECCKM state (arrows/Home/End use the `SS3`/application
/// form).
pub fn encode_key(key: Key, mods: Mods, app_cursor: bool, out: &mut Vec<u8>)
    ensures
        final(out)@ == old(out)@ + key_bytes(key, mods, app_cursor),
{
    let code = mods.xterm_code();
    let ghost start = out@;
    match key {
        Key::Up => push_cursor_key(out, 0x41, mods, app_cursor),
        Key::Down => push_cursor_key(out, 0x42, mods, app_cursor),
        Key::Right => push_cursor_key(out, 0x43, mods, app_cursor),
        Key::Left => push_cursor_key(out, 0x44, mods, app_cursor),
        Key::Home => push_cursor_key(out, 0x48, mods, app_cursor),
        Key::End => push_cursor_key(out, 0x46, mods, app_cursor),
        Key::Insert => push_csi_tilde(out, 2, code, mods.any()),
        Key::Delete => push_csi_tilde(out, 3, code, mods.any()),
        Key::PageUp => push_csi_tilde(out, 5, code, mods.any()),
        Key::PageDown => push_csi_tilde(out, 6, code, mods.any()),
        Key::Enter => {
            if mods.alt {
                out.push(0x1b);
            }
            out.push(0x0d);
            assert(out@ =~= start + key_bytes(key, mods, app_cursor));
        },
        Key::Backspace => {
            if mods.alt {
                out.push(0x1b);
            }
            // DEL; ctrl+backspace sends BS.
            out.push(if mods.ctrl { 0x08 } else { 0x7f });
            assert(out@ =~= start + key_bytes(key, mods, app_cursor));
        },
        Key::Tab => {
            if mods.shift {
                push_all(out, &[0x1bu8, 0x5b, 0x5a]);
            } else {
                out.push(0x09);
            }
            assert(out@ =~= start + key_bytes(key, mods, app_cursor));
        },
        Key::Escape => {
            out.push(0x1b);
            assert(out@ =~= start + key_bytes(key, mods, app_cursor));
        },
        Key::F(n) => encode_fn(n, code, mods.any(), out),
    }
}

fn encode_fn(n: u8, code: u8, modified: bool, out: &mut Vec<u8>)
    ensures
        final(out)@ == old(out)@ + fn_key(n, code, modified),
{
    let ghost start = out@;
    if 1 <= n && n <= 4 {
        let letter: u8 = if n == 1 { 0x50 } else if n == 2 { 0x51 } else if n == 3 { 0x52 } else { 0x53 };
        if modified {
            push_csi_mod_letter(out, code, letter);
        } else {
            push_all(out, &[0x1bu8, 0x4f, letter]);
        }
    } else if 5 <= n && n <= 12 {
        let num: u8 = if n == 5 { 15 } else if n == 6 { 17 } else if n == 7 { 18 } else if n == 8 { 19 }
            else if n == 9 { 20 } else if n == 10 { 21 } else if n == 11 { 23 } else { 24 };
        push_csi_tilde(out, num, code, modified);
    } else {
        assert(out@ =~= start + fn_key(n, code, modified));
    }
}

/// The C0 byte `Ctrl` folds a character to, if any.
pub open spec fn ctrl_fold(c: char) -> Option<u8> {
    let b = c as u32;
    if 0x61 <= b <= 0x7a { Some((b - 0x60) as u8) }
    else if 0x41 <= b <= 0x5a { Some((b - 0x40) as u8) }
    else if b == 0x40 { Some(0) }
    else if b == 0x5b { Some(0x1b) }
    else if b == 0x5c { Some(0x1c) }
    else if b == 0x5d { Some(0x1d) }
    else if b == 0x5e { Some(0x1e) }
    else if b == 0x5f { Some(0x1f) }
    else if b == 0x20 { Some(0) }
    else { None }
}

/// The bytes a printable character sends: Alt prefixes ESC, Ctrl folds
/// letters and a few punctuation marks to their C0 byte, and any other
/// character is its UTF-8 encoding.
pub open spec fn char_bytes(c: char, m: Mods) -> Seq<u8> {
    let esc = if m.alt { seq![0x1bu8] } else { Seq::<u8>::empty() };
    if m.ctrl && ctrl_fold(c) is Some {
        esc + seq![ctrl_fold(c).unwrap()]
    } else {
        esc + encode_scalar(c as u32)
    }
}

/// Append the UTF-8 encoding of `c`.
pub fn push_utf8(out: &mut Vec<u8>, c: char)
    ensures
        final(out)@ == old(out)@ + encode_scalar(c as u32),
{
    let ghost start = out@;
    let s = c as u32;
    if s <= 0x7f {
        out.push((s & 0x7F) as u8);
    } else if s <= 0x7ff {
        out.push(0xC0 | ((s >> 6) & 0x1F) as u8);
        out.push(0x80 | (s & 0x3F) as u8);
    } else if s <= 0xffff {
        out.push(0xE0 | ((s >> 12) & 0x0F) as u8);
        out.push(0x80 | ((s >> 6) & 0x3F) as u8);
        out.push(0x80 | (s & 0x3F) as u8);
    } else {
        out.push(0xF0 | ((s >> 18) & 0x7) as u8);
        out.push(0x80 | ((s >> 12) & 0x3F) as u8);
        out.push(0x80 | ((s >> 6) & 0x3F) as u8);
        out.push(0x80 | (s & 0x3F) as u8);
    }
    assert(out@ =~= start + encode_scalar(c as u32));
}

/// Encode a printable character with an optional Alt (meta) prefix and Ctrl
/// folding, appending to `out`. Handles the common `Ctrl+letter -> C0`
/// mapping so front-ends don't each reimplement it.
pub fn encode_char(c: char, mods: Mods, out: &mut Vec<u8>)
    ensures
        final(out)@ == old(out)@ + char_bytes(c, mods),
{
    let ghost start = out@;
    if mods.ctrl {
        let b = c as u32;
        let ctl: Option<u8> = if 0x61 <= b && b <= 0x7a {
            Some((b - 0x60) as u8)
        } else if 0x41 <= b && b <= 0x5a {
            Some((b - 0x40) as u8)
        } else if b == 0x40 {
            Some(0)
        } else if b == 0x5b {
            Some(0x1b)
        } else if b == 0x5c {
            Some(0x1c)
        } else if b == 0x5d {
            Some(0x1d)
        } else if b == 0x5e {
            Some(0x1e)
        } else if b == 0x5f {
            Some(0x1f)
        } else if b == 0x20 {
            Some(0)
        } else {
            None
        };
        if let Some(byte) = ctl {
            if mods.alt {
                out.push(0x1b);
            }
            out.push(byte);
            assert(out@ =~= start + char_bytes(c, mods));
            return;
        }
    }
    if mods.alt {
        out.push(0x1b);
    }
    let ghost mid = out@;
    push_utf8(out, c);
    assert(out@ =~= start + char_bytes(c, mods));
}

// --- what the cursor keys send ----------------------------------------------------

/// The cursor and Home / End keys send their own final letter whatever the
/// modifiers and DECCKM: `A`, `B`, `C`, `D` for Up, Down, Right, Left, `H`
/// for Home and `F` for End. Unmodified they are `ESC [ letter`, or
/// `ESC O letter` in application mode; modified, `ESC [ 1 ; code letter`.
/// Home and End never send the same bytes.
pub proof fn lemma_cursor_key_letters(m: Mods, app: bool)
    ensures
        key_bytes(Key::Up, m, app).last() == 0x41,
        key_bytes(Key::Down, m, app).last() == 0x42,
        key_bytes(Key::Right, m, app).last() == 0x43,
        key_bytes(Key::Left, m, app).last() == 0x44,
        key_bytes(Key::Home, m, app).last() == 0x48,
        key_bytes(Key::End, m, app).last() == 0x46,
        key_bytes(Key::Home, m, app) != key_bytes(Key::End, m, app),
        !(m.shift || m.alt || m.ctrl || m.meta) && !app ==> {
            &&& key_bytes(Key::Home, m, app) == seq![0x1bu8, 0x5b, 0x48]
            &&& key_bytes(Key::End, m, app) == seq![0x1bu8, 0x5b, 0x46]
            &&& key_bytes(Key::Up, m, app) == seq![0x1bu8, 0x5b, 0x41]
        },
        !(m.shift || m.alt || m.ctrl || m.meta) && app ==> {
            &&& key_bytes(Key::Home, m, app) == seq![0x1bu8, 0x4f, 0x48]
            &&& key_bytes(Key::End, m, app) == seq![0x1bu8, 0x4f, 0x46]
            &&& key_bytes(Key::Up, m, app) == seq![0x1bu8, 0x4f, 0x41]
        },
        (m.shift || m.alt || m.ctrl || m.meta) ==> key_bytes(Key::Home, m, app).take(4) == seq![0x1bu8, 0x5b, 0x31, 0x3b],
{
    let home = key_bytes(Key::Home, m, app);
    let end = key_bytes(Key::End, m, app);
    assert(home.last() != end.last());
    if mods_any(m) {
        assert(home.take(4) =~= seq![0x1bu8, 0x5b, 0x31, 0x3b]);
    }
}

/// The editing keys send `ESC [ n ~` (Insert 2, Delete 3, PageUp 5,
/// PageDown 6), F1..F4 send `ESC O P`..`ESC O S`, Enter CR, Backspace DEL
/// (BS with Ctrl), Tab HT (back-tab `ESC [ Z` with Shift), Escape ESC; Ctrl
/// alone makes a cursor key `ESC [ 1 ; 5 letter` and Shift alone
/// `ESC [ 1 ; 2 letter`.
pub proof fn lemma_key_table(app: bool)
    ensures
        ({
            let none = Mods { shift: false, alt: false, ctrl: false, meta: false };
            let ctrl = Mods { shift: false, alt: false, ctrl: true, meta: false };
            let shift = Mods { shift: true, alt: false, ctrl: false, meta: false };
            &&& key_bytes(Key::Insert, none, app) == seq![0x1bu8, 0x5b, 0x32, 0x7e]
            &&& key_bytes(Key::Delete, none, app) == seq![0x1bu8, 0x5b, 0x33, 0x7e]
            &&& key_bytes(Key::PageUp, none, app) == seq![0x1bu8, 0x5b, 0x35, 0x7e]
            &&& key_bytes(Key::PageDown, none, app) == seq![0x1bu8, 0x5b, 0x36, 0x7e]
            &&& key_bytes(Key::F(1), none, app) == seq![0x1bu8, 0x4f, 0x50]
            &&& key_bytes(Key::F(2), none, app) == seq![0x1bu8, 0x4f, 0x51]
            &&& key_bytes(Key::F(3), none, app) == seq![0x1bu8, 0x4f, 0x52]
            &&& key_bytes(Key::F(4), none, app) == seq![0x1bu8, 0x4f, 0x53]
            &&& key_bytes(Key::Enter, none, app) == seq![0x0du8]
            &&& key_bytes(Key::Backspace, none, app) == seq![0x7fu8]
            &&& key_bytes(Key::Backspace, ctrl, app) == seq![0x08u8]
            &&& key_bytes(Key::Tab, none, app) == seq![0x09u8]
            &&& key_bytes(Key::Tab, shift, app) == seq![0x1bu8, 0x5b, 0x5a]
            &&& key_bytes(Key::Escape, none, app) == seq![0x1bu8]
            &&& key_bytes(Key::Up, ctrl, app) == seq![0x1bu8, 0x5b, 0x31, 0x3b, 0x35, 0x41]
            &&& key_bytes(Key::Home, shift, app) == seq![0x1bu8, 0x5b, 0x31, 0x3b, 0x32, 0x48]
        }),
{
    let none = Mods { shift: false, alt: false, ctrl: false, meta: false };
    assert(Seq::<u8>::empty() + seq![0x0du8] =~= seq![0x0du8]);
    assert(Seq::<u8>::empty() + seq![0x7fu8] =~= seq![0x7fu8]);
    assert(Seq::<u8>::empty() + seq![0x08u8] =~= seq![0x08u8]);
    assert(key_bytes(Key::Insert, none, app) =~= seq![0x1bu8, 0x5b, 0x32, 0x7e]);
    assert(key_bytes(Key::Delete, none, app) =~= seq![0x1bu8, 0x5b, 0x33, 0x7e]);
    assert(key_bytes(Key::PageUp, none, app) =~= seq![0x1bu8, 0x5b, 0x35, 0x7e]);
    assert(key_bytes(Key::PageDown, none, app) =~= seq![0x1bu8, 0x5b, 0x36, 0x7e]);
    let ctrl = Mods { shift: false, alt: false, ctrl: true, meta: false };
    let shift = Mods { shift: true, alt: false, ctrl: false, meta: false };
    assert(mods_code(ctrl) == 5);
    assert(mods_code(shift) == 2);
    assert(key_bytes(Key::Up, ctrl, app) =~= seq![0x1bu8, 0x5b, 0x31, 0x3b, 0x35, 0x41]);
    assert(key_bytes(Key::Home, shift, app) =~= seq![0x1bu8, 0x5b, 0x31, 0x3b, 0x32, 0x48]);
}

} // verus!
