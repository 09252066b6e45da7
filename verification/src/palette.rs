//! The standard xterm 256-color table and X11 color-spec parsing, used to
//! apply and answer OSC 4 / 10 / 11 / 12 palette control sequences.

use vstd::prelude::*;
use vstd::utf8::valid_utf8;
use crate::text::{
    is_utf8, trim, trim_range, eq_bytes, eq_ignore_case, ascii_lower, parse_uint, parse_bounded,
};
use crate::text::{split_on, split_indices};

verus! {

/// The six intensity steps of the 6x6x6 color cube.
pub open spec fn cube_step(k: int) -> u8 {
    if k == 0 { 0 } else if k == 1 { 95 } else if k == 2 { 135 } else if k == 3 { 175 } else if k == 4 { 215 } else { 255 }
}

/// The default RGB for palette index `i` in the standard xterm 256-color model.
pub open spec fn xterm_rgb(i: u8) -> (u8, u8, u8) {
    if i == 0 { (0, 0, 0) }
    else if i == 1 { (205, 0, 0) }
    else if i == 2 { (0, 205, 0) }
    else if i == 3 { (205, 205, 0) }
    else if i == 4 { (0, 0, 238) }
    else if i == 5 { (205, 0, 205) }
    else if i == 6 { (0, 205, 205) }
    else if i == 7 { (229, 229, 229) }
    else if i == 8 { (127, 127, 127) }
    else if i == 9 { (255, 0, 0) }
    else if i == 10 { (0, 255, 0) }
    else if i == 11 { (255, 255, 0) }
    else if i == 12 { (92, 92, 255) }
    else if i == 13 { (255, 0, 255) }
    else if i == 14 { (0, 255, 255) }
    else if i == 15 { (255, 255, 255) }
    else if i <= 231 {
        let n = i - 16;
        (cube_step(n / 36), cube_step((n % 36) / 6), cube_step(n % 6))
    } else {
        let v = (8 + (i - 232) * 10) as u8;
        (v, v, v)
    }
}

fn cube(k: u8) -> (v: u8)
    requires
        k < 6,
    ensures
        v == cube_step(k as int),
{
    if k == 0 { 0 } else if k == 1 { 95 } else if k == 2 { 135 } else if k == 3 { 175 } else if k == 4 { 215 } else { 255 }
}

/// The default RGB for palette index `i`: 0..15 the ANSI/bright base colors,
/// 16..231 a 6x6x6 cube, 232..255 a grayscale ramp. These are the values a
/// program gets before any OSC 4 override.
pub fn xterm256(i: u8) -> (rgb: (u8, u8, u8))
    ensures
        rgb == xterm_rgb(i),
{
    if i == 0 { (0, 0, 0) }
    else if i == 1 { (205, 0, 0) }
    else if i == 2 { (0, 205, 0) }
    else if i == 3 { (205, 205, 0) }
    else if i == 4 { (0, 0, 238) }
    else if i == 5 { (205, 0, 205) }
    else if i == 6 { (0, 205, 205) }
    else if i == 7 { (229, 229, 229) }
    else if i == 8 { (127, 127, 127) }
    else if i == 9 { (255, 0, 0) }
    else if i == 10 { (0, 255, 0) }
    else if i == 11 { (255, 255, 0) }
    else if i == 12 { (92, 92, 255) }
    else if i == 13 { (255, 0, 255) }
    else if i == 14 { (0, 255, 255) }
    else if i == 15 { (255, 255, 255) }
    else if i <= 231 {
        let n = i - 16;
        (cube(n / 36), cube((n % 36) / 6), cube(n % 6))
    } else {
        let v = 8 + (i - 232) * 10;
        (v, v, v)
    }
}

// --- color specifications -------------------------------------------------

/// `2^(4 * digits) - 1`: the largest value a hex channel of that width holds.
pub open spec fn channel_max(digits: nat) -> nat {
    if digits == 1 { 0xf } else if digits == 2 { 0xff } else if digits == 3 { 0xfff } else { 0xffff }
}

/// A 1..4 digit hex channel scaled to 8 bits (xterm semantics: `v * 255 / max`,
/// rounded to nearest).
pub open spec fn scale_channel(h: Seq<u8>) -> Option<u8> {
    if h.len() == 0 || h.len() > 4 {
        None
    } else {
        match parse_bounded(h, 16, 0xffff_ffff) {
            Some(v) => {
                let max = channel_max(h.len());
                Some(((v * 255 + max / 2) / max) as u8)
            },
            None => None,
        }
    }
}

/// `rgb:R/G/B` after the prefix: exactly three `/`-separated channels.
pub open spec fn rgb_form(rest: Seq<u8>) -> Option<(u8, u8, u8)> {
    let parts = split_on(rest, 0x2f);
    if parts.len() < 3 {
        None
    } else {
        match (scale_channel(parts[0]), scale_channel(parts[1]), scale_channel(parts[2])) {
            (Some(r), Some(g), Some(b)) => if parts.len() == 3 { Some((r, g, b)) } else { None },
            _ => None,
        }
    }
}

/// `#RGB` / `#RRGGBB` / `#RRRGGGBBB` / `#RRRRGGGGBBBB` after the `#`.
pub open spec fn hash_form(hex: Seq<u8>) -> Option<(u8, u8, u8)> {
    let n = hex.len();
    let w = n / 3;
    if n % 3 != 0 || !(1 <= w <= 4) {
        None
    } else {
        match (
            scale_channel(hex.subrange(0, w as int)),
            scale_channel(hex.subrange(w as int, 2 * w as int)),
            scale_channel(hex.subrange(2 * w as int, 3 * w as int)),
        ) {
            (Some(r), Some(g), Some(b)) => Some((r, g, b)),
            _ => None,
        }
    }
}

pub open spec fn lowered(s: Seq<u8>) -> Seq<u8> {
    s.map_values(|c: u8| ascii_lower(c))
}

/// The small set of X11 color names understood, matched case-insensitively.
pub open spec fn named_rgb(name: Seq<u8>) -> Option<(u8, u8, u8)> {
    let n = lowered(name);
    if n == lowered(seq![0x62u8, 0x6c, 0x61, 0x63, 0x6b]) { Some((0, 0, 0)) }
    else if n == lowered(seq![0x72u8, 0x65, 0x64]) { Some((255, 0, 0)) }
    else if n == lowered(seq![0x67u8, 0x72, 0x65, 0x65, 0x6e]) { Some((0, 128, 0)) }
    else if n == lowered(seq![0x79u8, 0x65, 0x6c, 0x6c, 0x6f, 0x77]) { Some((255, 255, 0)) }
    else if n == lowered(seq![0x62u8, 0x6c, 0x75, 0x65]) { Some((0, 0, 255)) }
    else if n == lowered(seq![0x6du8, 0x61, 0x67, 0x65, 0x6e, 0x74, 0x61]) { Some((255, 0, 255)) }
    else if n == lowered(seq![0x63u8, 0x79, 0x61, 0x6e]) { Some((0, 255, 255)) }
    else if n == lowered(seq![0x77u8, 0x68, 0x69, 0x74, 0x65]) { Some((255, 255, 255)) }
    else if n == lowered(seq![0x67u8, 0x72, 0x61, 0x79]) || n == lowered(seq![0x67u8, 0x72, 0x65, 0x79]) { Some((190, 190, 190)) }
    else { None }
}

pub open spec fn rgb_prefix() -> Seq<u8> {
    seq![0x72u8, 0x67, 0x62, 0x3a]
}

pub open spec fn starts_with(s: Seq<u8>, p: Seq<u8>) -> bool {
    s.len() >= p.len() && s.take(p.len() as int) == p
}

/// What a trimmed color specification denotes.
pub open spec fn trimmed_color(t: Seq<u8>) -> Option<(u8, u8, u8)> {
    if starts_with(t, rgb_prefix()) {
        rgb_form(t.skip(4))
    } else if t.len() >= 1 && t[0] == 0x23 {
        hash_form(t.skip(1))
    } else {
        named_rgb(t)
    }
}

/// What an X11 / xterm color specification denotes, as 8-bit RGB.
pub open spec fn color_spec(s: Seq<u8>) -> Option<(u8, u8, u8)> {
    if !valid_utf8(s) {
        None
    } else {
        trimmed_color(trim(s))
    }
}

/// A UTF-8 continuation byte: a string can't be cut in front of one.
pub open spec fn is_continuation(c: u8) -> bool {
    0x80 <= c <= 0xbf
}

/// The `#` form cuts the digits into three equal byte runs; a cut that falls
/// inside a multi-byte character is a slicing panic.
pub open spec fn color_spec_panics(s: Seq<u8>) -> bool {
    let t = trim(s);
    let hex = t.skip(1);
    let w = hex.len() / 3;
    &&& valid_utf8(s)
    &&& !starts_with(t, rgb_prefix())
    &&& t.len() >= 1 && t[0] == 0x23
    &&& hex.len() % 3 == 0
    &&& 1 <= w <= 4
    &&& (is_continuation(hex[w as int]) || is_continuation(hex[2 * w as int]))
}

/// Scale the hex channel `b[lo..hi]`.
fn scale_hex(b: &[u8], lo: usize, hi: usize) -> (r: Option<u8>)
    requires
        lo <= hi <= b@.len(),
    ensures
        r == scale_channel(b@.subrange(lo as int, hi as int)),
{
    let n = hi - lo;
    if n == 0 || n > 4 {
        return None;
    }
    match parse_uint(b, lo, hi, 16, 0xffff_ffff) {
        Some(v) => {
            let max: u64 = if n == 1 { 0xf } else if n == 2 { 0xff } else if n == 3 { 0xfff } else { 0xffff };
            proof {
                let h = b@.subrange(lo as int, hi as int);
                assert(channel_max(h.len()) == max);
                // A value of `n` hex digits (after an optional `+`) is at most `max`.
                crate::palette::lemma_hex_value_bound(h);
            }
            Some(((v * 255 + max / 2) / max) as u8)
        },
        None => None,
    }
}

/// The value of a short hex channel fits its width.
pub proof fn lemma_hex_value_bound(h: Seq<u8>)
    requires
        1 <= h.len() <= 4,
        parse_bounded(h, 16, 0xffff_ffff) is Some,
    ensures
        parse_bounded(h, 16, 0xffff_ffff).unwrap() <= channel_max(h.len()),
{
    let d = if h.len() > 0 && h[0] == 0x2b { h.skip(1) } else { h };
    lemma_digits_bound(d, d.len());
    if d.len() < h.len() {
        lemma_pow16_mono(d.len(), h.len());
    }
    reveal_with_fuel(hex_cap, 5);
    assert(hex_cap(h.len()) == channel_max(h.len()));
}

/// `16^k - 1`.
pub open spec fn hex_cap(k: nat) -> nat
    decreases k,
{
    if k == 0 { 0 } else { hex_cap((k - 1) as nat) * 16 + 15 }
}

proof fn lemma_pow16_mono(a: nat, b: nat)
    requires
        a <= b,
    ensures
        hex_cap(a) <= hex_cap(b),
    decreases b,
{
    if a < b {
        lemma_pow16_mono(a, (b - 1) as nat);
    }
}

proof fn lemma_digits_bound(d: Seq<u8>, k: nat)
    requires
        k == d.len(),
        crate::text::all_digits(d, 16),
    ensures
        crate::text::digits_value(d, 16) <= hex_cap(k),
    decreases k,
{
    if k > 0 {
        let p = d.drop_last();
        assert forall|i: int| 0 <= i < p.len() implies (#[trigger] crate::text::digit_value(p[i], 16)) is Some by {
            assert(p[i] == d[i]);
        }
        lemma_digits_bound(p, (k - 1) as nat);
        assert(crate::text::digit_value(d[d.len() - 1], 16) is Some);
    }
}

/// Whether the color spec `s` would cut a multi-byte character (see
/// `color_spec_panics`); `parse_color_spec` answers `None` for such a spec.
pub fn color_spec_cuts_char(s: &[u8]) -> (r: bool)
    ensures
        r == color_spec_panics(s@),
{
    assert(s@.subrange(0, s@.len() as int) =~= s@);
    if !is_utf8(s, 0, s.len()) {
        return false;
    }
    let (lo, hi) = trim_range(s, 0, s.len());
    let ghost t = s@.subrange(lo as int, hi as int);
    if hi - lo >= 4 && eq_bytes(s, lo, lo + 4, &[0x72u8, 0x67, 0x62, 0x3a]) {
        assert(t.take(4) =~= s@.subrange(lo as int, lo + 4));
        return false;
    }
    proof {
        if starts_with(t, rgb_prefix()) {
            assert(t.take(4) =~= s@.subrange(lo as int, lo + 4));
        }
    }
    if hi - lo < 1 || s[lo] != 0x23 {
        return false;
    }
    let n = hi - lo - 1;
    let w = n / 3;
    if n % 3 != 0 || w < 1 || w > 4 {
        return false;
    }
    let a = lo + 1 + w;
    let c = lo + 1 + 2 * w;
    assert(t.skip(1)[w as int] == s@[a as int]);
    assert(t.skip(1)[2 * w as int] == s@[c as int]);
    (0x80 <= s[a] && s[a] <= 0xbf) || (0x80 <= s[c] && s[c] <= 0xbf)
}

/// Parse an X11 / xterm color specification into an 8-bit RGB triple.
///
/// Accepts `rgb:R/G/B` (1-4 hex digits per channel, scaled to 8 bit),
/// `#RGB` / `#RRGGBB` / `#RRRGGGBBB` / `#RRRRGGGGBBBB`, and a small set of
/// common X11 color names. Returns `None` for anything unrecognized, a `#`
/// spec whose equal runs would split a multi-byte character included.
pub fn parse_color_spec(s: &[u8]) -> (r: Option<(u8, u8, u8)>)
    ensures
        r == (if color_spec_panics(s@) { None } else { color_spec(s@) }),
{
    if color_spec_cuts_char(s) {
        return None;
    }
    assert(s@.subrange(0, s@.len() as int) =~= s@);
    if !is_utf8(s, 0, s.len()) {
        return None;
    }
    let (lo, hi) = trim_range(s, 0, s.len());
    trimmed_spec(s, lo, hi)
}

/// The color denoted by the already-trimmed spec `s[lo..hi]`.
fn trimmed_spec(s: &[u8], lo: usize, hi: usize) -> (r: Option<(u8, u8, u8)>)
    requires
        lo <= hi <= s@.len(),
    ensures
        r == trimmed_color(s@.subrange(lo as int, hi as int)),
{
    let ghost t = s@.subrange(lo as int, hi as int);
    if hi - lo >= 4 && eq_bytes(s, lo, lo + 4, &[0x72u8, 0x67, 0x62, 0x3a]) {
        assert(t.take(4) =~= s@.subrange(lo as int, lo + 4));
        assert(t.skip(4) =~= s@.subrange(lo + 4, hi as int));
        return rgb_channels(s, lo + 4, hi);
    }
    proof {
        if starts_with(t, rgb_prefix()) {
            assert(t.take(4) =~= s@.subrange(lo as int, lo + 4));
        }
    }
    if hi - lo >= 1 && s[lo] == 0x23 {
        assert(t.skip(1) =~= s@.subrange(lo + 1, hi as int));
        return hash_channels(s, lo + 1, hi);
    }
    named_color(s, lo, hi)
}

/// The three equal-width channels of `b[a..hi]`.
fn hash_channels(s: &[u8], a: usize, hi: usize) -> (r: Option<(u8, u8, u8)>)
    requires
        a <= hi <= s@.len(),
    ensures
        r == hash_form(s@.subrange(a as int, hi as int)),
{
    let ghost hex = s@.subrange(a as int, hi as int);
    let n = hi - a;
    if n % 3 != 0 {
        return None;
    }
    let w = n / 3;
    if w < 1 || w > 4 {
        return None;
    }
    assert(hex.subrange(0, w as int) =~= s@.subrange(a as int, (a + w) as int));
    assert(hex.subrange(w as int, 2 * w as int) =~= s@.subrange((a + w) as int, (a + 2 * w) as int));
    assert(hex.subrange(2 * w as int, 3 * w as int) =~= s@.subrange((a + 2 * w) as int, (a + 3 * w) as int));
    let r = scale_hex(s, a, a + w);
    let g = scale_hex(s, a + w, a + 2 * w);
    let b = scale_hex(s, a + 2 * w, a + 3 * w);
    match (r, g, b) {
        (Some(r), Some(g), Some(b)) => Some((r, g, b)),
        _ => None,
    }
}

/// The `/`-separated channels of `b[lo..hi]`.
fn rgb_channels(b: &[u8], lo: usize, hi: usize) -> (r: Option<(u8, u8, u8)>)
    requires
        lo <= hi <= b@.len(),
    ensures
        r == rgb_form(b@.subrange(lo as int, hi as int)),
{
    let parts = split_indices(b, lo, hi, 0x2f);
    let ghost rest = b@.subrange(lo as int, hi as int);
    if parts.len() < 3 {
        return None;
    }
    let (a0, z0) = parts[0];
    let (a1, z1) = parts[1];
    let (a2, z2) = parts[2];
    let r = scale_hex(b, a0, z0);
    let g = scale_hex(b, a1, z1);
    let bl = scale_hex(b, a2, z2);
    match (r, g, bl) {
        (Some(r), Some(g), Some(bl)) => if parts.len() == 3 { Some((r, g, bl)) } else { None },
        _ => None,
    }
}

/// One of the X11 color names, matched against `b[lo..hi]` case-insensitively.
fn named_color(b: &[u8], lo: usize, hi: usize) -> (r: Option<(u8, u8, u8)>)
    requires
        lo <= hi <= b@.len(),
    ensures
        r == named_rgb(b@.subrange(lo as int, hi as int)),
{
    if eq_ignore_case(b, lo, hi, &[0x62u8, 0x6c, 0x61, 0x63, 0x6b]) {
        Some((0, 0, 0))
    } else if eq_ignore_case(b, lo, hi, &[0x72u8, 0x65, 0x64]) {
        Some((255, 0, 0))
    } else if eq_ignore_case(b, lo, hi, &[0x67u8, 0x72, 0x65, 0x65, 0x6e]) {
        Some((0, 128, 0))
    } else if eq_ignore_case(b, lo, hi, &[0x79u8, 0x65, 0x6c, 0x6c, 0x6f, 0x77]) {
        Some((255, 255, 0))
    } else if eq_ignore_case(b, lo, hi, &[0x62u8, 0x6c, 0x75, 0x65]) {
        Some((0, 0, 255))
    } else if eq_ignore_case(b, lo, hi, &[0x6du8, 0x61, 0x67, 0x65, 0x6e, 0x74, 0x61]) {
        Some((255, 0, 255))
    } else if eq_ignore_case(b, lo, hi, &[0x63u8, 0x79, 0x61, 0x6e]) {
        Some((0, 255, 255))
    } else if eq_ignore_case(b, lo, hi, &[0x77u8, 0x68, 0x69, 0x74, 0x65]) {
        Some((255, 255, 255))
    } else if eq_ignore_case(b, lo, hi, &[0x67u8, 0x72, 0x61, 0x79]) || eq_ignore_case(b, lo, hi, &[0x67u8, 0x72, 0x65, 0x79]) {
        Some((190, 190, 190))
    } else {
        None
    }
}

// --- the color cube and the grey ramp -----------------------------------------------

/// The six levels of each axis of the xterm color cube.
pub open spec fn cube_levels() -> Seq<u8> {
    seq![0u8, 95, 135, 175, 215, 255]
}

/// Index `16 + 36 r + 6 g + b` of the 256-color palette is the cube color
/// with red level `r`, green level `g` and blue level `b` (each 0..5), and
/// index `232 + k` is the grey `8 + 10 k`.
pub proof fn lemma_xterm_cube(r: int, g: int, b: int, k: int)
    ensures
        0 <= r < 6 && 0 <= g < 6 && 0 <= b < 6 ==> xterm_rgb((16 + 36 * r + 6 * g + b) as u8)
            == (cube_levels()[r], cube_levels()[g], cube_levels()[b]),
        0 <= k < 24 ==> xterm_rgb((232 + k) as u8) == ((8 + 10 * k) as u8, (8 + 10 * k) as u8, (8 + 10 * k) as u8),
{
    if 0 <= r < 6 && 0 <= g < 6 && 0 <= b < 6 {
        let n = 36 * r + 6 * g + b;
        assert(n / 36 == r && (n % 36) / 6 == g && n % 6 == b) by (nonlinear_arith)
            requires
                n == 36 * r + 6 * g + b,
                0 <= r < 6,
                0 <= g < 6,
                0 <= b < 6,
        ;
        assert(((16 + n) as u8) as int - 16 == n);
    }
}

} // verus!
