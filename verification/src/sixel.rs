//! A Sixel (DEC VT340) graphics decoder: turns a DCS Sixel payload into an
//! RGBA bitmap. Supports raster attributes, RGB and HLS color definitions,
//! run-length (`!`), carriage-return (`$`) and new-line (`-`) controls.
//!
//! Unset pixels are left transparent so the image composites over the terminal
//! background.

use vstd::prelude::*;
use crate::kitty::copy_range;

verus! {

/// A decoded Sixel image as tightly-packed RGBA (row-major, `width*height*4`).
pub struct SixelImage {
    pub width: usize,
    pub height: usize,
    pub rgba: Vec<u8>,
}

/// Hard cap on either side so a hostile payload can't allocate unbounded memory.
pub const MAX_DIM: usize = 4096;

/// An RGBA pixel.
pub type Rgba = [u8; 4];

pub open spec fn rgba(r: u8, g: u8, b: u8, a: u8) -> Rgba {
    [r, g, b, a]
}

pub open spec fn transparent() -> Rgba {
    rgba(0, 0, 0, 0)
}

// --- numbers and colors -------------------------------------------------------

pub open spec fn is_digit(c: u8) -> bool {
    0x30 <= c <= 0x39
}

/// How many digit bytes start at `s[j]`.
pub open spec fn digit_run(s: Seq<u8>, j: int) -> int
    decreases s.len() - j,
{
    if 0 <= j < s.len() && is_digit(s[j]) { 1 + digit_run(s, j + 1) } else { 0 }
}

/// The decimal number at `s[j..]` (saturating at 65535) and how many digit
/// bytes it spans.
pub open spec fn num_at(s: Seq<u8>, j: int) -> (u16, int) {
    (num_prefix(s, j, digit_run(s, j)), digit_run(s, j))
}

/// The saturating value of the `k` digits at `s[j..]`.
pub open spec fn num_prefix(s: Seq<u8>, j: int, k: int) -> u16
    decreases k,
{
    if k <= 0 {
        0
    } else {
        let v = num_prefix(s, j, k - 1) as int * 10 + (s[j + k - 1] - 0x30);
        if v > 65535 { 65535 } else { v as u16 }
    }
}

/// An RGB color from percentages (clamped to 100), opaque.
pub open spec fn percent_rgb(r: u16, g: u16, b: u16) -> Rgba {
    rgba(pct(r), pct(g), pct(b), 255)
}

pub open spec fn pct(v: u16) -> u8 {
    let c = if v > 100 { 100 } else { v as int };
    ((c * 255 + 50) / 100) as u8
}

/// The red, green, blue channel selectors of the six hue sectors, each naming
/// which of (chroma, second largest, zero) the channel takes.
pub open spec fn sector_pick(seg: int, ch: int) -> int {
    if seg == 0 { if ch == 0 { 0 } else if ch == 1 { 1 } else { 2 } }
    else if seg == 1 { if ch == 0 { 1 } else if ch == 1 { 0 } else { 2 } }
    else if seg == 2 { if ch == 0 { 2 } else if ch == 1 { 0 } else { 1 } }
    else if seg == 3 { if ch == 0 { 2 } else if ch == 1 { 1 } else { 0 } }
    else if seg == 4 { if ch == 0 { 1 } else if ch == 1 { 2 } else { 0 } }
    else { if ch == 0 { 0 } else if ch == 1 { 2 } else { 1 } }
}

/// DEC HLS (hue 0..360 with 0 = blue, lightness and saturation 0..100) to
/// RGB, computed exactly over the rationals and rounded half up. With the
/// common denominator `600000`: chroma `60 C`, second component `C X` and
/// offset `6000 L - 30 C`, where `C = (100 - |2L - 100|) S` and `X` is the
/// hue's distance from the sector edge in degrees.
pub open spec fn hls_rgb(h: u16, l: u16, s: u16) -> Rgba {
    let hh = (h as int % 360 + 240) % 360;
    let l = if l > 100 { 100int } else { l as int };
    let s = if s > 100 { 100int } else { s as int };
    let c = (100 - (if 2 * l >= 100 { 2 * l - 100 } else { 100 - 2 * l })) * s;
    let d = hh % 120 - 60;
    let x = 60 - (if d >= 0 { d } else { -d });
    let parts = seq![60 * c, c * x, 0int];
    let base = 6000 * l - 30 * c;
    let seg = hh / 60;
    let chan = |ch: int| ((2 * 255 * (parts[sector_pick(seg, ch)] + base) + 600000) / 1200000) as u8;
    rgba(chan(0), chan(1), chan(2), 255)
}

/// The VT340 default 16-color palette, in percent.
pub open spec fn vt340_percent(i: int) -> (u16, u16, u16) {
    if i == 0 { (0, 0, 0) }
    else if i == 1 { (20, 20, 80) }
    else if i == 2 { (80, 13, 13) }
    else if i == 3 { (20, 80, 20) }
    else if i == 4 { (80, 20, 80) }
    else if i == 5 { (13, 80, 80) }
    else if i == 6 { (80, 80, 20) }
    else if i == 7 { (53, 53, 53) }
    else if i == 8 { (26, 26, 26) }
    else if i == 9 { (33, 33, 60) }
    else if i == 10 { (60, 26, 26) }
    else if i == 11 { (33, 60, 33) }
    else if i == 12 { (60, 33, 60) }
    else if i == 13 { (26, 60, 60) }
    else if i == 14 { (60, 60, 33) }
    else { (80, 80, 80) }
}

/// The starting palette: the VT340 colors in slots 0..15, opaque black after.
pub open spec fn default_palette_spec() -> Seq<Rgba> {
    Seq::new(256, |i: int| if i < 16 {
        let (r, g, b) = vt340_percent(i);
        percent_rgb(r, g, b)
    } else {
        rgba(0, 0, 0, 255)
    })
}

// --- painting -----------------------------------------------------------------

/// Whether bit `i` (0..5) of `bits` is set.
pub open spec fn bit_set(bits: u8, i: int) -> bool {
    (bits as int / (if i == 0 { 1int } else if i == 1 { 2 } else if i == 2 { 4 } else if i == 3 { 8 } else if i == 4 { 16 } else { 32 })) % 2 == 1
}

/// `row` with columns `x0..x0+n` painted `color`, grown with transparent
/// pixels as needed.
pub open spec fn paint_row(row: Seq<Rgba>, x0: int, n: int, color: Rgba) -> Seq<Rgba> {
    let len = if row.len() >= x0 + n { row.len() as int } else { x0 + n };
    Seq::new(len as nat, |x: int| if x0 <= x < x0 + n { color } else if x < row.len() { row[x] } else { transparent() })
}

/// The painted state: pixel rows, the current column and the widest row.
pub struct Canvas {
    pub rows: Seq<Seq<Rgba>>,
    pub cur_x: int,
    pub max_width: int,
}

/// Paint sixel column `bits` (6 vertical pixels) `repeat` times at the
/// current column of band `band`; `None` when it would pass the width cap.
pub open spec fn put_spec(cv: Canvas, band: int, bits: u8, color: Rgba, repeat: int) -> Option<Canvas> {
    if cv.cur_x + repeat > MAX_DIM {
        None
    } else {
        let y0 = band * 6;
        let grown = if y0 + 6 > cv.rows.len() {
            cv.rows + Seq::new((y0 + 6 - cv.rows.len()) as nat, |_i: int| Seq::<Rgba>::empty())
        } else {
            cv.rows
        };
        let rows = Seq::new(grown.len(), |y: int|
            if y0 <= y < y0 + 6 && bit_set(bits, y - y0) && repeat > 0 {
                paint_row(grown[y], cv.cur_x, repeat, color)
            } else {
                grown[y]
            });
        let nx = cv.cur_x + repeat;
        Some(Canvas { rows, cur_x: nx, max_width: if nx > cv.max_width { nx } else { cv.max_width } })
    }
}

// --- the token stream -----------------------------------------------------------

/// Decoder state between tokens.
pub struct SixelState {
    pub palette: Seq<Rgba>,
    pub color: int,
    pub canvas: Canvas,
    pub band: int,
}

/// What one token does.
pub enum Step {
    /// The image would pass a cap: no image.
    Fail,
    /// Stop decoding here: the next band would end below row `MAX_DIM`.
    Stop(SixelState),
    /// Continue at the given index.
    Next(int, SixelState),
}

/// The `;`-prefixed number at `s[j..]`, and the index after it; 0 if absent.
pub open spec fn semi_num(s: Seq<u8>, j: int) -> (u16, int) {
    if 0 <= j < s.len() && s[j] == 0x3b {
        let (n, k) = num_at(s, j + 1);
        (n, j + 1 + k)
    } else {
        (0, j)
    }
}

/// Index of the first byte at or after `j` that is neither a digit nor `;`.
pub open spec fn skip_raster(s: Seq<u8>, j: int) -> int
    decreases s.len() - j,
{
    if 0 <= j < s.len() && (is_digit(s[j]) || s[j] == 0x3b) { skip_raster(s, j + 1) } else { j }
}

/// A color introducer `#Pc[;Pu;Px;Py;Pz]` starting at `s[j]`.
pub open spec fn color_token(s: Seq<u8>, j: int, st: SixelState) -> (int, SixelState) {
    let (pc0, a0) = num_at(s, j + 1);
    let j1 = j + 1 + a0;
    let pc = pc0 as int % 256;
    if 0 <= j1 < s.len() && s[j1] == 0x3b {
        let (pu, a1) = num_at(s, j1 + 1);
        let j2 = j1 + 1 + a1;
        let (px, j3) = semi_num(s, j2);
        let (py, j4) = semi_num(s, j3);
        let (pz, j5) = semi_num(s, j4);
        let c = if pu == 2 { percent_rgb(px, py, pz) } else if pu == 1 { hls_rgb(px, py, pz) } else { st.palette[pc] };
        (j5, SixelState { palette: st.palette.update(pc, c), color: pc, ..st })
    } else {
        (j1, SixelState { color: pc, ..st })
    }
}

pub open spec fn sixel_step(s: Seq<u8>, j: int, st: SixelState) -> Step {
    let b = s[j];
    if b == 0x23 {
        let (nj, nst) = color_token(s, j, st);
        Step::Next(nj, nst)
    } else if b == 0x22 {
        Step::Next(skip_raster(s, j + 1), st)
    } else if b == 0x21 {
        let (n0, a) = num_at(s, j + 1);
        let j1 = j + 1 + a;
        let n = if n0 == 0 { 1int } else { n0 as int };
        if 0 <= j1 < s.len() && 0x3f <= s[j1] <= 0x7e {
            match put_spec(st.canvas, st.band, (s[j1] - 0x3f) as u8, st.palette[st.color], n) {
                Some(cv) => Step::Next(j1 + 1, SixelState { canvas: cv, ..st }),
                None => Step::Fail,
            }
        } else {
            Step::Next(j1, st)
        }
    } else if b == 0x24 {
        Step::Next(j + 1, SixelState { canvas: Canvas { cur_x: 0, ..st.canvas }, ..st })
    } else if b == 0x2d {
        let nst = SixelState { canvas: Canvas { cur_x: 0, ..st.canvas }, band: st.band + 1, ..st };
        if (st.band + 1) * 6 + 6 > MAX_DIM { Step::Stop(nst) } else { Step::Next(j + 1, nst) }
    } else if 0x3f <= b <= 0x7e {
        match put_spec(st.canvas, st.band, (b - 0x3f) as u8, st.palette[st.color], 1) {
            Some(cv) => Step::Next(j + 1, SixelState { canvas: cv, ..st }),
            None => Step::Fail,
        }
    } else {
        Step::Next(j + 1, st)
    }
}

/// The decoder state after the tokens from `s[j..]`; `None` on failure.
pub open spec fn sixel_run(s: Seq<u8>, j: int, st: SixelState) -> Option<SixelState>
    decreases s.len() - j,
{
    if j < 0 || j >= s.len() {
        Some(st)
    } else {
        match sixel_step(s, j, st) {
            Step::Fail => None,
            Step::Stop(nst) => Some(nst),
            Step::Next(nj, nst) => if j < nj <= s.len() { sixel_run(s, nj, nst) } else { Some(nst) },
        }
    }
}

pub open spec fn initial_state() -> SixelState {
    SixelState {
        palette: default_palette_spec(),
        color: 0,
        canvas: Canvas { rows: Seq::empty(), cur_x: 0, max_width: 0 },
        band: 0,
    }
}

/// The bytes of a pixel row padded with transparent pixels to `w`.
pub open spec fn row_bytes(row: Seq<Rgba>, w: int) -> Seq<u8>
    decreases w,
{
    if w <= 0 {
        Seq::empty()
    } else {
        let px = if w - 1 < row.len() { row[w - 1] } else { transparent() };
        row_bytes(row, w - 1) + seq![px[0], px[1], px[2], px[3]]
    }
}

/// All rows, top first, each padded to `w`.
pub open spec fn image_bytes(rows: Seq<Seq<Rgba>>, w: int) -> Seq<u8>
    decreases rows.len(),
{
    if rows.len() == 0 { Seq::empty() } else { image_bytes(rows.drop_last(), w) + row_bytes(rows.last(), w) }
}

/// Where the selector `q` sits: only digits, `;` and intermediates may come
/// before it.
pub open spec fn selector_at(d: Seq<u8>) -> Option<int> {
    if exists|i: int| 0 <= i < d.len() && d[i] == 0x71 && forall|k: int| 0 <= k < i ==> #[trigger] intro_byte(d[k]) {
        Some(choose|i: int| 0 <= i < d.len() && d[i] == 0x71 && forall|k: int| 0 <= k < i ==> #[trigger] intro_byte(d[k]))
    } else {
        None
    }
}

/// A byte allowed before the selector: a digit, `;` or an intermediate.
pub open spec fn intro_byte(c: u8) -> bool {
    is_digit(c) || c == 0x3b || 0x20 <= c <= 0x2f
}

/// The image a DCS payload decodes to: `None` unless it is a Sixel sequence
/// that paints at least one pixel column within the caps.
pub open spec fn decode_spec(d: Seq<u8>) -> Option<(nat, nat, Seq<u8>)> {
    match selector_at(d) {
        None => None,
        Some(i) => {
            let body = d.skip(i + 1);
            match sixel_run(body, 0, initial_state()) {
                None => None,
                Some(st) => {
                    let w = st.canvas.max_width;
                    let h = st.canvas.rows.len();
                    if w == 0 || h == 0 {
                        None
                    } else {
                        Some((w as nat, h as nat, image_bytes(st.canvas.rows, w)))
                    }
                },
            }
        },
    }
}

// --- executable decoder ---------------------------------------------------------

proof fn lemma_digit_run(s: Seq<u8>, j: int, k: int)
    requires
        0 <= j <= k <= s.len(),
        forall|i: int| j <= i < k ==> is_digit(#[trigger] s[i]),
        k == s.len() || !is_digit(s[k]),
    ensures
        digit_run(s, j) == k - j,
    decreases k - j,
{
    if j < k {
        lemma_digit_run(s, j + 1, k);
    }
}

/// The number at `s[j..]`, as `(value, index after it)`.
fn parse_num(s: &[u8], j: usize) -> (r: (u16, usize))
    requires
        j <= s@.len(),
    ensures
        r.0 == num_at(s@, j as int).0,
        r.1 == j + num_at(s@, j as int).1,
        j <= r.1 <= s@.len(),
{
    let mut n: u32 = 0;
    let mut k = j;
    while k < s.len() && 0x30 <= s[k] && s[k] <= 0x39
        invariant
            j <= k <= s@.len(),
            forall|i: int| j <= i < k ==> is_digit(#[trigger] s@[i]),
            n == num_prefix(s@, j as int, k - j),
        decreases s.len() - k,
    {
        let v = n * 10 + (s[k] - 0x30) as u32;
        n = if v > 65535 { 65535 } else { v };
        k = k + 1;
    }
    proof {
        lemma_digit_run(s@, j as int, k as int);
    }
    (n as u16, k)
}

/// The `;`-prefixed number at `s[j..]`, as `(value, index after it)`.
fn read_semi_num(s: &[u8], j: usize) -> (r: (u16, usize))
    requires
        j <= s@.len(),
    ensures
        (r.0, r.1 as int) == semi_num(s@, j as int),
        j <= r.1 <= s@.len(),
{
    if j < s.len() && s[j] == 0x3b {
        parse_num(s, j + 1)
    } else {
        (0, j)
    }
}

fn percent(v: u16) -> (r: u8)
    ensures
        r == pct(v),
{
    let c: u32 = if v > 100 { 100 } else { v as u32 };
    ((c * 255 + 50) / 100) as u8
}

fn rgb_from_percent(r: u16, g: u16, b: u16) -> (c: Rgba)
    ensures
        c == percent_rgb(r, g, b),
{
    [percent(r), percent(g), percent(b), 255]
}

fn hls_channel(part: i64, base: i64) -> (v: u8)
    requires
        0 <= part <= 600000,
        0 <= base <= 600000,
    ensures
        v == ((2 * 255 * (part + base) + 600000) / 1200000) as u8,
{
    ((2 * 255 * (part + base) + 600000) / 1200000) as u8
}

/// DEC HLS to RGB (see `hls_rgb`).
fn hls_to_rgb(h: u16, l: u16, s: u16) -> (c: Rgba)
    ensures
        c == hls_rgb(h, l, s),
{
    let hh: i64 = ((h % 360) as i64 + 240) % 360;
    let l: i64 = if l > 100 { 100 } else { l as i64 };
    let s: i64 = if s > 100 { 100 } else { s as i64 };
    let span: i64 = 100 - (if 2 * l >= 100 { 2 * l - 100 } else { 100 - 2 * l });
    assert(0 <= span * s <= 10000) by (nonlinear_arith)
        requires
            0 <= span <= 100,
            0 <= s <= 100,
    ;
    let c: i64 = span * s;
    let d: i64 = hh % 120 - 60;
    let x: i64 = 60 - (if d >= 0 { d } else { -d });
    assert(0 <= c * x <= 600000 && c * x <= 60 * c) by (nonlinear_arith)
        requires
            0 <= c <= 10000,
            0 <= x <= 60,
    ;
    let cx: i64 = c * x;
    assert(c <= span * 100) by (nonlinear_arith)
        requires
            c == span * s,
            0 <= span,
            s <= 100,
    ;
    let base: i64 = 6000 * l - 30 * c;
    assert(0 <= base && 60 * c + base <= 600000 && cx + base <= 600000);
    let seg = hh / 60;
    let big = hls_channel(60 * c, base);
    let mid = hls_channel(cx, base);
    let zero = hls_channel(0, base);
    proof {
        let parts = seq![60 * c as int, c * x as int, 0int];
        assert(parts[0] == 60 * c && parts[1] == cx && parts[2] == 0);
    }
    if seg == 0 {
        [big, mid, zero, 255]
    } else if seg == 1 {
        [mid, big, zero, 255]
    } else if seg == 2 {
        [zero, big, mid, 255]
    } else if seg == 3 {
        [zero, mid, big, 255]
    } else if seg == 4 {
        [mid, zero, big, 255]
    } else {
        [big, zero, mid, 255]
    }
}

fn default_palette() -> (p: Vec<Rgba>)
    ensures
        p@ == default_palette_spec(),
{
    let mut p: Vec<Rgba> = Vec::with_capacity(256);
    let mut i: usize = 0;
    while i < 256
        invariant
            i <= 256,
            p@.len() == i,
            forall|k: int| 0 <= k < i ==> p@[k] == #[trigger] default_palette_spec()[k],
        decreases 256 - i,
    {
        let c = if i < 16 {
            let (r, g, b) = vt340(i);
            rgb_from_percent(r, g, b)
        } else {
            [0, 0, 0, 255]
        };
        p.push(c);
        i = i + 1;
    }
    assert(p@ =~= default_palette_spec());
    p
}

fn vt340(i: usize) -> (c: (u16, u16, u16))
    requires
        i < 16,
    ensures
        c == vt340_percent(i as int),
{
    if i == 0 { (0, 0, 0) }
    else if i == 1 { (20, 20, 80) }
    else if i == 2 { (80, 13, 13) }
    else if i == 3 { (20, 80, 20) }
    else if i == 4 { (80, 20, 80) }
    else if i == 5 { (13, 80, 80) }
    else if i == 6 { (80, 80, 20) }
    else if i == 7 { (53, 53, 53) }
    else if i == 8 { (26, 26, 26) }
    else if i == 9 { (33, 33, 60) }
    else if i == 10 { (60, 26, 26) }
    else if i == 11 { (33, 60, 33) }
    else if i == 12 { (60, 33, 60) }
    else if i == 13 { (26, 60, 60) }
    else if i == 14 { (60, 60, 33) }
    else { (80, 80, 80) }
}

pub open spec fn rows_view(rows: Seq<Vec<Rgba>>) -> Seq<Seq<Rgba>> {
    rows.map_values(|r: Vec<Rgba>| r@)
}

/// `row` painted per `paint_row`.
fn paint(row: &Vec<Rgba>, x0: usize, n: usize, color: Rgba) -> (out: Vec<Rgba>)
    requires
        x0 + n <= MAX_DIM,
    ensures
        out@ == paint_row(row@, x0 as int, n as int, color),
{
    let len = if row.len() >= x0 + n { row.len() } else { x0 + n };
    let mut out: Vec<Rgba> = Vec::with_capacity(len);
    let mut x: usize = 0;
    while x < len
        invariant
            x <= len,
            len == (if row@.len() >= x0 + n { row@.len() as int } else { x0 + n }),
            out@.len() == x,
            forall|k: int| 0 <= k < x ==> out@[k] == #[trigger] paint_row(row@, x0 as int, n as int, color)[k],
        decreases len - x,
    {
        let px = if x0 <= x && x < x0 + n {
            color
        } else if x < row.len() {
            row[x]
        } else {
            [0, 0, 0, 0]
        };
        out.push(px);
        x = x + 1;
    }
    assert(out@ =~= paint_row(row@, x0 as int, n as int, color));
    out
}

fn bit_of(bits: u8, i: usize) -> (b: bool)
    requires
        i < 6,
    ensures
        b == bit_set(bits, i as int),
{
    let p: u8 = if i == 0 { 1 } else if i == 1 { 2 } else if i == 2 { 4 } else if i == 3 { 8 } else if i == 4 { 16 } else { 32 };
    (bits / p) % 2 == 1
}

/// Paint sixel column `bits` `repeat` times at the current column (see
/// `put_spec`). Returns `false` (and changes nothing) past the width cap.
fn put_sixel(
    rows: &mut Vec<Vec<Rgba>>,
    cur_x: &mut usize,
    max_width: &mut usize,
    band: usize,
    bits: u8,
    color: Rgba,
    repeat: usize,
) -> (ok: bool)
    requires
        band * 6 < MAX_DIM,
        *old(cur_x) <= MAX_DIM,
        *old(max_width) <= MAX_DIM,
        rows_view(old(rows)@).len() <= MAX_DIM + 6,
    ensures
        ok == put_spec(Canvas { rows: rows_view(old(rows)@), cur_x: *old(cur_x) as int, max_width: *old(max_width) as int },
            band as int, bits, color, repeat as int) is Some,
        ok ==> put_spec(Canvas { rows: rows_view(old(rows)@), cur_x: *old(cur_x) as int, max_width: *old(max_width) as int },
            band as int, bits, color, repeat as int) == Some(Canvas {
                rows: rows_view(final(rows)@), cur_x: *final(cur_x) as int, max_width: *final(max_width) as int }),
        *final(cur_x) <= MAX_DIM,
        *final(max_width) <= MAX_DIM,
        rows_view(final(rows)@).len() <= MAX_DIM + 6,
{
    if repeat > MAX_DIM - *cur_x {
        return false;
    }
    let ghost cv = Canvas { rows: rows_view(rows@), cur_x: *cur_x as int, max_width: *max_width as int };
    let y0 = band * 6;
    let ghost old_rows = rows_view(rows@);
    while rows.len() < y0 + 6
        invariant
            y0 + 6 <= MAX_DIM + 6,
            old_rows.len() <= rows@.len(),
            rows@.len() <= (if old_rows.len() >= y0 + 6 { old_rows.len() as int } else { y0 + 6 }),
            forall|k: int| 0 <= k < rows@.len() ==> (#[trigger] rows@[k])@ == (if k < old_rows.len() { old_rows[k] } else { Seq::<Rgba>::empty() }),
        decreases y0 + 6 - rows.len(),
    {
        rows.push(Vec::new());
    }
    let ghost grown = rows_view(rows@);
    proof {
        let g2 = if y0 + 6 > old_rows.len() {
            old_rows + Seq::new((y0 + 6 - old_rows.len()) as nat, |_i: int| Seq::<Rgba>::empty())
        } else {
            old_rows
        };
        assert(grown =~= g2);
    }
    let mut i: usize = 0;
    while i < 6
        invariant
            i <= 6,
            y0 < MAX_DIM,
            y0 + 6 <= rows@.len(),
            rows@.len() == grown.len(),
            *cur_x + repeat <= MAX_DIM,
            forall|k: int| 0 <= k < rows@.len() ==> (#[trigger] rows@[k])@ == (
                if y0 <= k < y0 + i && bit_set(bits, k - y0) && repeat > 0 {
                    paint_row(grown[k], *cur_x as int, repeat as int, color)
                } else {
                    grown[k]
                }),
        decreases 6 - i,
    {
        if repeat > 0 && bit_of(bits, i) {
            let painted = paint(&rows[y0 + i], *cur_x, repeat, color);
            rows.set(y0 + i, painted);
        }
        i = i + 1;
    }
    *cur_x = *cur_x + repeat;
    if *cur_x > *max_width {
        *max_width = *cur_x;
    }
    proof {
        let expect = put_spec(cv, band as int, bits, color, repeat as int).unwrap();
        assert(expect.rows.len() == rows@.len());
        assert(rows_view(rows@) =~= expect.rows);
    }
    true
}

/// The bytes of `row` padded to `w`, appended to `out`.
fn push_row(out: &mut Vec<u8>, row: &Vec<Rgba>, w: usize)
    ensures
        final(out)@ == old(out)@ + row_bytes(row@, w as int),
{
    let ghost start = out@;
    let mut x: usize = 0;
    assert(row_bytes(row@, 0) =~= Seq::<u8>::empty());
    assert(out@ =~= start + row_bytes(row@, 0));
    while x < w
        invariant
            x <= w,
            out@ == start + row_bytes(row@, x as int),
        decreases w - x,
    {
        let px = if x < row.len() { row[x] } else { [0u8, 0, 0, 0] };
        out.push(px[0]);
        out.push(px[1]);
        out.push(px[2]);
        out.push(px[3]);
        x = x + 1;
        assert(out@ =~= start + row_bytes(row@, x as int));
    }
}

/// The index of the `q` selector in `d`, if only parameters come before it.
fn find_selector(d: &[u8]) -> (r: Option<usize>)
    ensures
        r matches Some(i) ==> selector_at(d@) == Some(i as int),
        r is None ==> selector_at(d@) is None,
{
    let mut i: usize = 0;
    while i < d.len()
        invariant
            i <= d@.len(),
            forall|k: int| 0 <= k < i ==> #[trigger] intro_byte(d@[k]),
        decreases d.len() - i,
    {
        let b = d[i];
        if b == 0x71 {
            proof {
                let w = choose|j: int| 0 <= j < d@.len() && d@[j] == 0x71 && forall|k: int| 0 <= k < j ==> #[trigger] intro_byte(d@[k]);
                assert(0 <= i < d@.len() && d@[i as int] == 0x71 && forall|k: int| 0 <= k < i ==> #[trigger] intro_byte(d@[k]));
                if w < i {
                    assert(intro_byte(d@[w]));
                } else if w > i {
                    assert(intro_byte(d@[i as int]));
                }
            }
            return Some(i);
        }
        if (0x30 <= b && b <= 0x39) || b == 0x3b || (0x20 <= b && b <= 0x2f) {
            i = i + 1;
        } else {
            proof {
                if exists|j: int| 0 <= j < d@.len() && d@[j] == 0x71 && forall|k: int| 0 <= k < j ==> #[trigger] intro_byte(d@[k]) {
                    let j = choose|j: int| 0 <= j < d@.len() && d@[j] == 0x71 && forall|k: int| 0 <= k < j ==> #[trigger] intro_byte(d@[k]);
                    if j < i {
                        assert(intro_byte(d@[j]));
                    } else if j > i {
                        assert(intro_byte(d@[i as int]));
                    }
                }
            }
            return None;
        }
    }
    proof {
        if exists|j: int| 0 <= j < d@.len() && d@[j] == 0x71 && forall|k: int| 0 <= k < j ==> #[trigger] intro_byte(d@[k]) {
            let j = choose|j: int| 0 <= j < d@.len() && d@[j] == 0x71 && forall|k: int| 0 <= k < j ==> #[trigger] intro_byte(d@[k]);
            assert(intro_byte(d@[j]));
        }
    }
    None
}

/// A color introducer at `body[j]` (see `color_token`); returns the index after it.
fn color_introducer(body: &[u8], j: usize, palette: &mut Vec<Rgba>, color: &mut usize, Ghost(c): Ghost<Canvas>, Ghost(bd): Ghost<int>) -> (nj: usize)
    requires
        j < body@.len(),
        old(palette)@.len() == 256,
    ensures
        final(palette)@.len() == 256,
        *final(color) < 256,
        j < nj <= body@.len(),
        color_token(body@, j as int, SixelState { palette: old(palette)@, color: *old(color) as int, canvas: c, band: bd })
            == (nj as int, SixelState { palette: final(palette)@, color: *final(color) as int, canvas: c, band: bd }),
{
    let _n = body.len();
    let (pc0, j1) = parse_num(body, j + 1);
    let pc = (pc0 as usize) % 256;
    if j1 < body.len() && body[j1] == 0x3b {
        let (pu, j2) = parse_num(body, j1 + 1);
        let (px, j3) = read_semi_num(body, j2);
        let (py, j4) = read_semi_num(body, j3);
        let (pz, j5) = read_semi_num(body, j4);
        let c = if pu == 2 {
            rgb_from_percent(px, py, pz)
        } else if pu == 1 {
            hls_to_rgb(px, py, pz)
        } else {
            palette[pc]
        };
        palette.set(pc, c);
        *color = pc;
        j5
    } else {
        *color = pc;
        j1
    }
}

/// Decode a DCS payload (everything after `ESC P`) as Sixel. Returns `None` if
/// the payload is not a Sixel sequence (final selector byte is not `q`), paints
/// nothing, or would exceed the size caps.
pub fn decode(data: &[u8]) -> (r: Option<SixelImage>)
    ensures
        r matches Some(img) ==> decode_spec(data@) == Some((img.width as nat, img.height as nat, img.rgba@)),
        r is None ==> decode_spec(data@) is None,
{
    let i = match find_selector(data) {
        Some(i) => i,
        None => return None,
    };
    let dn = data.len();
    let body = copy_range(data, i + 1, dn);
    assert(body@ =~= data@.skip(i + 1));
    let mut palette = default_palette();
    let mut color: usize = 0;
    let mut rows: Vec<Vec<Rgba>> = Vec::new();
    let mut cur_x: usize = 0;
    let mut band: usize = 0;
    let mut max_width: usize = 0;
    let mut j: usize = 0;
    let ghost total = sixel_run(body@, 0, initial_state());
    assert(rows_view(rows@) =~= Seq::<Seq<Rgba>>::empty());
    while j < body.len()
        invariant_except_break
            band * 6 < MAX_DIM,
            total == sixel_run(body@, j as int, SixelState {
                palette: palette@, color: color as int,
                canvas: Canvas { rows: rows_view(rows@), cur_x: cur_x as int, max_width: max_width as int },
                band: band as int }),
        invariant
            j <= body@.len(),
            body@ == data@.skip(i + 1),
            selector_at(data@) == Some(i as int),
            total == sixel_run(body@, 0, initial_state()),
            palette@.len() == 256,
            color < 256,
            cur_x <= MAX_DIM,
            max_width <= MAX_DIM,
            rows@.len() <= MAX_DIM + 6,
        ensures
            total == Some(SixelState {
                palette: palette@, color: color as int,
                canvas: Canvas { rows: rows_view(rows@), cur_x: cur_x as int, max_width: max_width as int },
                band: band as int }),
        decreases body.len() - j,
    {
        let ghost cv = Canvas { rows: rows_view(rows@), cur_x: cur_x as int, max_width: max_width as int };
        let ghost st = SixelState { palette: palette@, color: color as int, canvas: cv, band: band as int };
        let b = body[j];
        if b == 0x23 {
            let nj = color_introducer(&body, j, &mut palette, &mut color, Ghost(cv), Ghost(band as int));
            j = nj;
        } else if b == 0x22 {
            let mut k = j + 1;
            while k < body.len() && ((0x30 <= body[k] && body[k] <= 0x39) || body[k] == 0x3b)
                invariant
                    j < k <= body@.len(),
                    skip_raster(body@, j + 1) == skip_raster(body@, k as int),
                decreases body.len() - k,
            {
                k = k + 1;
            }
            j = k;
        } else if b == 0x21 {
            let (n0, j1) = parse_num(&body, j + 1);
            let n: usize = if n0 == 0 { 1 } else { n0 as usize };
            if j1 < body.len() && 0x3f <= body[j1] && body[j1] <= 0x7e {
                let c = palette[color];
                if !put_sixel(&mut rows, &mut cur_x, &mut max_width, band, body[j1] - 0x3f, c, n) {
                    assert(sixel_step(body@, j as int, st) is Fail);
                    assert(sixel_run(body@, j as int, st) is None);
                    return None;
                }
                j = j1 + 1;
            } else {
                j = j1;
            }
        } else if b == 0x24 {
            cur_x = 0;
            j = j + 1;
        } else if b == 0x2d {
            cur_x = 0;
            band = band + 1;
            if band * 6 + 6 > MAX_DIM {
                break;
            }
            j = j + 1;
        } else if 0x3f <= b && b <= 0x7e {
            let c = palette[color];
            if !put_sixel(&mut rows, &mut cur_x, &mut max_width, band, b - 0x3f, c, 1) {
                assert(sixel_step(body@, j as int, st) is Fail);
                assert(sixel_run(body@, j as int, st) is None);
                return None;
            }
            j = j + 1;
        } else {
            j = j + 1;
        }
    }
    let width = max_width;
    let height = rows.len();
    if width == 0 || height == 0 {
        return None;
    }
    let mut rgba: Vec<u8> = Vec::new();
    let mut y: usize = 0;
    assert(image_bytes(rows_view(rows@).take(0), width as int) =~= Seq::<u8>::empty());
    while y < height
        invariant
            y <= height == rows@.len(),
            rgba@ == image_bytes(rows_view(rows@).take(y as int), width as int),
        decreases height - y,
    {
        push_row(&mut rgba, &rows[y], width);
        proof {
            let t = rows_view(rows@).take(y + 1);
            assert(t.drop_last() =~= rows_view(rows@).take(y as int));
            assert(t.last() == rows@[y as int]@);
        }
        y = y + 1;
    }
    assert(rows_view(rows@).take(height as int) =~= rows_view(rows@));
    Some(SixelImage { width, height, rgba })
}

// --- what every decoded image satisfies ------------------------------------------

/// Pixel `k` of packed RGBA bytes is fully transparent `[0, 0, 0, 0]` or opaque.
pub open spec fn clear_or_opaque_at(b: Seq<u8>, k: int) -> bool {
    b[4 * k + 3] == 255 || (b[4 * k] == 0 && b[4 * k + 1] == 0 && b[4 * k + 2] == 0 && b[4 * k + 3] == 0)
}

/// A pixel that is fully transparent or opaque.
pub open spec fn pixel_clear_or_opaque(p: Rgba) -> bool {
    p[3] == 255 || (p[0] == 0 && p[1] == 0 && p[2] == 0 && p[3] == 0)
}

pub open spec fn row_clear_or_opaque(row: Seq<Rgba>) -> bool {
    forall|x: int| 0 <= x < row.len() ==> pixel_clear_or_opaque(#[trigger] row[x])
}

pub open spec fn rows_clear_or_opaque(rows: Seq<Seq<Rgba>>) -> bool {
    forall|y: int| 0 <= y < rows.len() ==> row_clear_or_opaque(#[trigger] rows[y])
}

pub open spec fn palette_opaque(p: Seq<Rgba>) -> bool {
    &&& p.len() == 256
    &&& forall|i: int| 0 <= i < 256 ==> (#[trigger] p[i])[3] == 255
}

/// What holds between tokens: an opaque palette, a color index in range,
/// painted pixels that are clear or opaque, and a canvas within the caps.
pub open spec fn state_ok(st: SixelState) -> bool {
    &&& palette_opaque(st.palette)
    &&& 0 <= st.color < 256
    &&& rows_clear_or_opaque(st.canvas.rows)
    &&& 0 <= st.canvas.cur_x <= MAX_DIM
    &&& 0 <= st.canvas.max_width <= MAX_DIM
    &&& 0 <= st.band
    &&& st.band * 6 + 6 <= MAX_DIM
    &&& st.canvas.rows.len() <= st.band * 6 + 6
}

/// What the final state satisfies.
pub open spec fn final_ok(st: SixelState) -> bool {
    &&& rows_clear_or_opaque(st.canvas.rows)
    &&& 0 <= st.canvas.max_width <= MAX_DIM
    &&& st.canvas.rows.len() <= MAX_DIM
}

proof fn lemma_put_ok(cv: Canvas, band: int, bits: u8, color: Rgba, repeat: int)
    requires
        rows_clear_or_opaque(cv.rows),
        color[3] == 255,
        0 <= cv.cur_x,
        0 <= cv.max_width <= MAX_DIM,
        0 <= band,
        repeat >= 1,
    ensures
        put_spec(cv, band, bits, color, repeat) matches Some(n) ==> {
            &&& rows_clear_or_opaque(n.rows)
            &&& 0 <= n.cur_x <= MAX_DIM
            &&& 0 <= n.max_width <= MAX_DIM
            &&& n.rows.len() == if band * 6 + 6 > cv.rows.len() { band * 6 + 6 } else { cv.rows.len() as int }
        },
{
    if let Some(n) = put_spec(cv, band, bits, color, repeat) {
        let y0 = band * 6;
        let grown = if y0 + 6 > cv.rows.len() {
            cv.rows + Seq::new((y0 + 6 - cv.rows.len()) as nat, |_i: int| Seq::<Rgba>::empty())
        } else {
            cv.rows
        };
        assert forall|y: int| 0 <= y < n.rows.len() implies row_clear_or_opaque(#[trigger] n.rows[y]) by {
            assert(row_clear_or_opaque(grown[y]));
            if y0 <= y < y0 + 6 && bit_set(bits, y - y0) {
                let r = paint_row(grown[y], cv.cur_x, repeat, color);
                assert(n.rows[y] == r);
                assert forall|x: int| 0 <= x < r.len() implies pixel_clear_or_opaque(#[trigger] r[x]) by {
                    if !(cv.cur_x <= x < cv.cur_x + repeat) && x < grown[y].len() {
                        assert(pixel_clear_or_opaque(grown[y][x]));
                    }
                }
            }
        }
    }
}

proof fn lemma_step_ok(s: Seq<u8>, j: int, st: SixelState)
    requires
        state_ok(st),
        0 <= j < s.len(),
    ensures
        match sixel_step(s, j, st) {
            Step::Fail => true,
            Step::Stop(n) => final_ok(n),
            Step::Next(_, n) => state_ok(n),
        },
{
    let b = s[j];
    if b == 0x23 {
        let (pc0, a0) = num_at(s, j + 1);
        let j1 = j + 1 + a0;
        let pc = pc0 as int % 256;
        if 0 <= j1 < s.len() && s[j1] == 0x3b {
            let (pu, a1) = num_at(s, j1 + 1);
            let j2 = j1 + 1 + a1;
            let (px, j3) = semi_num(s, j2);
            let (py, j4) = semi_num(s, j3);
            let (pz, j5) = semi_num(s, j4);
            let c = if pu == 2 { percent_rgb(px, py, pz) } else if pu == 1 { hls_rgb(px, py, pz) } else { st.palette[pc] };
            assert(c[3] == 255);
            let np = st.palette.update(pc, c);
            assert forall|i: int| 0 <= i < 256 implies (#[trigger] np[i])[3] == 255 by {
                if i != pc {
                    assert(np[i] == st.palette[i]);
                }
            }
        }
    } else if b == 0x21 {
        let (n0, a) = num_at(s, j + 1);
        let j1 = j + 1 + a;
        let n = if n0 == 0 { 1int } else { n0 as int };
        if 0 <= j1 < s.len() && 0x3f <= s[j1] <= 0x7e {
            assert(st.palette[st.color][3] == 255);
            lemma_put_ok(st.canvas, st.band, (s[j1] - 0x3f) as u8, st.palette[st.color], n);
        }
    } else if b == 0x22 || b == 0x24 || b == 0x2d {
    } else if 0x3f <= b <= 0x7e {
        assert(st.palette[st.color][3] == 255);
        lemma_put_ok(st.canvas, st.band, (b - 0x3f) as u8, st.palette[st.color], 1);
    }
}

proof fn lemma_run_ok(s: Seq<u8>, j: int, st: SixelState)
    requires
        state_ok(st),
    ensures
        sixel_run(s, j, st) matches Some(n) ==> final_ok(n),
    decreases s.len() - j,
{
    if 0 <= j < s.len() {
        lemma_step_ok(s, j, st);
        match sixel_step(s, j, st) {
            Step::Fail => {},
            Step::Stop(_) => {},
            Step::Next(nj, n) => {
                if j < nj <= s.len() {
                    lemma_run_ok(s, nj, n);
                }
            },
        }
    }
}

proof fn lemma_row_bytes(row: Seq<Rgba>, w: int)
    requires
        row_clear_or_opaque(row),
        w >= 0,
    ensures
        row_bytes(row, w).len() == 4 * w,
        forall|k: int| 0 <= k < w ==> #[trigger] clear_or_opaque_at(row_bytes(row, w), k),
    decreases w,
{
    if w > 0 {
        lemma_row_bytes(row, w - 1);
        let a = row_bytes(row, w - 1);
        let px = if w - 1 < row.len() { row[w - 1] } else { transparent() };
        let b = row_bytes(row, w);
        assert(b == a + seq![px[0], px[1], px[2], px[3]]);
        if w - 1 < row.len() {
            assert(pixel_clear_or_opaque(row[w - 1]));
        }
        assert forall|k: int| 0 <= k < w implies #[trigger] clear_or_opaque_at(b, k) by {
            if k < w - 1 {
                assert(clear_or_opaque_at(a, k));
            }
        }
    }
}

proof fn lemma_image_bytes(rows: Seq<Seq<Rgba>>, w: int)
    requires
        rows_clear_or_opaque(rows),
        w >= 0,
    ensures
        image_bytes(rows, w).len() == 4 * (w * rows.len()),
        forall|k: int| 0 <= k < w * rows.len() ==> #[trigger] clear_or_opaque_at(image_bytes(rows, w), k),
    decreases rows.len(),
{
    if rows.len() > 0 {
        let p = rows.drop_last();
        assert forall|y: int| 0 <= y < p.len() implies row_clear_or_opaque(#[trigger] p[y]) by {
            assert(row_clear_or_opaque(rows[y]));
        }
        lemma_image_bytes(p, w);
        assert(row_clear_or_opaque(rows[rows.len() - 1]));
        lemma_row_bytes(rows.last(), w);
        let a = image_bytes(p, w);
        let c = row_bytes(rows.last(), w);
        let b = image_bytes(rows, w);
        let m = w * p.len();
        assert(w * rows.len() == m + w) by (nonlinear_arith)
            requires
                m == w * p.len(),
                p.len() + 1 == rows.len(),
        ;
        assert(b == a + c);
        assert forall|k: int| 0 <= k < w * rows.len() implies #[trigger] clear_or_opaque_at(b, k) by {
            if k < m {
                assert(clear_or_opaque_at(a, k));
            } else {
                assert(clear_or_opaque_at(c, k - m));
            }
        }
    }
}

/// Every image `decode` returns is `width * height` packed RGBA pixels, at
/// most `MAX_DIM` on either side, and each pixel is either fully transparent
/// `[0, 0, 0, 0]` or opaque.
pub proof fn lemma_decoded_image(d: Seq<u8>)
    requires
        decode_spec(d) is Some,
    ensures
        ({
            let (w, h, b) = decode_spec(d).unwrap();
            &&& 1 <= w <= MAX_DIM
            &&& 1 <= h <= MAX_DIM
            &&& b.len() == 4 * (w * h)
            &&& forall|k: int| 0 <= k < w * h ==> #[trigger] clear_or_opaque_at(b, k)
        }),
{
    let i = selector_at(d).unwrap();
    let body = d.skip(i + 1);
    let st0 = initial_state();
    assert forall|k: int| 0 <= k < 256 implies (#[trigger] st0.palette[k])[3] == 255 by {
        if k < 16 {
            let (r, g, b) = vt340_percent(k);
            assert(st0.palette[k] == percent_rgb(r, g, b));
        }
    }
    lemma_run_ok(body, 0, st0);
    let st = sixel_run(body, 0, st0).unwrap();
    lemma_image_bytes(st.canvas.rows, st.canvas.max_width);
}

// --- which pixels a payload paints --------------------------------------------------

/// Whether painting sixel `bits` `n` times at the current column of the
/// current band covers pixel `(y, x)`.
pub open spec fn paints(st: SixelState, bits: u8, n: int, y: int, x: int) -> bool {
    let y0 = st.band * 6;
    &&& y0 <= y < y0 + 6
    &&& bit_set(bits, y - y0)
    &&& st.canvas.cur_x <= x < st.canvas.cur_x + n
}

/// Whether the token at `s[j]` paints pixel `(y, x)`.
pub open spec fn step_paints(s: Seq<u8>, j: int, st: SixelState, y: int, x: int) -> bool {
    let b = s[j];
    if b == 0x21 {
        let (n0, a) = num_at(s, j + 1);
        let j1 = j + 1 + a;
        let n = if n0 == 0 { 1int } else { n0 as int };
        0 <= j1 < s.len() && 0x3f <= s[j1] <= 0x7e && paints(st, (s[j1] - 0x3f) as u8, n, y, x)
    } else if 0x3f <= b <= 0x7e && b != 0x23 && b != 0x22 && b != 0x24 && b != 0x2d {
        paints(st, (b - 0x3f) as u8, 1, y, x)
    } else {
        false
    }
}

/// Whether some token of `s[j..]`, run from `st`, paints pixel `(y, x)`.
pub open spec fn painted_from(s: Seq<u8>, j: int, st: SixelState, y: int, x: int) -> bool
    decreases s.len() - j,
{
    if j < 0 || j >= s.len() {
        false
    } else {
        match sixel_step(s, j, st) {
            Step::Fail => false,
            Step::Stop(_) => false,
            Step::Next(nj, nst) => step_paints(s, j, st, y, x) || (j < nj <= s.len() && painted_from(s, nj, nst, y, x)),
        }
    }
}

/// Whether a sixel of the payload `d` paints pixel `(y, x)`.
pub open spec fn sixel_painted(d: Seq<u8>, y: int, x: int) -> bool {
    match selector_at(d) {
        Some(i) => painted_from(d.skip(i + 1), 0, initial_state(), y, x),
        None => false,
    }
}

/// Pixel `(y, x)` of painted rows: transparent where no row or cell is.
pub open spec fn px_at(rows: Seq<Seq<Rgba>>, y: int, x: int) -> Rgba {
    if 0 <= y < rows.len() && 0 <= x < rows[y].len() { rows[y][x] } else { transparent() }
}

/// Pixel `(y, x)` of a `w`-wide packed RGBA image.
pub open spec fn pixel_of(b: Seq<u8>, w: int, y: int, x: int) -> Rgba {
    let o = 4 * (y * w + x);
    [b[o], b[o + 1], b[o + 2], b[o + 3]]
}

pub open spec fn is_clear(p: Rgba) -> bool {
    p[0] == 0 && p[1] == 0 && p[2] == 0 && p[3] == 0
}

proof fn lemma_put_pixels(cv: Canvas, band: int, bits: u8, color: Rgba, n: int, st: SixelState)
    requires
        st.canvas == cv,
        st.band == band,
        n >= 1,
        band >= 0,
        cv.cur_x >= 0,
        put_spec(cv, band, bits, color, n) is Some,
    ensures
        forall|y: int, x: int| #![trigger px_at(put_spec(cv, band, bits, color, n).unwrap().rows, y, x)]
            px_at(put_spec(cv, band, bits, color, n).unwrap().rows, y, x)
                == if paints(st, bits, n, y, x) { color } else { px_at(cv.rows, y, x) },
{
    let nc = put_spec(cv, band, bits, color, n).unwrap();
    let y0 = band * 6;
    let grown = if y0 + 6 > cv.rows.len() {
        cv.rows + Seq::new((y0 + 6 - cv.rows.len()) as nat, |_i: int| Seq::<Rgba>::empty())
    } else {
        cv.rows
    };
    assert forall|y: int, x: int| #![trigger px_at(nc.rows, y, x)]
        px_at(nc.rows, y, x) == if paints(st, bits, n, y, x) { color } else { px_at(cv.rows, y, x) } by {
        assert(nc.rows == Seq::new(grown.len(), |yy: int|
            if y0 <= yy < y0 + 6 && bit_set(bits, yy - y0) && n > 0 {
                paint_row(grown[yy], cv.cur_x, n, color)
            } else {
                grown[yy]
            }));
        assert(nc.rows.len() == grown.len());
        if 0 <= y < grown.len() {
            let g = grown[y];
            assert(g == if y < cv.rows.len() { cv.rows[y] } else { Seq::<Rgba>::empty() });
            assert(px_at(cv.rows, y, x) == if 0 <= x < g.len() { g[x] } else { transparent() });
            if y0 <= y < y0 + 6 && bit_set(bits, y - y0) {
                let r = paint_row(g, cv.cur_x, n, color);
                assert(nc.rows[y] == r);
                assert(r.len() >= cv.cur_x + n);
                assert(r.len() >= g.len());
                assert(paints(st, bits, n, y, x) == (cv.cur_x <= x < cv.cur_x + n));
                if 0 <= x < r.len() {
                    assert(r[x] == if cv.cur_x <= x < cv.cur_x + n { color } else if x < g.len() { g[x] } else { transparent() });
                    assert(px_at(nc.rows, y, x) == r[x]);
                    assert(px_at(nc.rows, y, x) == (if paints(st, bits, n, y, x) { color } else { px_at(cv.rows, y, x) }));
                } else {
                    assert(px_at(nc.rows, y, x) == transparent());
                    assert(px_at(nc.rows, y, x) == (if paints(st, bits, n, y, x) { color } else { px_at(cv.rows, y, x) }));
                }
            } else {
                assert(nc.rows[y] == g);
                assert(!paints(st, bits, n, y, x));
                assert(px_at(nc.rows, y, x) == if 0 <= x < g.len() { g[x] } else { transparent() });
            }
        } else {
            assert(!(0 <= y < cv.rows.len()));
            assert(!paints(st, bits, n, y, x));
            assert(px_at(nc.rows, y, x) == transparent());
            assert(px_at(cv.rows, y, x) == transparent());
        }
    }
}

proof fn lemma_step_pixels(s: Seq<u8>, j: int, st: SixelState)
    requires
        state_ok(st),
        0 <= j < s.len(),
    ensures
        sixel_step(s, j, st) matches Step::Next(_, n) ==> forall|y: int, x: int| #![trigger px_at(n.canvas.rows, y, x)]
            px_at(n.canvas.rows, y, x) == if step_paints(s, j, st, y, x) { st.palette[st.color] } else { px_at(st.canvas.rows, y, x) },
        sixel_step(s, j, st) matches Step::Stop(n) ==> n.canvas.rows == st.canvas.rows,
{
    let b = s[j];
    if b == 0x21 {
        let (n0, a) = num_at(s, j + 1);
        let j1 = j + 1 + a;
        let n = if n0 == 0 { 1int } else { n0 as int };
        if 0 <= j1 < s.len() && 0x3f <= s[j1] <= 0x7e {
            if put_spec(st.canvas, st.band, (s[j1] - 0x3f) as u8, st.palette[st.color], n) is Some {
                lemma_put_pixels(st.canvas, st.band, (s[j1] - 0x3f) as u8, st.palette[st.color], n, st);
            }
        }
    } else if b == 0x23 || b == 0x22 || b == 0x24 || b == 0x2d {
    } else if 0x3f <= b <= 0x7e {
        if put_spec(st.canvas, st.band, (b - 0x3f) as u8, st.palette[st.color], 1) is Some {
            lemma_put_pixels(st.canvas, st.band, (b - 0x3f) as u8, st.palette[st.color], 1, st);
        }
    }
}

proof fn lemma_run_pixels(s: Seq<u8>, j: int, st: SixelState)
    requires
        state_ok(st),
    ensures
        sixel_run(s, j, st) matches Some(f) ==> forall|y: int, x: int| #![trigger px_at(f.canvas.rows, y, x)]
            (painted_from(s, j, st, y, x) ==> px_at(f.canvas.rows, y, x)[3] == 255)
            && (!painted_from(s, j, st, y, x) ==> px_at(f.canvas.rows, y, x) == px_at(st.canvas.rows, y, x)),
    decreases s.len() - j,
{
    if 0 <= j < s.len() {
        lemma_step_ok(s, j, st);
        lemma_step_pixels(s, j, st);
        match sixel_step(s, j, st) {
            Step::Fail => {},
            Step::Stop(_) => {},
            Step::Next(nj, n) => {
                if j < nj <= s.len() {
                    lemma_run_pixels(s, nj, n);
                }
                if let Some(f) = sixel_run(s, j, st) {
                    assert(st.palette[st.color][3] == 255);
                    assert forall|y: int, x: int| #![trigger px_at(f.canvas.rows, y, x)]
                        (painted_from(s, j, st, y, x) ==> px_at(f.canvas.rows, y, x)[3] == 255)
                        && (!painted_from(s, j, st, y, x) ==> px_at(f.canvas.rows, y, x) == px_at(st.canvas.rows, y, x)) by {
                        if j < nj <= s.len() {
                            assert(px_at(f.canvas.rows, y, x) == px_at(n.canvas.rows, y, x) || painted_from(s, nj, n, y, x));
                        } else {
                            assert(f == n);
                        }
                        assert(px_at(n.canvas.rows, y, x) == if step_paints(s, j, st, y, x) { st.palette[st.color] } else { px_at(st.canvas.rows, y, x) });
                    }
                }
            },
        }
    }
}

proof fn lemma_row_bytes_at(row: Seq<Rgba>, w: int, x: int, k: int)
    requires
        0 <= x < w,
        0 <= k < 4,
    ensures
        row_bytes(row, w).len() == 4 * w,
        row_bytes(row, w)[4 * x + k] == (if x < row.len() { row[x] } else { transparent() })[k],
    decreases w,
{
    lemma_row_bytes_len(row, w - 1);
    if x < w - 1 {
        lemma_row_bytes_at(row, w - 1, x, k);
    }
}

proof fn lemma_row_bytes_len(row: Seq<Rgba>, w: int)
    requires
        w >= 0,
    ensures
        row_bytes(row, w).len() == 4 * w,
    decreases w,
{
    if w > 0 {
        lemma_row_bytes_len(row, w - 1);
    }
}

proof fn lemma_image_bytes_at(rows: Seq<Seq<Rgba>>, w: int, y: int, x: int, k: int)
    requires
        0 <= y < rows.len(),
        0 <= x < w,
        0 <= k < 4,
    ensures
        image_bytes(rows, w).len() == 4 * (w * rows.len()),
        image_bytes(rows, w)[4 * (y * w + x) + k] == px_at(rows, y, x)[k],
    decreases rows.len(),
{
    let n = rows.len() as int;
    let p = rows.drop_last();
    lemma_row_bytes_at(rows.last(), w, x, k);
    let m = w * (n - 1);
    assert(w * n == m + w) by (nonlinear_arith)
        requires
            m == w * (n - 1),
    ;
    if n > 1 {
        lemma_image_bytes_at(p, w, if y < n - 1 { y } else { 0 }, x, k);
    } else {
        assert(image_bytes(p, w) =~= Seq::<u8>::empty());
        assert(m == 0) by (nonlinear_arith)
            requires
                m == w * (n - 1),
                n == 1,
        ;
    }
    assert(image_bytes(rows, w) == image_bytes(p, w) + row_bytes(rows.last(), w));
    if y < n - 1 {
        assert(y * w + x < m) by (nonlinear_arith)
            requires
                m == w * (n - 1),
                0 <= y < n - 1,
                0 <= x < w,
        ;
        assert(p[y] == rows[y]);
    } else {
        assert(y * w + x == m + x) by (nonlinear_arith)
            requires
                m == w * (n - 1),
                y == n - 1,
        ;
    }
}

/// In every image `decode` returns, a pixel is opaque where some sixel of
/// the payload painted it and fully transparent `[0, 0, 0, 0]` where none
/// did.
pub proof fn lemma_decoded_painting(d: Seq<u8>)
    requires
        decode_spec(d) is Some,
    ensures
        ({
            let (w, h, b) = decode_spec(d).unwrap();
            forall|y: int, x: int| 0 <= y < h && 0 <= x < w ==> {
                &&& sixel_painted(d, y, x) ==> (#[trigger] pixel_of(b, w as int, y, x))[3] == 255
                &&& !sixel_painted(d, y, x) ==> is_clear(pixel_of(b, w as int, y, x))
            }
        }),
{
    let i = selector_at(d).unwrap();
    let body = d.skip(i + 1);
    let st0 = initial_state();
    assert forall|k: int| 0 <= k < 256 implies (#[trigger] st0.palette[k])[3] == 255 by {
        if k < 16 {
            let (r, g, b) = vt340_percent(k);
            assert(st0.palette[k] == percent_rgb(r, g, b));
        }
    }
    lemma_run_pixels(body, 0, st0);
    lemma_run_ok(body, 0, st0);
    let st = sixel_run(body, 0, st0).unwrap();
    let (w, h, b) = decode_spec(d).unwrap();
    assert(w == st.canvas.max_width);
    assert forall|y: int, x: int| 0 <= y < h && 0 <= x < w implies {
        &&& sixel_painted(d, y, x) ==> (#[trigger] pixel_of(b, w as int, y, x))[3] == 255
        &&& !sixel_painted(d, y, x) ==> is_clear(pixel_of(b, w as int, y, x))
    } by {
        lemma_image_bytes_at(st.canvas.rows, w as int, y, x, 0);
        lemma_image_bytes_at(st.canvas.rows, w as int, y, x, 1);
        lemma_image_bytes_at(st.canvas.rows, w as int, y, x, 2);
        lemma_image_bytes_at(st.canvas.rows, w as int, y, x, 3);
        assert(b == image_bytes(st.canvas.rows, w as int));
        assert(h == st.canvas.rows.len());
        let o = 4 * (y * w + x);
        let px = pixel_of(b, w as int, y, x);
        assert(px[0] == b[o] && px[1] == b[o + 1] && px[2] == b[o + 2] && px[3] == b[o + 3]);
        let q = px_at(st.canvas.rows, y, x);
        assert(b[o] == q[0] && b[o + 1] == q[1] && b[o + 2] == q[2] && b[o + 3] == q[3]);
        assert(px_at(st0.canvas.rows, y, x) == transparent());
        if !painted_from(body, 0, st0, y, x) {
            assert(q == transparent());
        }
    }
}

// --- the graphics carriage return ---------------------------------------------------

/// `$` returns to column 0 of the current band: the column becomes 0 and the
/// band, the palette, the color, the painted pixels and the width so far stay.
pub proof fn lemma_carriage_return(s: Seq<u8>, j: int, st: SixelState)
    requires
        0 <= j < s.len(),
        s[j] == 0x24,
    ensures
        sixel_step(s, j, st) matches Step::Next(nj, n) && nj == j + 1 && n.canvas.cur_x == 0 && n.band == st.band
            && n.palette == st.palette && n.color == st.color && n.canvas.rows == st.canvas.rows
            && n.canvas.max_width == st.canvas.max_width,
{
}

/// Painting after `$` starts at column 0 of the same band: a sixel right
/// after a `$` covers column 0 of the band's rows its bits select.
pub proof fn lemma_paint_after_return(s: Seq<u8>, j: int, st: SixelState, y: int)
    requires
        0 <= j,
        j + 1 < s.len(),
        s[j] == 0x24,
        0x3f <= s[j + 1] <= 0x7e,
        st.band * 6 <= y < st.band * 6 + 6,
        bit_set((s[j + 1] - 0x3f) as u8, y - st.band * 6),
    ensures
        sixel_step(s, j, st) matches Step::Next(nj, n) && step_paints(s, nj, n, y, 0),
{
}

/// `-` starts the next band at column 0, keeping palette, color and pixels,
/// unless that band would end below row `MAX_DIM`, which ends the decoding.
pub proof fn lemma_new_line(s: Seq<u8>, j: int, st: SixelState)
    requires
        0 <= j < s.len(),
        s[j] == 0x2d,
    ensures
        (st.band + 2) * 6 <= MAX_DIM ==> (sixel_step(s, j, st) matches Step::Next(nj, n) && nj == j + 1
            && n.band == st.band + 1 && n.canvas.cur_x == 0 && n.palette == st.palette && n.color == st.color
            && n.canvas.rows == st.canvas.rows),
        (st.band + 2) * 6 > MAX_DIM ==> (sixel_step(s, j, st) matches Step::Stop(n) && n.canvas.rows == st.canvas.rows),
{
}

/// A sixel character paints, in the current color, the pixels of the
/// current column whose bits it sets (bit `i` is row `i` of the band), and
/// moves one column right; every other pixel keeps its value.
pub proof fn lemma_sixel_char(s: Seq<u8>, j: int, st: SixelState)
    requires
        0 <= j < s.len(),
        0x3f <= s[j] <= 0x7e,
        state_ok(st),
        st.canvas.cur_x < MAX_DIM,
    ensures
        sixel_step(s, j, st) matches Step::Next(nj, n) && nj == j + 1 && n.canvas.cur_x == st.canvas.cur_x + 1
            && n.band == st.band && forall|y: int, x: int| #![trigger px_at(n.canvas.rows, y, x)]
                px_at(n.canvas.rows, y, x) == if st.band * 6 <= y < st.band * 6 + 6
                    && bit_set((s[j] - 0x3f) as u8, y - st.band * 6) && x == st.canvas.cur_x {
                    st.palette[st.color]
                } else {
                    px_at(st.canvas.rows, y, x)
                },
{
    lemma_step_pixels(s, j, st);
}

} // verus!

