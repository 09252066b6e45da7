//! Decoding the PNG payloads of inline images (iTerm2 `File=`, Kitty
//! `f=100`) to RGBA for display. The `png` crate parses and inflates; this
//! module bounds the image size and expands the decoded 8-bit samples to
//! four channels.

use vstd::prelude::*;

verus! {

/// The sample layout of a decoded frame (8 bits per sample).
#[derive(Clone, Copy, Debug, PartialEq, Eq, Structural)]
pub enum PixelKind {
    Grayscale,
    Rgb,
    Indexed,
    GrayscaleAlpha,
    Rgba,
}

/// The image size `png` reads from the header of `bytes`, with palette
/// expansion and 16-to-8-bit stripping requested; `None` when the header
/// does not parse.
pub uninterp spec fn png_header_of(bytes: Seq<u8>) -> Option<(u32, u32)>;

/// The first frame `png` decodes from `bytes` under the same settings: its
/// sample layout and samples; `None` when decoding fails.
pub uninterp spec fn png_frame_of(bytes: Seq<u8>) -> Option<(PixelKind, Seq<u8>)>;

/// Calls `png::Decoder::read_info` (with `EXPAND | STRIP_16`) and reports
/// the header's width and height. What the header holds is the `png` crate's
/// parsing, named here and not restated.
#[verifier::external_body]
fn png_header(bytes: &[u8]) -> (r: Option<(u32, u32)>)
    ensures
        r == png_header_of(bytes@),
{
    let mut dec = png::Decoder::new(bytes);
    dec.set_transformations(png::Transformations::EXPAND | png::Transformations::STRIP_16);
    let reader = dec.read_info().ok()?;
    let info = reader.info();
    Some((info.width, info.height))
}

/// Calls `png::Reader::next_frame` after `read_info` (with `EXPAND |
/// STRIP_16`), into a buffer of `output_buffer_size` bytes cut to the frame's
/// `buffer_size`, and maps `png::ColorType` onto `PixelKind` variant for
/// variant. The decoded samples are the `png` crate's work, named here.
#[verifier::external_body]
fn png_frame(bytes: &[u8]) -> (r: Option<(PixelKind, Vec<u8>)>)
    ensures
        r matches Some(f) ==> png_frame_of(bytes@) == Some((f.0, f.1@)),
        r is None ==> png_frame_of(bytes@) is None,
{
    let mut dec = png::Decoder::new(bytes);
    dec.set_transformations(png::Transformations::EXPAND | png::Transformations::STRIP_16);
    let mut reader = dec.read_info().ok()?;
    let mut buf = vec![0u8; reader.output_buffer_size()];
    let frame = reader.next_frame(&mut buf).ok()?;
    buf.truncate(frame.buffer_size());
    let kind = match frame.color_type {
        png::ColorType::Grayscale => PixelKind::Grayscale,
        png::ColorType::Rgb => PixelKind::Rgb,
        png::ColorType::Indexed => PixelKind::Indexed,
        png::ColorType::GrayscaleAlpha => PixelKind::GrayscaleAlpha,
        png::ColorType::Rgba => PixelKind::Rgba,
    };
    Some((kind, buf))
}

/// The largest image accepted, in pixels.
pub const MAX_PIXELS: u64 = 64 * 1024 * 1024;

/// Three-sample pixels with an opaque alpha appended; a trailing partial
/// pixel is dropped.
pub open spec fn rgb_to_rgba(s: Seq<u8>) -> Seq<u8> {
    Seq::new((s.len() / 3 * 4) as nat, |i: int| if i % 4 == 3 { 255u8 } else { s[i / 4 * 3 + i % 4] })
}

/// One grey sample per pixel, spread over red, green and blue, opaque.
pub open spec fn gray_to_rgba(s: Seq<u8>) -> Seq<u8> {
    Seq::new((s.len() * 4) as nat, |i: int| if i % 4 == 3 { 255u8 } else { s[i / 4] })
}

/// Grey-and-alpha pixels: the grey spread over red, green and blue, the
/// alpha kept; a trailing partial pixel is dropped.
pub open spec fn gray_alpha_to_rgba(s: Seq<u8>) -> Seq<u8> {
    Seq::new((s.len() / 2 * 4) as nat, |i: int| if i % 4 == 3 { s[i / 4 * 2 + 1] } else { s[i / 4 * 2] })
}

/// The decoded samples as RGBA; paletted samples cannot be mapped here.
pub open spec fn expand_spec(kind: PixelKind, s: Seq<u8>) -> Option<Seq<u8>> {
    match kind {
        PixelKind::Rgba => Some(s),
        PixelKind::Rgb => Some(rgb_to_rgba(s)),
        PixelKind::Grayscale => Some(gray_to_rgba(s)),
        PixelKind::GrayscaleAlpha => Some(gray_alpha_to_rgba(s)),
        PixelKind::Indexed => None,
    }
}

/// The image an accepted header size and a decoded frame give: the RGBA
/// expansion of the frame, when it covers `w * h` pixels.
pub open spec fn image_of_frame(w: u32, h: u32, kind: PixelKind, s: Seq<u8>) -> Option<(u32, u32, Seq<u8>)> {
    match expand_spec(kind, s) {
        None => None,
        Some(rgba) => if rgba.len() < w * h * 4 { None } else { Some((w, h, rgba)) },
    }
}

/// Whether a header size is accepted: non-zero and at most `MAX_PIXELS`.
pub open spec fn size_ok(w: u32, h: u32) -> bool {
    w != 0 && h != 0 && w * h <= MAX_PIXELS
}

/// What `decode_png` gives for a header result and a frame result.
pub open spec fn decode_png_spec(header: Option<(u32, u32)>, frame: Option<(PixelKind, Seq<u8>)>) -> Option<(u32, u32, Seq<u8>)> {
    match header {
        None => None,
        Some(hw) => if !size_ok(hw.0, hw.1) {
            None
        } else {
            match frame {
                None => None,
                Some(f) => image_of_frame(hw.0, hw.1, f.0, f.1),
            }
        },
    }
}

proof fn lemma_div4(p: int, c: int)
    requires
        0 <= p,
        0 <= c < 4,
    ensures
        (4 * p + c) / 4 == p,
        (4 * p + c) % 4 == c,
{
    assert((4 * p + c) / 4 == p) by (nonlinear_arith)
        requires
            0 <= p,
            0 <= c < 4,
    ;
    assert((4 * p + c) % 4 == c) by (nonlinear_arith)
        requires
            0 <= p,
            0 <= c < 4,
    ;
}

fn expand_rgb(s: &Vec<u8>) -> (out: Vec<u8>)
    ensures
        out@ == rgb_to_rgba(s@),
{
    let n = s.len() / 3;
    let mut out: Vec<u8> = Vec::new();
    let mut p: usize = 0;
    while p < n
        invariant
            n == s@.len() / 3,
            s@.len() <= usize::MAX,
            p <= n,
            out@.len() == 4 * p,
            forall|i: int| 0 <= i < out@.len() ==> #[trigger] out@[i] == rgb_to_rgba(s@)[i],
        decreases n - p,
    {
        assert(3 * p + 3 <= s@.len()) by (nonlinear_arith)
            requires
                p < n,
                n == s@.len() / 3,
        ;
        assert((n * 4) as nat == (s@.len() / 3 * 4) as nat);
        let ghost old_out = out@;
        out.push(s[3 * p]);
        out.push(s[3 * p + 1]);
        out.push(s[3 * p + 2]);
        out.push(255);
        proof {
            assert forall|i: int| 0 <= i < out@.len() implies #[trigger] out@[i] == rgb_to_rgba(s@)[i] by {
                if i >= 4 * p {
                    lemma_div4(p as int, i - 4 * p);
                    assert(4 * p + 4 <= 4 * n) by (nonlinear_arith)
                        requires
                            p < n,
                    ;
                } else {
                    assert(out@[i] == old_out[i]);
                }
            }
        }
        p = p + 1;
    }
    proof {
        assert(out@.len() == rgb_to_rgba(s@).len());
    }
    assert(out@ =~= rgb_to_rgba(s@));
    out
}

fn expand_gray(s: &Vec<u8>) -> (out: Vec<u8>)
    ensures
        out@ == gray_to_rgba(s@),
{
    let n = s.len();
    let mut out: Vec<u8> = Vec::new();
    let mut p: usize = 0;
    while p < n
        invariant
            n == s@.len(),
            p <= n,
            out@.len() == 4 * p,
            forall|i: int| 0 <= i < out@.len() ==> #[trigger] out@[i] == gray_to_rgba(s@)[i],
        decreases n - p,
    {
        let v = s[p];
        let ghost old_out = out@;
        out.push(v);
        out.push(v);
        out.push(v);
        out.push(255);
        proof {
            assert forall|i: int| 0 <= i < out@.len() implies #[trigger] out@[i] == gray_to_rgba(s@)[i] by {
                if i >= 4 * p {
                    lemma_div4(p as int, i - 4 * p);
                } else {
                    assert(out@[i] == old_out[i]);
                }
            }
        }
        p = p + 1;
    }
    assert(out@ =~= gray_to_rgba(s@));
    out
}

fn expand_gray_alpha(s: &Vec<u8>) -> (out: Vec<u8>)
    ensures
        out@ == gray_alpha_to_rgba(s@),
{
    let n = s.len() / 2;
    let mut out: Vec<u8> = Vec::new();
    let mut p: usize = 0;
    while p < n
        invariant
            n == s@.len() / 2,
            s@.len() <= usize::MAX,
            p <= n,
            out@.len() == 4 * p,
            forall|i: int| 0 <= i < out@.len() ==> #[trigger] out@[i] == gray_alpha_to_rgba(s@)[i],
        decreases n - p,
    {
        assert(2 * p + 2 <= s@.len()) by (nonlinear_arith)
            requires
                p < n,
                n == s@.len() / 2,
        ;
        let g = s[2 * p];
        let a = s[2 * p + 1];
        let ghost old_out = out@;
        out.push(g);
        out.push(g);
        out.push(g);
        out.push(a);
        proof {
            assert forall|i: int| 0 <= i < out@.len() implies #[trigger] out@[i] == gray_alpha_to_rgba(s@)[i] by {
                if i >= 4 * p {
                    lemma_div4(p as int, i - 4 * p);
                    assert(4 * p + 4 <= 4 * n) by (nonlinear_arith)
                        requires
                            p < n,
                    ;
                } else {
                    assert(out@[i] == old_out[i]);
                }
            }
        }
        p = p + 1;
    }
    assert(out@ =~= gray_alpha_to_rgba(s@));
    out
}

/// The RGBA image for a decoded frame of an accepted `w` x `h` header:
/// the samples expanded to four channels, or `None` for paletted samples or
/// a frame that holds fewer than `w * h` pixels.
pub fn rgba_from_frame(w: u32, h: u32, kind: PixelKind, buf: Vec<u8>) -> (r: Option<(u32, u32, Vec<u8>)>)
    requires
        size_ok(w, h),
    ensures
        r is Some <==> image_of_frame(w, h, kind, buf@) is Some,
        r matches Some(t) ==> image_of_frame(w, h, kind, buf@) == Some((t.0, t.1, t.2@)),
{
    let rgba = match kind {
        PixelKind::Rgba => buf,
        PixelKind::Rgb => expand_rgb(&buf),
        PixelKind::Grayscale => expand_gray(&buf),
        PixelKind::GrayscaleAlpha => expand_gray_alpha(&buf),
        PixelKind::Indexed => return None,
    };
    assert(w as u64 * h as u64 * 4 <= MAX_PIXELS * 4) by (nonlinear_arith)
        requires
            w * h <= MAX_PIXELS,
    ;
    let need: u64 = w as u64 * h as u64 * 4;
    if (rgba.len() as u64) < need {
        return None;
    }
    Some((w, h, rgba))
}

/// Decode a PNG to `(width, height, rgba)`. `None` when the header does not
/// parse, the size is zero or over `MAX_PIXELS` (checked before any pixel is
/// decoded), the frame does not decode, the samples are paletted, or the
/// frame is short.
pub fn decode_png(bytes: &[u8]) -> (r: Option<(u32, u32, Vec<u8>)>)
    ensures
        r is Some <==> decode_png_spec(png_header_of(bytes@), png_frame_of(bytes@)) is Some,
        r matches Some(t) ==> decode_png_spec(png_header_of(bytes@), png_frame_of(bytes@)) == Some((t.0, t.1, t.2@)),
{
    let (w, h) = match png_header(bytes) {
        Some(hw) => hw,
        None => return None,
    };
    assert((w as u64) * (h as u64) <= u64::MAX) by (nonlinear_arith);
    if w == 0 || h == 0 || (w as u64) * (h as u64) > MAX_PIXELS {
        return None;
    }
    let (kind, buf) = match png_frame(bytes) {
        Some(f) => f,
        None => return None,
    };
    rgba_from_frame(w, h, kind, buf)
}

} // verus!
