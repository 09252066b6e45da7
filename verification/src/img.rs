//! Helpers for inline-image escape sequences (iTerm2 OSC 1337 `File=`).
//!
//! The pixel decode is left to the front-end, so this module only
//! base64-decodes the payload and sniffs the pixel dimensions and format from
//! the file header: enough to lay the image out in whole cells and hand the
//! raw bytes on. No image decoder is linked into the core.

use vstd::prelude::*;
use vstd::string::StringSliceAdditionalSpecFns;
use crate::text::{trim, trim_range, eq_ignore_case, ascii_lower, parse_uint, parse_bounded};

verus! {

/// A recognised container format for an inline image.
#[derive(Clone, Copy, PartialEq, Eq, Debug, Structural)]
pub enum Format {
    Png,
    Jpeg,
    Gif,
    Bmp,
    Webp,
}

impl Format {
    /// The MIME type handed to the front-end, so it decodes with the right
    /// container hint.
    pub fn mime(self) -> (m: &'static str)
        ensures
            m@ == mime_of(self),
    {
        match self {
            Format::Png => "image/png",
            Format::Jpeg => "image/jpeg",
            Format::Gif => "image/gif",
            Format::Bmp => "image/bmp",
            Format::Webp => "image/webp",
        }
    }
}

pub open spec fn mime_of(f: Format) -> Seq<char> {
    match f {
        Format::Png => "image/png"@,
        Format::Jpeg => "image/jpeg"@,
        Format::Gif => "image/gif"@,
        Format::Bmp => "image/bmp"@,
        Format::Webp => "image/webp"@,
    }
}

// --- base64 -------------------------------------------------------------------

/// What an input byte means to the decoder.
pub enum B64Class {
    Data(u32),
    Pad,
    Skip,
    Invalid,
}

/// The standard alphabet, `=` padding, and ASCII whitespace that is skipped.
pub open spec fn b64_class(b: u8) -> B64Class {
    if 0x41 <= b <= 0x5a {
        B64Class::Data((b - 0x41) as u32)
    } else if 0x61 <= b <= 0x7a {
        B64Class::Data((b - 0x61 + 26) as u32)
    } else if 0x30 <= b <= 0x39 {
        B64Class::Data((b - 0x30 + 52) as u32)
    } else if b == 0x2b {
        B64Class::Data(62)
    } else if b == 0x2f {
        B64Class::Data(63)
    } else if b == 0x3d {
        B64Class::Pad
    } else if b == 0x20 || b == 0x09 || b == 0x0a || b == 0x0d {
        B64Class::Skip
    } else {
        B64Class::Invalid
    }
}

/// Decoder state: bit accumulator, number of pending bits, padding seen, output.
pub struct B64State {
    pub acc: u32,
    pub bits: u32,
    pub pad: nat,
    pub out: Seq<u8>,
}

/// One input byte; `None` once the input is malformed.
pub open spec fn b64_step(st: B64State, b: u8) -> Option<B64State> {
    match b64_class(b) {
        B64Class::Skip => Some(st),
        B64Class::Pad => Some(B64State { pad: st.pad + 1, ..st }),
        B64Class::Invalid => None,
        B64Class::Data(v) => {
            if st.pad != 0 {
                None
            } else {
                let acc = ((st.acc << 6u32) | v) as u32;
                let bits = st.bits + 6;
                if bits >= 8 {
                    let nb = (bits - 8) as u32;
                    Some(B64State { acc, bits: nb, pad: st.pad, out: st.out.push((acc >> nb) as u8) })
                } else {
                    Some(B64State { acc, bits: bits as u32, pad: st.pad, out: st.out })
                }
            }
        },
    }
}

/// The decoder state after all of `s`.
pub open spec fn b64_run(s: Seq<u8>) -> Option<B64State>
    decreases s.len(),
{
    if s.len() == 0 {
        Some(B64State { acc: 0, bits: 0, pad: 0, out: Seq::empty() })
    } else {
        match b64_run(s.drop_last()) {
            Some(st) => b64_step(st, s.last()),
            None => None,
        }
    }
}

/// Standard-alphabet base64 decoding that skips ASCII whitespace; `None` on a
/// byte outside the alphabet or a data byte after padding.
pub open spec fn base64_decoded(s: Seq<u8>) -> Option<Seq<u8>> {
    match b64_run(s) {
        Some(st) => Some(st.out),
        None => None,
    }
}

proof fn lemma_b64_bits(s: Seq<u8>)
    ensures
        b64_run(s) matches Some(st) ==> st.bits < 8,
    decreases s.len(),
{
    if s.len() > 0 {
        lemma_b64_bits(s.drop_last());
    }
}

/// Decode standard-alphabet base64, skipping any ASCII whitespace (iTerm2 may
/// wrap the payload). Returns `None` on a malformed alphabet character.
pub fn decode_base64(input: &[u8]) -> (r: Option<Vec<u8>>)
    ensures
        r matches Some(v) ==> base64_decoded(input@) == Some(v@),
        r is None ==> base64_decoded(input@) is None,
{
    let mut out: Vec<u8> = Vec::new();
    let mut acc: u32 = 0;
    let mut bits: u32 = 0;
    let mut pad: usize = 0;
    let mut i: usize = 0;
    assert(input@.take(0) =~= Seq::<u8>::empty());
    while i < input.len()
        invariant
            i <= input@.len(),
            b64_run(input@.take(i as int)) == Some(B64State { acc, bits, pad: pad as nat, out: out@ }),
            bits < 8,
            pad <= i,
        decreases input.len() - i,
    {
        let b = input[i];
        proof {
            assert(input@.take(i + 1).drop_last() =~= input@.take(i as int));
            assert(input@.take(i + 1).last() == b);
        }
        let v: u32 = if 0x41 <= b && b <= 0x5a {
            (b - 0x41) as u32
        } else if 0x61 <= b && b <= 0x7a {
            (b - 0x61 + 26) as u32
        } else if 0x30 <= b && b <= 0x39 {
            (b - 0x30 + 52) as u32
        } else if b == 0x2b {
            62
        } else if b == 0x2f {
            63
        } else if b == 0x3d {
            pad = pad + 1;
            i = i + 1;
            continue;
        } else if b == 0x20 || b == 0x09 || b == 0x0a || b == 0x0d {
            i = i + 1;
            continue;
        } else {
            proof {
                lemma_none_stays(input@, (i + 1) as int);
            }
            return None;
        };
        if pad != 0 {
            proof {
                lemma_none_stays(input@, (i + 1) as int);
            }
            return None;
        }
        acc = (acc << 6u32) | v;
        bits = bits + 6;
        if bits >= 8 {
            bits = bits - 8;
            out.push((acc >> bits) as u8);
        }
        i = i + 1;
    }
    assert(input@.take(i as int) =~= input@);
    Some(out)
}

/// Once the decoder has failed, it stays failed.
proof fn lemma_none_stays(s: Seq<u8>, k: int)
    requires
        0 <= k <= s.len(),
        b64_run(s.take(k)) is None,
    ensures
        b64_run(s) is None,
    decreases s.len() - k,
{
    if k < s.len() {
        assert(s.take(k + 1).drop_last() =~= s.take(k));
        lemma_none_stays(s, k + 1);
    } else {
        assert(s.take(k) =~= s);
    }
}

// --- the round trip ---------------------------------------------------------

/// The standard alphabet's character for a 6-bit value.
pub open spec fn b64_char(v: u8) -> u8 {
    if v < 26 {
        (0x41 + v) as u8
    } else if v < 52 {
        (0x61 + v - 26) as u8
    } else if v < 62 {
        (0x30 + v - 52) as u8
    } else if v == 62 {
        0x2b
    } else {
        0x2f
    }
}

/// Standard padded base64 of `x`: each three bytes become four characters;
/// a last one or two bytes become two or three characters and `=` padding.
pub open spec fn base64_encoded(x: Seq<u8>) -> Seq<u8>
    decreases x.len(),
{
    if x.len() == 0 {
        seq![]
    } else if x.len() == 1 {
        seq![b64_char(x[0] >> 2), b64_char((x[0] & 3) << 4), 0x3d, 0x3d]
    } else if x.len() == 2 {
        seq![b64_char(x[0] >> 2), b64_char(((x[0] & 3) << 4) | (x[1] >> 4)), b64_char((x[1] & 15) << 2), 0x3d]
    } else {
        seq![
            b64_char(x[0] >> 2),
            b64_char(((x[0] & 3) << 4) | (x[1] >> 4)),
            b64_char(((x[1] & 15) << 2) | (x[2] >> 6)),
            b64_char(x[2] & 63),
        ] + base64_encoded(x.skip(3))
    }
}

/// The decoder run over `s` from state `st`.
spec fn b64_steps(st: B64State, s: Seq<u8>) -> Option<B64State>
    decreases s.len(),
{
    if s.len() == 0 {
        Some(st)
    } else {
        match b64_steps(st, s.drop_last()) {
            Some(n) => b64_step(n, s.last()),
            None => None,
        }
    }
}

proof fn lemma_steps_from_start(s: Seq<u8>)
    ensures
        b64_run(s) == b64_steps(B64State { acc: 0, bits: 0, pad: 0, out: Seq::empty() }, s),
    decreases s.len(),
{
    if s.len() > 0 {
        lemma_steps_from_start(s.drop_last());
    }
}

proof fn lemma_steps_append(st: B64State, a: Seq<u8>, b: Seq<u8>)
    ensures
        b64_steps(st, a + b) == match b64_steps(st, a) {
            Some(n) => b64_steps(n, b),
            None => None,
        },
    decreases b.len(),
{
    if b.len() == 0 {
        assert(a + b =~= a);
    } else {
        assert((a + b).drop_last() =~= a + b.drop_last());
        assert((a + b).last() == b.last());
        lemma_steps_append(st, a, b.drop_last());
    }
}

proof fn lemma_char_class(v: u8)
    requires
        v < 64,
    ensures
        b64_class(b64_char(v)) == B64Class::Data(v as u32),
{
}

proof fn lemma_group_bits(acc: u32, a: u8, b: u8, c: u8)
    ensures
        ({
            let a1 = (acc << 6u32) | ((a >> 2u8) as u32);
            let a2 = (a1 << 6u32) | ((((a & 3u8) << 4u8) | (b >> 4u8)) as u32);
            let a3 = (a2 << 6u32) | ((((b & 15u8) << 2u8) | (c >> 6u8)) as u32);
            let a4 = (a3 << 6u32) | ((c & 63u8) as u32);
            &&& (a2 >> 4u32) as u8 == a
            &&& (a3 >> 2u32) as u8 == b
            &&& (a4 >> 0u32) as u8 == c
            &&& a >> 2u8 < 64
            &&& ((a & 3u8) << 4u8) | (b >> 4u8) < 64
            &&& ((b & 15u8) << 2u8) | (c >> 6u8) < 64
            &&& c & 63u8 < 64
        }),
{
    assert({
        let a1 = (acc << 6u32) | ((a >> 2u8) as u32);
        let a2 = (a1 << 6u32) | ((((a & 3u8) << 4u8) | (b >> 4u8)) as u32);
        let a3 = (a2 << 6u32) | ((((b & 15u8) << 2u8) | (c >> 6u8)) as u32);
        let a4 = (a3 << 6u32) | ((c & 63u8) as u32);
        &&& (a2 >> 4u32) as u8 == a
        &&& (a3 >> 2u32) as u8 == b
        &&& (a4 >> 0u32) as u8 == c
        &&& a >> 2u8 < 64
        &&& ((a & 3u8) << 4u8) | (b >> 4u8) < 64
        &&& ((b & 15u8) << 2u8) | (c >> 6u8) < 64
        &&& c & 63u8 < 64
    }) by (bit_vector);
}

proof fn lemma_encoded_steps(st: B64State, x: Seq<u8>)
    requires
        st.bits == 0,
        st.pad == 0,
    ensures
        b64_steps(st, base64_encoded(x)) matches Some(n) && n.out == st.out + x,
    decreases x.len(),
{
    let e = base64_encoded(x);
    if x.len() == 0 {
        assert(st.out + x =~= st.out);
    } else {
        let a = x[0];
        let b = if x.len() >= 2 { x[1] } else { 0u8 };
        let c = if x.len() >= 3 { x[2] } else { 0u8 };
        lemma_group_bits(st.acc, a, b, c);
        let v0 = a >> 2u8;
        let v1 = ((a & 3u8) << 4u8) | (b >> 4u8);
        let v2 = ((b & 15u8) << 2u8) | (c >> 6u8);
        let v3 = c & 63u8;
        lemma_char_class(v0);
        lemma_char_class(v1);
        lemma_char_class(v2);
        lemma_char_class(v3);
        if x.len() == 1 {
            assert(((a & 3u8) << 4u8) == v1) by (bit_vector)
                requires
                    b == 0u8,
                    v1 == ((a & 3u8) << 4u8) | (b >> 4u8),
            ;
            let g = seq![b64_char(v0), b64_char(v1), 0x3du8, 0x3du8];
            assert(e == g);
            let g1 = seq![b64_char(v0)];
            let g2 = seq![b64_char(v0), b64_char(v1)];
            let g3 = seq![b64_char(v0), b64_char(v1), 0x3du8];
            assert(g1.drop_last() =~= Seq::<u8>::empty());
            assert(g2.drop_last() =~= g1);
            assert(g3.drop_last() =~= g2);
            assert(g.drop_last() =~= g3);
            let a1 = (st.acc << 6u32) | (v0 as u32);
            let a2 = (a1 << 6u32) | (v1 as u32);
            assert(b64_steps(st, Seq::<u8>::empty()) == Some(st));
            assert(b64_steps(st, g1) == Some(B64State { acc: a1, bits: 6, pad: 0, out: st.out }));
            assert(b64_steps(st, g2) == Some(B64State { acc: a2, bits: 4, pad: 0, out: st.out.push(a) }));
            assert(b64_steps(st, g3) == Some(B64State { acc: a2, bits: 4, pad: 1, out: st.out.push(a) }));
            assert(b64_steps(st, g) == Some(B64State { acc: a2, bits: 4, pad: 2, out: st.out.push(a) }));
            assert(st.out.push(a) =~= st.out + x);
        } else if x.len() == 2 {
            assert(((b & 15u8) << 2u8) == v2) by (bit_vector)
                requires
                    c == 0u8,
                    v2 == ((b & 15u8) << 2u8) | (c >> 6u8),
            ;
            let g = seq![b64_char(v0), b64_char(v1), b64_char(v2), 0x3du8];
            assert(e == g);
            let g1 = seq![b64_char(v0)];
            let g2 = seq![b64_char(v0), b64_char(v1)];
            let g3 = seq![b64_char(v0), b64_char(v1), b64_char(v2)];
            assert(g1.drop_last() =~= Seq::<u8>::empty());
            assert(g2.drop_last() =~= g1);
            assert(g3.drop_last() =~= g2);
            assert(g.drop_last() =~= g3);
            let a1 = (st.acc << 6u32) | (v0 as u32);
            let a2 = (a1 << 6u32) | (v1 as u32);
            let a3 = (a2 << 6u32) | (v2 as u32);
            assert(b64_steps(st, Seq::<u8>::empty()) == Some(st));
            assert(b64_steps(st, g1) == Some(B64State { acc: a1, bits: 6, pad: 0, out: st.out }));
            assert(b64_steps(st, g2) == Some(B64State { acc: a2, bits: 4, pad: 0, out: st.out.push(a) }));
            assert(b64_steps(st, g3) == Some(B64State { acc: a3, bits: 2, pad: 0, out: st.out.push(a).push(b) }));
            assert(b64_steps(st, g) == Some(B64State { acc: a3, bits: 2, pad: 1, out: st.out.push(a).push(b) }));
            assert(st.out.push(a).push(b) =~= st.out + x);
        } else {
            let g = seq![b64_char(v0), b64_char(v1), b64_char(v2), b64_char(v3)];
            let rest = base64_encoded(x.skip(3));
            assert(e == g + rest);
            lemma_steps_append(st, g, rest);
            let g1 = seq![b64_char(v0)];
            let g2 = seq![b64_char(v0), b64_char(v1)];
            let g3 = seq![b64_char(v0), b64_char(v1), b64_char(v2)];
            assert(g1.drop_last() =~= Seq::<u8>::empty());
            assert(g2.drop_last() =~= g1);
            assert(g3.drop_last() =~= g2);
            assert(g.drop_last() =~= g3);
            let a1 = (st.acc << 6u32) | (v0 as u32);
            let a2 = (a1 << 6u32) | (v1 as u32);
            let a3 = (a2 << 6u32) | (v2 as u32);
            let a4 = (a3 << 6u32) | (v3 as u32);
            assert(b64_steps(st, Seq::<u8>::empty()) == Some(st));
            assert(b64_steps(st, g1) == Some(B64State { acc: a1, bits: 6, pad: 0, out: st.out }));
            assert(b64_steps(st, g2) == Some(B64State { acc: a2, bits: 4, pad: 0, out: st.out.push(a) }));
            assert(b64_steps(st, g3) == Some(B64State { acc: a3, bits: 2, pad: 0, out: st.out.push(a).push(b) }));
            assert(b64_steps(st, g) == Some(B64State { acc: a4, bits: 0, pad: 0, out: st.out.push(a).push(b).push(c) }));
            let n1 = b64_steps(st, g).unwrap();
            assert(n1.bits == 0 && n1.pad == 0);
            assert(n1.out == st.out.push(a).push(b).push(c));
            lemma_encoded_steps(n1, x.skip(3));
            assert(b64_steps(st, e) == b64_steps(n1, rest));
            assert(st.out.push(a).push(b).push(c) + x.skip(3) =~= st.out + x);
            assert(b64_steps(n1, rest).unwrap().out == n1.out + x.skip(3));
        }
    }
}

/// Base64 decoding undoes the standard padded encoding: for any bytes `x`,
/// decoding `base64_encoded(x)` gives `x` back.
pub proof fn lemma_base64_round_trip(x: Seq<u8>)
    ensures
        base64_decoded(base64_encoded(x)) == Some(x),
{
    let st = B64State { acc: 0, bits: 0, pad: 0, out: Seq::empty() };
    lemma_steps_from_start(base64_encoded(x));
    lemma_encoded_steps(st, x);
    assert(st.out + x =~= x);
}

// --- what the decoder skips and refuses ------------------------------------------

/// The ASCII whitespace the decoder skips.
pub open spec fn b64_space(b: u8) -> bool {
    b64_class(b) is Skip
}

/// Keeps the bytes that are not whitespace.
pub open spec fn not_space() -> spec_fn(u8) -> bool {
    |b: u8| !b64_space(b)
}

/// `s` without its whitespace.
pub open spec fn without_space(s: Seq<u8>) -> Seq<u8> {
    s.filter(not_space())
}

proof fn lemma_run_skips_space(s: Seq<u8>)
    ensures
        b64_run(s) == b64_run(without_space(s)),
    decreases s.len(),
{
    reveal(Seq::filter);
    if s.len() == 0 {
        assert(without_space(s) == s);
    } else {
        let p = s.drop_last();
        lemma_run_skips_space(p);
        let pred = not_space();
        let f = s.filter(pred);
        assert(s.drop_last() == p);
        if pred(s.last()) {
            assert(f == p.filter(pred).push(s.last()));
            assert(f.drop_last() =~= p.filter(pred));
            assert(f.last() == s.last());
        } else {
            assert(f == p.filter(pred));
            assert(b64_class(s.last()) is Skip);
        }
    }
}

/// Whitespace anywhere in the input changes nothing: the input decodes as
/// it does with the whitespace taken out.
pub proof fn lemma_base64_skips_space(s: Seq<u8>)
    ensures
        base64_decoded(s) == base64_decoded(without_space(s)),
{
    lemma_run_skips_space(s);
}

/// The standard encoding of any bytes, with whitespace put anywhere in it,
/// decodes to those bytes.
pub proof fn lemma_base64_round_trip_spaced(s: Seq<u8>, x: Seq<u8>)
    requires
        without_space(s) == base64_encoded(x),
    ensures
        base64_decoded(s) == Some(x),
{
    lemma_base64_skips_space(s);
    lemma_base64_round_trip(x);
}

/// A byte outside the alphabet, `=` and whitespace.
pub open spec fn b64_invalid_at(s: Seq<u8>, i: int) -> bool {
    b64_class(s[i]) is Invalid
}

/// A `=` at `i` and an alphabet byte after it at `j`.
pub open spec fn b64_data_after_pad(s: Seq<u8>, i: int, j: int) -> bool {
    b64_class(s[i]) is Pad && b64_class(s[j]) is Data
}

/// Input the decoder refuses: a byte it does not know, or an alphabet byte
/// after padding began.
pub open spec fn base64_malformed(s: Seq<u8>) -> bool {
    ||| exists|i: int| 0 <= i < s.len() && #[trigger] b64_invalid_at(s, i)
    ||| exists|i: int, j: int| 0 <= i < j < s.len() && #[trigger] b64_data_after_pad(s, i, j)
}

pub open spec fn b64_pad_at(s: Seq<u8>, i: int) -> bool {
    b64_class(s[i]) is Pad
}

proof fn lemma_malformed_run(s: Seq<u8>)
    ensures
        b64_run(s) is None <==> base64_malformed(s),
        b64_run(s) matches Some(st) ==> (st.pad > 0 <==> exists|i: int| 0 <= i < s.len() && #[trigger] b64_pad_at(s, i)),
    decreases s.len(),
{
    if s.len() > 0 {
        let p = s.drop_last();
        let n = s.len() - 1;
        lemma_malformed_run(p);
        assert forall|i: int| 0 <= i < n implies #[trigger] s[i] == p[i] by {}
        if base64_malformed(p) {
            if exists|i: int| 0 <= i < p.len() && #[trigger] b64_invalid_at(p, i) {
                let i = choose|i: int| 0 <= i < p.len() && #[trigger] b64_invalid_at(p, i);
                assert(s[i] == p[i]);
                assert(b64_invalid_at(s, i));
            } else {
                let (i, j) = choose|i: int, j: int| 0 <= i < j < p.len() && #[trigger] b64_data_after_pad(p, i, j);
                assert(s[i] == p[i] && s[j] == p[j]);
                assert(b64_data_after_pad(s, i, j));
            }
        } else {
            let st = b64_run(p).unwrap();
            let c = s.last();
            assert(c == s[n]);
            // Nothing malformed lies wholly inside `p`.
            assert forall|i: int| 0 <= i < n implies !#[trigger] b64_invalid_at(s, i) by {
                assert(s[i] == p[i]);
                if b64_invalid_at(s, i) {
                    assert(b64_invalid_at(p, i));
                }
            }
            assert forall|i: int, j: int| 0 <= i < j < n implies !#[trigger] b64_data_after_pad(s, i, j) by {
                assert(s[i] == p[i] && s[j] == p[j]);
                if b64_data_after_pad(s, i, j) {
                    assert(b64_data_after_pad(p, i, j));
                }
            }
            let pad_in_p = exists|i: int| 0 <= i < p.len() && #[trigger] b64_pad_at(p, i);
            assert(pad_in_p <==> exists|i: int| 0 <= i < n && #[trigger] b64_pad_at(s, i)) by {
                if pad_in_p {
                    let i = choose|i: int| 0 <= i < p.len() && #[trigger] b64_pad_at(p, i);
                    assert(s[i] == p[i]);
                    assert(b64_pad_at(s, i));
                }
                if exists|i: int| 0 <= i < n && #[trigger] b64_pad_at(s, i) {
                    let i = choose|i: int| 0 <= i < n && #[trigger] b64_pad_at(s, i);
                    assert(s[i] == p[i]);
                    assert(b64_pad_at(p, i));
                }
            }
            match b64_class(c) {
                B64Class::Invalid => {
                    assert(b64_invalid_at(s, n));
                },
                B64Class::Data(_) => {
                    if st.pad != 0 {
                        let i = choose|i: int| 0 <= i < n && #[trigger] b64_pad_at(s, i);
                        assert(b64_data_after_pad(s, i, n));
                    } else {
                        assert(!b64_invalid_at(s, n));
                        assert forall|i: int, j: int| 0 <= i < j < s.len() implies !#[trigger] b64_data_after_pad(s, i, j) by {
                            if j == n && b64_data_after_pad(s, i, j) {
                                assert(b64_pad_at(s, i));
                            }
                        }
                        assert(!b64_pad_at(s, n));
                        assert forall|i: int| 0 <= i < s.len() implies !#[trigger] b64_pad_at(s, i) by {
                            if i < n && b64_pad_at(s, i) {
                                assert(exists|k: int| 0 <= k < n && #[trigger] b64_pad_at(s, k));
                            }
                        }
                    }
                },
                B64Class::Pad => {
                    assert(!b64_invalid_at(s, n));
                    assert(b64_pad_at(s, n));
                    assert forall|i: int, j: int| 0 <= i < j < s.len() implies !#[trigger] b64_data_after_pad(s, i, j) by {}
                },
                B64Class::Skip => {
                    assert(!b64_invalid_at(s, n));
                    assert(!b64_pad_at(s, n));
                    assert forall|i: int, j: int| 0 <= i < j < s.len() implies !#[trigger] b64_data_after_pad(s, i, j) by {}
                    assert((exists|i: int| 0 <= i < s.len() && #[trigger] b64_pad_at(s, i))
                        <==> exists|i: int| 0 <= i < n && #[trigger] b64_pad_at(s, i)) by {
                        if exists|i: int| 0 <= i < s.len() && #[trigger] b64_pad_at(s, i) {
                            let i = choose|i: int| 0 <= i < s.len() && #[trigger] b64_pad_at(s, i);
                            assert(i < n);
                        }
                    }
                },
            }
        }
    }
}

/// The decoder refuses exactly the malformed input: `None` if and only if
/// some byte is outside the alphabet, `=` and whitespace, or an alphabet
/// byte follows a `=`.
pub proof fn lemma_base64_refuses(s: Seq<u8>)
    ensures
        base64_decoded(s) is None <==> base64_malformed(s),
{
    lemma_malformed_run(s);
}

// --- container formats ------------------------------------------------------

pub open spec fn png_magic() -> Seq<u8> {
    seq![0x89u8, 0x50, 0x4e, 0x47, 0x0d, 0x0a, 0x1a, 0x0a]
}

/// The container format named by the leading magic bytes.
pub open spec fn format_of(b: Seq<u8>) -> Option<Format> {
    if b.len() >= 8 && b.take(8) == png_magic() {
        Some(Format::Png)
    } else if b.len() >= 3 && b[0] == 0xff && b[1] == 0xd8 && b[2] == 0xff {
        Some(Format::Jpeg)
    } else if b.len() >= 6 && b[0] == 0x47 && b[1] == 0x49 && b[2] == 0x46 && b[3] == 0x38
        && (b[4] == 0x37 || b[4] == 0x39) && b[5] == 0x61 {
        Some(Format::Gif)
    } else if b.len() >= 2 && b[0] == 0x42 && b[1] == 0x4d {
        Some(Format::Bmp)
    } else if b.len() >= 12 && b[0] == 0x52 && b[1] == 0x49 && b[2] == 0x46 && b[3] == 0x46
        && b[8] == 0x57 && b[9] == 0x45 && b[10] == 0x42 && b[11] == 0x50 {
        Some(Format::Webp)
    } else {
        None
    }
}

/// Recognise the container format from the leading magic bytes.
pub fn detect_format(b: &[u8]) -> (f: Option<Format>)
    ensures
        f == format_of(b@),
{
    let n = b.len();
    if n >= 8 && b[0] == 0x89 && b[1] == 0x50 && b[2] == 0x4e && b[3] == 0x47 && b[4] == 0x0d
        && b[5] == 0x0a && b[6] == 0x1a && b[7] == 0x0a {
        assert(b@.take(8) =~= png_magic());
        return Some(Format::Png);
    }
    proof {
        if n >= 8 && b@.take(8) == png_magic() {
            assert(b@.take(8)[0] == b@[0] && b@.take(8)[1] == b@[1] && b@.take(8)[2] == b@[2]);
            assert(b@.take(8)[3] == b@[3] && b@.take(8)[4] == b@[4] && b@.take(8)[5] == b@[5]);
            assert(b@.take(8)[6] == b@[6] && b@.take(8)[7] == b@[7]);
        }
    }
    if n >= 3 && b[0] == 0xff && b[1] == 0xd8 && b[2] == 0xff {
        return Some(Format::Jpeg);
    }
    if n >= 6 && b[0] == 0x47 && b[1] == 0x49 && b[2] == 0x46 && b[3] == 0x38
        && (b[4] == 0x37 || b[4] == 0x39) && b[5] == 0x61 {
        return Some(Format::Gif);
    }
    if n >= 2 && b[0] == 0x42 && b[1] == 0x4d {
        return Some(Format::Bmp);
    }
    if n >= 12 && b[0] == 0x52 && b[1] == 0x49 && b[2] == 0x46 && b[3] == 0x46
        && b[8] == 0x57 && b[9] == 0x45 && b[10] == 0x42 && b[11] == 0x50 {
        return Some(Format::Webp);
    }
    None
}

/// Big-endian 32-bit value at `o`.
pub open spec fn be32(b: Seq<u8>, o: int) -> u32 {
    (b[o] as int * 0x1000000 + b[o + 1] as int * 0x10000 + b[o + 2] as int * 0x100 + b[o + 3] as int) as u32
}

/// Little-endian 16-bit value at `o`.
pub open spec fn le16(b: Seq<u8>, o: int) -> u32 {
    (b[o] as int + b[o + 1] as int * 0x100) as u32
}

/// Little-endian 24-bit value at `o`.
pub open spec fn le24(b: Seq<u8>, o: int) -> u32 {
    (b[o] as int + b[o + 1] as int * 0x100 + b[o + 2] as int * 0x10000) as u32
}

/// Little-endian 32-bit value at `o`.
pub open spec fn le32(b: Seq<u8>, o: int) -> u32 {
    (b[o] as int + b[o + 1] as int * 0x100 + b[o + 2] as int * 0x10000 + b[o + 3] as int * 0x1000000) as u32
}

/// Magnitude of the two's-complement reading of a 32-bit value.
pub open spec fn abs_i32(u: u32) -> u32 {
    if u >= 0x8000_0000 { (0x1_0000_0000 - u) as u32 } else { u }
}

pub open spec fn png_dims(b: Seq<u8>) -> Option<(u32, u32)> {
    if b.len() < 24 || !(b[12] == 0x49 && b[13] == 0x48 && b[14] == 0x44 && b[15] == 0x52) {
        None
    } else {
        Some((be32(b, 16), be32(b, 20)))
    }
}

pub open spec fn gif_dims(b: Seq<u8>) -> Option<(u32, u32)> {
    if b.len() < 10 { None } else { Some((le16(b, 6), le16(b, 8))) }
}

pub open spec fn bmp_dims(b: Seq<u8>) -> Option<(u32, u32)> {
    if b.len() < 26 { None } else { Some((abs_i32(le32(b, 18)), abs_i32(le32(b, 22)))) }
}

pub open spec fn webp_dims(b: Seq<u8>) -> Option<(u32, u32)> {
    if b.len() < 30 {
        None
    } else if b[12] == 0x56 && b[13] == 0x50 && b[14] == 0x38 && b[15] == 0x20 {
        Some((le16(b, 26) % 0x4000, le16(b, 28) % 0x4000))
    } else if b[12] == 0x56 && b[13] == 0x50 && b[14] == 0x38 && b[15] == 0x4c {
        if b[20] != 0x2f {
            None
        } else {
            let bits = le32(b, 21);
            Some(((bits % 0x4000 + 1) as u32, ((bits / 0x4000) % 0x4000 + 1) as u32))
        }
    } else if b[12] == 0x56 && b[13] == 0x50 && b[14] == 0x38 && b[15] == 0x58 {
        Some(((le24(b, 24) + 1) as u32, (le24(b, 27) + 1) as u32))
    } else {
        None
    }
}

/// A start-of-frame marker (SOF0..SOF15 except DHT, JPG and DAC).
pub open spec fn is_sof(m: u8) -> bool {
    0xc0 <= m <= 0xcf && m != 0xc4 && m != 0xc8 && m != 0xcc
}

/// Index of the marker byte after the `0xFF` at `m - 1`, skipping fill bytes.
pub open spec fn skip_fill(b: Seq<u8>, m: int) -> int
    decreases b.len() - m,
{
    if 0 <= m && b[m] == 0xff && m + 1 < b.len() { skip_fill(b, m + 1) } else { m }
}

pub proof fn lemma_skip_fill(b: Seq<u8>, m: int)
    requires
        0 <= m < b.len(),
    ensures
        m <= skip_fill(b, m) < b.len(),
    decreases b.len() - m,
{
    if b[m] == 0xff && m + 1 < b.len() {
        lemma_skip_fill(b, m + 1);
    }
}

/// Walk the JPEG segments from `i` until a start-of-frame gives the size.
pub open spec fn jpeg_walk(b: Seq<u8>, i: int) -> Option<(u32, u32)>
    decreases b.len() - i,
{
    if i < 0 || !(i + 1 < b.len()) {
        None
    } else if b[i] != 0xff {
        jpeg_walk(b, i + 1)
    } else {
        let m = skip_fill(b, i + 1);
        proof {
            lemma_skip_fill(b, i + 1);
        }
        let seg = m + 1;
        if is_sof(b[m]) {
            if seg + 6 >= b.len() {
                None
            } else {
                Some((
                    (b[seg + 5] as int * 0x100 + b[seg + 6] as int) as u32,
                    (b[seg + 3] as int * 0x100 + b[seg + 4] as int) as u32,
                ))
            }
        } else if seg + 1 >= b.len() {
            None
        } else {
            let len = b[seg] as int * 0x100 + b[seg + 1] as int;
            if len < 2 || seg + len + 1 >= b.len() { None } else { jpeg_walk(b, seg + len) }
        }
    }
}

/// The pixel size stated in the file header, for the formats that state it
/// cheaply.
pub open spec fn dims_of(b: Seq<u8>) -> Option<(u32, u32)> {
    match format_of(b) {
        Some(Format::Png) => png_dims(b),
        Some(Format::Gif) => gif_dims(b),
        Some(Format::Jpeg) => jpeg_walk(b, 2),
        Some(Format::Bmp) => bmp_dims(b),
        Some(Format::Webp) => webp_dims(b),
        None => None,
    }
}

fn be32_at(b: &[u8], o: usize) -> (v: u32)
    requires
        o + 4 <= b@.len(),
    ensures
        v == be32(b@, o as int),
{
    (b[o] as u32) * 0x1000000 + (b[o + 1] as u32) * 0x10000 + (b[o + 2] as u32) * 0x100 + b[o + 3] as u32
}

fn le16_at(b: &[u8], o: usize) -> (v: u32)
    requires
        o + 2 <= b@.len(),
    ensures
        v == le16(b@, o as int),
{
    b[o] as u32 + (b[o + 1] as u32) * 0x100
}

fn le24_at(b: &[u8], o: usize) -> (v: u32)
    requires
        o + 3 <= b@.len(),
    ensures
        v == le24(b@, o as int),
{
    b[o] as u32 + (b[o + 1] as u32) * 0x100 + (b[o + 2] as u32) * 0x10000
}

fn le32_at(b: &[u8], o: usize) -> (v: u32)
    requires
        o + 4 <= b@.len(),
    ensures
        v == le32(b@, o as int),
{
    b[o] as u32 + (b[o + 1] as u32) * 0x100 + (b[o + 2] as u32) * 0x10000 + (b[o + 3] as u32) * 0x1000000
}

fn png_dimensions(b: &[u8]) -> (r: Option<(u32, u32)>)
    ensures
        r == png_dims(b@),
{
    if b.len() < 24 || !(b[12] == 0x49 && b[13] == 0x48 && b[14] == 0x44 && b[15] == 0x52) {
        return None;
    }
    Some((be32_at(b, 16), be32_at(b, 20)))
}

fn gif_dimensions(b: &[u8]) -> (r: Option<(u32, u32)>)
    ensures
        r == gif_dims(b@),
{
    if b.len() < 10 {
        return None;
    }
    Some((le16_at(b, 6), le16_at(b, 8)))
}

fn abs32(u: u32) -> (r: u32)
    ensures
        r == abs_i32(u),
{
    if u >= 0x8000_0000 { ((0x1_0000_0000u64 - u as u64) as u32) } else { u }
}

fn bmp_dimensions(b: &[u8]) -> (r: Option<(u32, u32)>)
    ensures
        r == bmp_dims(b@),
{
    if b.len() < 26 {
        return None;
    }
    Some((abs32(le32_at(b, 18)), abs32(le32_at(b, 22))))
}

fn webp_dimensions(b: &[u8]) -> (r: Option<(u32, u32)>)
    ensures
        r == webp_dims(b@),
{
    if b.len() < 30 {
        return None;
    }
    if b[12] == 0x56 && b[13] == 0x50 && b[14] == 0x38 && b[15] == 0x20 {
        Some((le16_at(b, 26) % 0x4000, le16_at(b, 28) % 0x4000))
    } else if b[12] == 0x56 && b[13] == 0x50 && b[14] == 0x38 && b[15] == 0x4c {
        if b[20] != 0x2f {
            return None;
        }
        let bits = le32_at(b, 21);
        Some((bits % 0x4000 + 1, (bits / 0x4000) % 0x4000 + 1))
    } else if b[12] == 0x56 && b[13] == 0x50 && b[14] == 0x38 && b[15] == 0x58 {
        Some((le24_at(b, 24) + 1, le24_at(b, 27) + 1))
    } else {
        None
    }
}

fn jpeg_dimensions(b: &[u8]) -> (r: Option<(u32, u32)>)
    ensures
        r == jpeg_walk(b@, 2),
{
    let n = b.len();
    let mut i: usize = 2;
    while i < n && n - i > 1
        invariant
            n == b@.len(),
            2 <= i,
            jpeg_walk(b@, i as int) == jpeg_walk(b@, 2),
        decreases n - i,
    {
        if b[i] != 0xff {
            i = i + 1;
            continue;
        }
        let mut m = i + 1;
        while b[m] == 0xff && m + 1 < n
            invariant
                i + 1 <= m < n == b@.len(),
                skip_fill(b@, i + 1) == skip_fill(b@, m as int),
            decreases n - m,
        {
            m = m + 1;
        }
        let marker = b[m];
        let seg = m + 1;
        if 0xc0 <= marker && marker <= 0xcf && marker != 0xc4 && marker != 0xc8 && marker != 0xcc {
            if n - seg <= 6 {
                return None;
            }
            let h = (b[seg + 3] as u32) * 0x100 + b[seg + 4] as u32;
            let w = (b[seg + 5] as u32) * 0x100 + b[seg + 6] as u32;
            return Some((w, h));
        }
        if n - seg <= 1 {
            return None;
        }
        let len = (b[seg] as usize) * 0x100 + b[seg + 1] as usize;
        if len < 2 {
            return None;
        }
        if len + 1 >= n - seg {
            // The next segment would start past the end.
            return None;
        }
        i = seg + len;
    }
    None
}

/// Sniff `(width, height)` in pixels from a file header without decoding the
/// pixel data. Returns `None` for formats/headers that can't be read cheaply.
pub fn sniff_dimensions(b: &[u8]) -> (r: Option<(u32, u32)>)
    ensures
        r == dims_of(b@),
{
    match detect_format(b) {
        Some(Format::Png) => png_dimensions(b),
        Some(Format::Gif) => gif_dimensions(b),
        Some(Format::Jpeg) => jpeg_dimensions(b),
        Some(Format::Bmp) => bmp_dimensions(b),
        Some(Format::Webp) => webp_dimensions(b),
        None => None,
    }
}

// --- iTerm2 size arguments ----------------------------------------------------

/// A parsed dimension request from an iTerm2 `width=`/`height=` argument.
#[derive(Clone, Copy, Debug, PartialEq, Eq, Structural)]
pub enum Dim {
    /// `auto` or absent: size from the image's own pixels.
    Auto,
    /// `N`: a count of terminal cells.
    Cells(u32),
    /// `Npx`: pixels.
    Pixels(u32),
    /// `N%`: a percentage of the terminal's width/height.
    Percent(u32),
}

pub open spec fn auto_word() -> Seq<u8> {
    seq![0x61u8, 0x75, 0x74, 0x6f]
}

pub open spec fn parse_u32_spec(s: Seq<u8>) -> Option<u32> {
    match parse_bounded(s, 10, 0xffff_ffff) {
        Some(v) => Some(v as u32),
        None => None,
    }
}

/// What one iTerm2 dimension token means; unknown/garbage is `Auto`.
pub open spec fn dim_of(s: Seq<u8>) -> Dim {
    let t = trim(s);
    let n = t.len() as int;
    if n == 0 || t.map_values(|c: u8| ascii_lower(c)) == auto_word().map_values(|c: u8| ascii_lower(c)) {
        Dim::Auto
    } else if t[n - 1] == 0x25 {
        match parse_u32_spec(trim(t.take(n - 1))) {
            Some(v) => Dim::Percent(v),
            None => Dim::Auto,
        }
    } else if n >= 2 && t[n - 2] == 0x70 && t[n - 1] == 0x78 {
        match parse_u32_spec(trim(t.take(n - 2))) {
            Some(v) => Dim::Pixels(v),
            None => Dim::Auto,
        }
    } else {
        match parse_u32_spec(t) {
            Some(v) => Dim::Cells(v),
            None => Dim::Auto,
        }
    }
}

fn parse_u32_at(b: &[u8], lo: usize, hi: usize) -> (r: Option<u32>)
    requires
        lo <= hi <= b@.len(),
    ensures
        r == parse_u32_spec(b@.subrange(lo as int, hi as int)),
{
    match parse_uint(b, lo, hi, 10, 0xffff_ffff) {
        Some(v) => Some(v as u32),
        None => None,
    }
}

/// Parse the dimension token `b[lo..hi]`.
pub fn parse_dim(b: &[u8], lo: usize, hi: usize) -> (d: Dim)
    requires
        lo <= hi <= b@.len(),
    ensures
        d == dim_of(b@.subrange(lo as int, hi as int)),
{
    let (a, z) = trim_range(b, lo, hi);
    let ghost t = b@.subrange(a as int, z as int);
    let n = z - a;
    if n == 0 || eq_ignore_case(b, a, z, &[0x61u8, 0x75, 0x74, 0x6f]) {
        return Dim::Auto;
    }
    assert(t[n - 1] == b@[z - 1]);
    if b[z - 1] == 0x25 {
        let (pa, pz) = trim_range(b, a, z - 1);
        assert(t.take(n - 1) =~= b@.subrange(a as int, z - 1));
        return match parse_u32_at(b, pa, pz) {
            Some(v) => Dim::Percent(v),
            None => Dim::Auto,
        };
    }
    if n >= 2 {
        assert(t[n - 2] == b@[z - 2]);
    }
    if n >= 2 && b[z - 2] == 0x70 && b[z - 1] == 0x78 {
        let (pa, pz) = trim_range(b, a, z - 2);
        assert(t.take(n - 2) =~= b@.subrange(a as int, z - 2));
        return match parse_u32_at(b, pa, pz) {
            Some(v) => Dim::Pixels(v),
            None => Dim::Auto,
        };
    }
    match parse_u32_at(b, a, z) {
        Some(v) => Dim::Cells(v),
        None => Dim::Auto,
    }
}

impl Dim {
    /// Parse one iTerm2 dimension token. Unknown/garbage falls back to `Auto`.
    pub fn parse(s: &str) -> (d: Dim)
        ensures
            d == dim_of(s.spec_bytes()),
    {
        let b = s.as_bytes();
        assert(b@.subrange(0, b@.len() as int) =~= b@);
        parse_dim(b, 0, b.len())
    }
}

} // verus!
