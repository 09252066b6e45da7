//! Byte-level text helpers shared by the escape-sequence handlers: UTF-8
//! validation, Unicode whitespace trimming, ASCII case folding and decimal /
//! hexadecimal number parsing with the semantics of Rust's integer `FromStr`.
//!
//! Escape-sequence payloads arrive as raw bytes; working on byte ranges avoids
//! copying while keeping every operation stated over `Seq<u8>`.

use vstd::prelude::*;
use vstd::utf8::*;

verus! {

// --- UTF-8 ------------------------------------------------------------------

/// Whether the first scalar starting at byte `i` is well-formed, and its length.
fn first_scalar_len(b: &[u8], i: usize) -> (n: usize)
    requires
        i < b@.len(),
    ensures
        n == 0 <==> !valid_first_scalar(b@.subrange(i as int, b@.len() as int)),
        n != 0 ==> n == length_of_first_scalar(b@.subrange(i as int, b@.len() as int)),
{
    let ghost s = b@.subrange(i as int, b@.len() as int);
    let len = b.len();
    let b0 = b[i];
    assert(s[0] == b0);
    if b0 <= 0x7f {
        return 1;
    }
    if 0xc0 <= b0 && b0 <= 0xdf {
        if len - i > 1 && 0x80 <= b[i + 1] && b[i + 1] <= 0xbf {
            let b1 = b[i + 1];
            assert(s[1] == b1);
            let cp: u32 = (((b0 & 0x1f) as u32) << 6u32) | ((b1 & 0x3f) as u32);
            assert(cp == codepoint_width_2(b0, b1));
            assert(cp == ((((b0 & 0x1f) as u32) << 6u32) | ((b1 & 0x3f) as u32)));
            if cp >= 0x80 {
                assert(cp <= 0x7ff) by (bit_vector)
                    requires
                        cp == ((((b0 & 0x1f) as u32) << 6u32) | ((b1 & 0x3f) as u32)),
                ;
                return 2;
            }
            return 0;
        }
        return 0;
    }
    if 0xe0 <= b0 && b0 <= 0xef {
        if len - i > 2 && 0x80 <= b[i + 1] && b[i + 1] <= 0xbf && 0x80 <= b[i + 2] && b[i + 2] <= 0xbf {
            let b1 = b[i + 1];
            let b2 = b[i + 2];
            assert(s[1] == b1 && s[2] == b2);
            let cp: u32 = (((b0 & 0x0f) as u32) << 12u32) | (((b1 & 0x3f) as u32) << 6u32) | ((b2 & 0x3f) as u32);
            assert(cp == codepoint_width_3(b0, b1, b2));
            if cp >= 0x800 && !(0xd800 <= cp && cp <= 0xdfff) {
                return 3;
            }
            return 0;
        }
        return 0;
    }
    if 0xf0 <= b0 && b0 <= 0xf7 {
        if len - i > 3 && 0x80 <= b[i + 1] && b[i + 1] <= 0xbf && 0x80 <= b[i + 2] && b[i + 2] <= 0xbf
            && 0x80 <= b[i + 3] && b[i + 3] <= 0xbf {
            let b1 = b[i + 1];
            let b2 = b[i + 2];
            let b3 = b[i + 3];
            assert(s[1] == b1 && s[2] == b2 && s[3] == b3);
            let cp: u32 = (((b0 & 0x07) as u32) << 18u32) | (((b1 & 0x3f) as u32) << 12u32)
                | (((b2 & 0x3f) as u32) << 6u32) | ((b3 & 0x3f) as u32);
            assert(cp == codepoint_width_4(b0, b1, b2, b3));
            if cp >= 0x10000 && cp <= 0x10ffff && !(0xd800 <= cp && cp <= 0xdfff) {
                return 4;
            }
            return 0;
        }
        return 0;
    }
    0
}

/// Whether `b[lo..hi]` is well-formed UTF-8 (what `std::str::from_utf8` accepts).
pub fn is_utf8(b: &[u8], lo: usize, hi: usize) -> (r: bool)
    requires
        lo <= hi <= b@.len(),
    ensures
        r == valid_utf8(b@.subrange(lo as int, hi as int)),
{
    let mut i = lo;
    while i < hi
        invariant
            lo <= i <= hi <= b@.len(),
            valid_utf8(b@.subrange(lo as int, hi as int)) == valid_utf8(b@.subrange(i as int, hi as int)),
        decreases hi - i,
    {
        let ghost s = b@.subrange(i as int, hi as int);
        let ghost t = b@.subrange(i as int, b@.len() as int);
        let n = first_scalar_len(b, i);
        proof {
            // `s` is a prefix of `t`; validity of the first scalar agrees when it fits.
            assert(s.len() > 0);
            assert(forall|k: int| 0 <= k < s.len() ==> s[k] == t[k]);
        }
        if n == 0 || n > hi - i {
            proof {
                assert(!valid_first_scalar(s)) by {
                    if valid_first_scalar(s) {
                        assert(valid_first_scalar(t));
                        assert(length_of_first_scalar(t) == length_of_first_scalar(s));
                    }
                }
            }
            return false;
        }
        proof {
            assert(valid_first_scalar(s));
            assert(length_of_first_scalar(s) == n);
            assert(pop_first_scalar(s) =~= b@.subrange(i + n, hi as int));
        }
        i = i + n;
    }
    proof {
        assert(b@.subrange(i as int, hi as int).len() == 0);
    }
    true
}

// --- whitespace -------------------------------------------------------------

/// Byte length of a Unicode `White_Space` character encoded at the start of
/// `s`, or 0 when `s` does not start with one.
pub open spec fn ws_prefix_len(s: Seq<u8>) -> nat {
    if s.len() >= 1 && (0x09 <= s[0] <= 0x0d || s[0] == 0x20) {
        1
    } else if s.len() >= 2 && s[0] == 0xc2 && (s[1] == 0x85 || s[1] == 0xa0) {
        2
    } else if s.len() >= 3 && (
        (s[0] == 0xe1 && s[1] == 0x9a && s[2] == 0x80)
        || (s[0] == 0xe2 && s[1] == 0x80 && (0x80 <= s[2] <= 0x8a || s[2] == 0xa8 || s[2] == 0xa9 || s[2] == 0xaf))
        || (s[0] == 0xe2 && s[1] == 0x81 && s[2] == 0x9f)
        || (s[0] == 0xe3 && s[1] == 0x80 && s[2] == 0x80)
    ) {
        3
    } else {
        0
    }
}

/// Byte length of a Unicode `White_Space` character encoded at the end of `s`,
/// or 0.
pub open spec fn ws_suffix_len(s: Seq<u8>) -> nat {
    let n = s.len() as int;
    if n >= 1 && (0x09 <= s[n - 1] <= 0x0d || s[n - 1] == 0x20) {
        1
    } else if n >= 2 && ws_prefix_len(s.subrange(n - 2, n)) == 2 {
        2
    } else if n >= 3 && ws_prefix_len(s.subrange(n - 3, n)) == 3 {
        3
    } else {
        0
    }
}

/// `s` without its leading whitespace characters.
pub open spec fn trim_start(s: Seq<u8>) -> Seq<u8>
    decreases s.len(),
{
    if ws_prefix_len(s) > 0 && ws_prefix_len(s) <= s.len() {
        trim_start(s.skip(ws_prefix_len(s) as int))
    } else {
        s
    }
}

/// `s` without its trailing whitespace characters.
pub open spec fn trim_end(s: Seq<u8>) -> Seq<u8>
    decreases s.len(),
{
    if ws_suffix_len(s) > 0 && ws_suffix_len(s) <= s.len() {
        trim_end(s.take(s.len() - ws_suffix_len(s)))
    } else {
        s
    }
}

/// `s` without leading and trailing whitespace (`str::trim`).
pub open spec fn trim(s: Seq<u8>) -> Seq<u8> {
    trim_end(trim_start(s))
}

fn ws_prefix(b: &[u8], lo: usize, hi: usize) -> (n: usize)
    requires
        lo <= hi <= b@.len(),
    ensures
        n == ws_prefix_len(b@.subrange(lo as int, hi as int)),
{
    let ghost s = b@.subrange(lo as int, hi as int);
    let len = hi - lo;
    if len >= 1 {
        assert(s[0] == b[lo as int]);
    }
    if len >= 2 {
        assert(s[1] == b[lo + 1]);
    }
    if len >= 3 {
        assert(s[2] == b[lo + 2]);
    }
    if len >= 1 && ((0x09 <= b[lo] && b[lo] <= 0x0d) || b[lo] == 0x20) {
        1
    } else if len >= 2 && b[lo] == 0xc2 && (b[lo + 1] == 0x85 || b[lo + 1] == 0xa0) {
        2
    } else if len >= 3 && (
        (b[lo] == 0xe1 && b[lo + 1] == 0x9a && b[lo + 2] == 0x80)
        || (b[lo] == 0xe2 && b[lo + 1] == 0x80 && ((0x80 <= b[lo + 2] && b[lo + 2] <= 0x8a)
            || b[lo + 2] == 0xa8 || b[lo + 2] == 0xa9 || b[lo + 2] == 0xaf))
        || (b[lo] == 0xe2 && b[lo + 1] == 0x81 && b[lo + 2] == 0x9f)
        || (b[lo] == 0xe3 && b[lo + 1] == 0x80 && b[lo + 2] == 0x80)
    ) {
        3
    } else {
        0
    }
}

fn ws_suffix(b: &[u8], lo: usize, hi: usize) -> (n: usize)
    requires
        lo <= hi <= b@.len(),
    ensures
        n == ws_suffix_len(b@.subrange(lo as int, hi as int)),
{
    let ghost s = b@.subrange(lo as int, hi as int);
    let len = hi - lo;
    if len >= 1 {
        assert(s[len - 1] == b[hi - 1]);
    }
    if len >= 1 && ((0x09 <= b[hi - 1] && b[hi - 1] <= 0x0d) || b[hi - 1] == 0x20) {
        return 1;
    }
    if len >= 2 {
        assert(s.subrange(len - 2, len as int) =~= b@.subrange(hi - 2, hi as int));
        if ws_prefix(b, hi - 2, hi) == 2 {
            return 2;
        }
    }
    if len >= 3 {
        assert(s.subrange(len - 3, len as int) =~= b@.subrange(hi - 3, hi as int));
        if ws_prefix(b, hi - 3, hi) == 3 {
            return 3;
        }
    }
    0
}

/// The bounds of `b[lo..hi]` with surrounding whitespace removed.
pub fn trim_range(b: &[u8], lo: usize, hi: usize) -> (r: (usize, usize))
    requires
        lo <= hi <= b@.len(),
    ensures
        lo <= r.0 <= r.1 <= hi,
        b@.subrange(r.0 as int, r.1 as int) == trim(b@.subrange(lo as int, hi as int)),
{
    let mut a = lo;
    while a < hi
        invariant
            lo <= a <= hi <= b@.len(),
            trim_start(b@.subrange(lo as int, hi as int)) == trim_start(b@.subrange(a as int, hi as int)),
        ensures
            lo <= a <= hi,
            trim_start(b@.subrange(lo as int, hi as int)) == b@.subrange(a as int, hi as int),
        decreases hi - a,
    {
        let n = ws_prefix(b, a, hi);
        if n == 0 {
            assert(trim_start(b@.subrange(a as int, hi as int)) == b@.subrange(a as int, hi as int));
            break;
        }
        assert(b@.subrange(a as int, hi as int).skip(n as int) =~= b@.subrange(a + n, hi as int));
        a = a + n;
    }
    let mut z = hi;
    while z > a
        invariant
            lo <= a <= z <= hi <= b@.len(),
            trim_end(b@.subrange(a as int, hi as int)) == trim_end(b@.subrange(a as int, z as int)),
        ensures
            a <= z <= hi,
            trim_end(b@.subrange(a as int, hi as int)) == b@.subrange(a as int, z as int),
        decreases z - a,
    {
        let n = ws_suffix(b, a, z);
        if n == 0 {
            assert(trim_end(b@.subrange(a as int, z as int)) == b@.subrange(a as int, z as int));
            break;
        }
        assert(b@.subrange(a as int, z as int).take(z - a - n) =~= b@.subrange(a as int, z - n));
        z = z - n;
    }
    (a, z)
}

// --- ASCII case -------------------------------------------------------------

pub open spec fn ascii_lower(c: u8) -> u8 {
    if 0x41 <= c <= 0x5a { (c + 0x20) as u8 } else { c }
}

/// Whether `b[lo..hi]`, ASCII-lowercased, equals `word`.
pub fn eq_ignore_case(b: &[u8], lo: usize, hi: usize, word: &[u8]) -> (r: bool)
    requires
        lo <= hi <= b@.len(),
    ensures
        r == (b@.subrange(lo as int, hi as int).map_values(|c: u8| ascii_lower(c))
            == word@.map_values(|c: u8| ascii_lower(c))),
{
    let ghost s = b@.subrange(lo as int, hi as int).map_values(|c: u8| ascii_lower(c));
    let ghost w = word@.map_values(|c: u8| ascii_lower(c));
    if hi - lo != word.len() {
        assert(s.len() != w.len());
        return false;
    }
    let mut k: usize = 0;
    while k < word.len()
        invariant
            lo <= hi <= b@.len(),
            hi - lo == word@.len(),
            s == b@.subrange(lo as int, hi as int).map_values(|c: u8| ascii_lower(c)),
            w == word@.map_values(|c: u8| ascii_lower(c)),
            k <= word@.len(),
            forall|j: int| 0 <= j < k ==> s[j] == w[j],
        decreases word.len() - k,
    {
        let x = b[lo + k];
        let y = word[k];
        let lx = if 0x41 <= x && x <= 0x5a { x + 0x20 } else { x };
        let ly = if 0x41 <= y && y <= 0x5a { y + 0x20 } else { y };
        assert(s[k as int] == ascii_lower(x));
        assert(w[k as int] == ascii_lower(y));
        if lx != ly {
            return false;
        }
        k = k + 1;
    }
    assert(s =~= w);
    true
}

/// Whether `b[lo..hi]` is exactly `word`.
pub fn eq_bytes(b: &[u8], lo: usize, hi: usize, word: &[u8]) -> (r: bool)
    requires
        lo <= hi <= b@.len(),
    ensures
        r == (b@.subrange(lo as int, hi as int) == word@),
{
    if hi - lo != word.len() {
        return false;
    }
    let mut k: usize = 0;
    while k < word.len()
        invariant
            lo <= hi <= b@.len(),
            hi - lo == word@.len(),
            k <= word@.len(),
            forall|j: int| 0 <= j < k ==> b@[lo + j] == word@[j],
        decreases word.len() - k,
    {
        if b[lo + k] != word[k] {
            assert(b@.subrange(lo as int, hi as int)[k as int] != word@[k as int]);
            return false;
        }
        k = k + 1;
    }
    assert(b@.subrange(lo as int, hi as int) =~= word@);
    true
}

// --- numbers ----------------------------------------------------------------

/// The value of digit byte `c` in base `radix` (10 or 16), if it is one.
pub open spec fn digit_value(c: u8, radix: nat) -> Option<nat> {
    if 0x30 <= c <= 0x39 && (c - 0x30) < radix {
        Some((c - 0x30) as nat)
    } else if radix == 16 && 0x61 <= c <= 0x66 {
        Some((c - 0x61 + 10) as nat)
    } else if radix == 16 && 0x41 <= c <= 0x46 {
        Some((c - 0x41 + 10) as nat)
    } else {
        None
    }
}

/// Whether every byte of `s` is a digit in `radix`.
pub open spec fn all_digits(s: Seq<u8>, radix: nat) -> bool {
    forall|i: int| 0 <= i < s.len() ==> (#[trigger] digit_value(s[i], radix)) is Some
}

/// The number written by the digits `s` in `radix`.
pub open spec fn digits_value(s: Seq<u8>, radix: nat) -> nat
    decreases s.len(),
{
    if s.len() == 0 {
        0
    } else {
        digits_value(s.drop_last(), radix) * radix + digit_value(s.last(), radix).unwrap_or(0)
    }
}

/// Rust's unsigned `from_str_radix` (and `FromStr` for radix 10) before the
/// range check: an optional `+`, then at least one digit.
pub open spec fn parse_unsigned(s: Seq<u8>, radix: nat) -> Option<nat> {
    let d = if s.len() > 0 && s[0] == 0x2b { s.skip(1) } else { s };
    if d.len() > 0 && all_digits(d, radix) {
        Some(digits_value(d, radix))
    } else {
        None
    }
}

/// The number `s` parses to as an unsigned integer of at most `max`.
pub open spec fn parse_bounded(s: Seq<u8>, radix: nat, max: nat) -> Option<nat> {
    match parse_unsigned(s, radix) {
        Some(v) => if v <= max { Some(v) } else { None },
        None => None,
    }
}

proof fn lemma_digits_value_mono(s: Seq<u8>, k: int, radix: nat)
    requires
        0 <= k <= s.len(),
        radix >= 1,
    ensures
        digits_value(s.take(k), radix) <= digits_value(s, radix),
    decreases s.len() - k,
{
    if k < s.len() {
        lemma_digits_value_mono(s, k + 1, radix);
        assert(s.take(k + 1).drop_last() =~= s.take(k));
        let v = digits_value(s.take(k), radix);
        assert(v * radix >= v) by (nonlinear_arith)
            requires
                radix >= 1,
        ;
    } else {
        assert(s.take(k) =~= s);
    }
}

fn digit_of(c: u8, radix: u8) -> (r: Option<u8>)
    requires
        radix == 10 || radix == 16,
    ensures
        r matches Some(v) ==> digit_value(c, radix as nat) == Some(v as nat),
        r is None ==> digit_value(c, radix as nat) is None,
{
    if 0x30 <= c && c <= 0x39 && c - 0x30 < radix {
        Some(c - 0x30)
    } else if radix == 16 && 0x61 <= c && c <= 0x66 {
        Some(c - 0x61 + 10)
    } else if radix == 16 && 0x41 <= c && c <= 0x46 {
        Some(c - 0x41 + 10)
    } else {
        None
    }
}

/// Parse `b[lo..hi]` as an unsigned number in `radix` no larger than `max`.
pub fn parse_uint(b: &[u8], lo: usize, hi: usize, radix: u8, max: u64) -> (r: Option<u64>)
    requires
        lo <= hi <= b@.len(),
        radix == 10 || radix == 16,
    ensures
        r matches Some(v) ==> parse_bounded(b@.subrange(lo as int, hi as int), radix as nat, max as nat) == Some(v as nat),
        r is None ==> parse_bounded(b@.subrange(lo as int, hi as int), radix as nat, max as nat) is None,
{
    let ghost s = b@.subrange(lo as int, hi as int);
    let mut a = lo;
    if a < hi && b[a] == 0x2b {
        a = a + 1;
    }
    let ghost d = b@.subrange(a as int, hi as int);
    assert(d == (if s.len() > 0 && s[0] == 0x2b { s.skip(1) } else { s }));
    if a == hi {
        return None;
    }
    let mut acc: u128 = 0;
    let mut i = a;
    while i < hi
        invariant
            lo <= a <= i <= hi <= b@.len(),
            a < hi,
            radix == 10 || radix == 16,
            d == b@.subrange(a as int, hi as int),
            s == b@.subrange(lo as int, hi as int),
            d == (if s.len() > 0 && s[0] == 0x2b { s.skip(1) } else { s }),
            all_digits(d.take(i - a), radix as nat),
            acc == digits_value(d.take(i - a), radix as nat),
            acc <= max,
        decreases hi - i,
    {
        let c = b[i];
        assert(d[i - a] == c);
        let dv: u128 = match digit_of(c, radix) {
            Some(v) => v as u128,
            None => {
                assert(!all_digits(d, radix as nat));
                return None;
            },
        };
        let next = if radix == 10 { acc * 10 + dv } else { acc * 16 + dv };
        proof {
            assert(d.take(i - a + 1).drop_last() =~= d.take(i - a));
            assert(d.take(i - a + 1).last() == c);
            assert forall|j: int| 0 <= j < d.take(i - a + 1).len() implies (#[trigger] digit_value(d.take(i - a + 1)[j], radix as nat)) is Some by {
                if j < i - a {
                    assert(d.take(i - a + 1)[j] == d.take(i - a)[j]);
                }
            }
        }
        assert(digits_value(d.take(i - a + 1), radix as nat) == next);
        if next > max as u128 {
            proof {
                lemma_digits_value_mono(d, i - a + 1, radix as nat);
            }
            return None;
        }
        acc = next;
        i = i + 1;
    }
    assert(d.take(hi - a) =~= d);
    Some(acc as u64)
}

// --- splitting --------------------------------------------------------------

/// `s` split on every `sep` byte (`k` separators give `k + 1` parts).
pub open spec fn split_on(s: Seq<u8>, sep: u8) -> Seq<Seq<u8>>
    decreases s.len(),
{
    if s.len() == 0 {
        seq![Seq::<u8>::empty()]
    } else {
        let r = split_on(s.drop_last(), sep);
        if s.last() == sep {
            r.push(Seq::<u8>::empty())
        } else {
            r.update(r.len() - 1, r[r.len() - 1].push(s.last()))
        }
    }
}

/// The byte ranges of `b[lo..hi]` split on `sep`, as `split_on` describes.
pub fn split_indices(b: &[u8], lo: usize, hi: usize, sep: u8) -> (parts: Vec<(usize, usize)>)
    requires
        lo <= hi <= b@.len(),
    ensures
        parts@.len() == split_on(b@.subrange(lo as int, hi as int), sep).len(),
        forall|k: int| 0 <= k < parts@.len() ==> {
            &&& lo <= (#[trigger] parts@[k]).0 <= parts@[k].1 <= hi
            &&& b@.subrange(parts@[k].0 as int, parts@[k].1 as int) == split_on(b@.subrange(lo as int, hi as int), sep)[k]
        },
{
    let mut parts: Vec<(usize, usize)> = Vec::new();
    let mut start = lo;
    let mut i = lo;
    assert(b@.subrange(lo as int, lo as int) =~= Seq::<u8>::empty());
    while i < hi
        invariant
            lo <= start <= i <= hi <= b@.len(),
            split_on(b@.subrange(lo as int, i as int), sep).len() == parts@.len() + 1,
            forall|k: int| 0 <= k < parts@.len() ==> {
                &&& lo <= (#[trigger] parts@[k]).0 <= parts@[k].1 <= hi
                &&& b@.subrange(parts@[k].0 as int, parts@[k].1 as int) == split_on(b@.subrange(lo as int, i as int), sep)[k]
            },
            split_on(b@.subrange(lo as int, i as int), sep)[parts@.len() as int] == b@.subrange(start as int, i as int),
        decreases hi - i,
    {
        let ghost prev = split_on(b@.subrange(lo as int, i as int), sep);
        let ghost cur = b@.subrange(lo as int, i + 1);
        assert(cur.drop_last() =~= b@.subrange(lo as int, i as int));
        assert(cur.last() == b@[i as int]);
        if b[i] == sep {
            parts.push((start, i));
            start = i + 1;
            assert(b@.subrange(start as int, i + 1) =~= Seq::<u8>::empty());
        } else {
            assert(b@.subrange(start as int, i + 1) =~= b@.subrange(start as int, i as int).push(b@[i as int]));
        }
        i = i + 1;
    }
    parts.push((start, hi));
    parts
}

} // verus!
