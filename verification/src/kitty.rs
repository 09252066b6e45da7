//! Kitty graphics protocol (APC `_G...` sequences).
//!
//! Supported: direct transmission (`t=d`, the default) of RGB (`f=24`),
//! RGBA (`f=32`) and PNG (`f=100`) images, chunked over multiple APC commands
//! (`m=1`), display at the cursor via `a=T` (transmit + display) or `a=p`
//! (display a previously transmitted image), delete (`a=d`) and query (`a=q`).
//! Base64 is the only accepted payload encoding.
//!
//! Deliberately unsupported (and refused so the stream stays in sync): file /
//! temp-file / shared-memory transmission (`t=f|t|s`), which would let a
//! terminal escape read arbitrary host files; zlib payload compression
//! (`o=z`), since the core carries no inflate; animation frames, Unicode
//! placeholders and relative / z-index placement.
//!
//! This module is pure parsing; chunk accumulation, storage and placement live
//! in the terminal, which has the grid geometry needed to lay an image out in
//! cells.

use vstd::prelude::*;
use vstd::utf8::valid_utf8;
use crate::text::{split_on, split_indices, is_utf8, parse_uint, parse_bounded};

verus! {

/// A parsed Kitty control block (the `key=value,...` list before the `;`).
///
/// Fields carry the protocol defaults for the keys this core acts on; keys it
/// doesn't understand are ignored.
#[derive(Clone, Copy, Debug, PartialEq, Eq, Structural)]
pub struct Cmd {
    /// `a`: action: `t` transmit, `T` transmit + display, `p` put/display a
    /// stored image, `d` delete, `q` query. Default `t`.
    pub action: u8,
    /// `f`: pixel format: `24` RGB, `32` RGBA, `100` PNG. Default `32`.
    pub format: u32,
    /// `i`: client image id (0 = none), used to reference a stored image later.
    pub id: u32,
    /// `s` / `v`: source width / height in pixels (raw RGB/RGBA formats).
    pub width: u32,
    pub height: u32,
    /// `c` / `r`: requested display size in cells (0 = derive from pixels).
    pub cols: u32,
    pub rows: u32,
    /// `m`: more chunks follow (`m=1`).
    pub more: bool,
    /// `t`: transmission medium: `d` direct base64 (the only one honored).
    pub medium: u8,
    /// `o=z`: payload is zlib-compressed (refused; no inflate in-core).
    pub compressed: bool,
    /// `d`: delete selector for `a=d`: `a`/`A` all, `i`/`I` by id.
    pub delete: u8,
    /// `q`: quietness: 0 verbose, 1 suppress OK, 2 suppress all replies.
    pub quiet: u32,
}

pub open spec fn default_cmd() -> Cmd {
    Cmd {
        action: 0x74,
        format: 32,
        id: 0,
        width: 0,
        height: 0,
        cols: 0,
        rows: 0,
        more: false,
        medium: 0x64,
        compressed: false,
        delete: 0x61,
        quiet: 0,
    }
}

impl Default for Cmd {
    fn default() -> (c: Cmd)
        ensures
            c == default_cmd(),
    {
        Cmd {
            action: 0x74,
            format: 32,
            id: 0,
            width: 0,
            height: 0,
            cols: 0,
            rows: 0,
            more: false,
            medium: 0x64,
            compressed: false,
            delete: 0x61,
            quiet: 0,
        }
    }
}

/// Index of the first `c` in `s`, if any.
pub open spec fn first_index(s: Seq<u8>, c: u8) -> Option<int> {
    if exists|i: int| 0 <= i < s.len() && s[i] == c {
        Some(choose|i: int| 0 <= i < s.len() && s[i] == c && forall|j: int| 0 <= j < i ==> s[j] != c)
    } else {
        None
    }
}

/// A `u32` field value: the decimal number, or `fallback` when unparsable.
pub open spec fn num_or(v: Seq<u8>, fallback: u32) -> u32 {
    match parse_bounded(v, 10, 0xffff_ffff) {
        Some(n) => n as u32,
        None => fallback,
    }
}

/// A byte field value: the first byte, or `fallback` when empty.
pub open spec fn byte_or(v: Seq<u8>, fallback: u8) -> u8 {
    if v.len() > 0 { v[0] } else { fallback }
}

/// The control block after one `key=value` pair.
pub open spec fn apply_pair(c: Cmd, k: Seq<u8>, v: Seq<u8>) -> Cmd {
    if k.len() != 1 { c }
    else if k[0] == 0x61 { Cmd { action: byte_or(v, 0x74), ..c } }
    else if k[0] == 0x66 { Cmd { format: num_or(v, 32), ..c } }
    else if k[0] == 0x69 { Cmd { id: num_or(v, 0), ..c } }
    else if k[0] == 0x73 { Cmd { width: num_or(v, 0), ..c } }
    else if k[0] == 0x76 { Cmd { height: num_or(v, 0), ..c } }
    else if k[0] == 0x63 { Cmd { cols: num_or(v, 0), ..c } }
    else if k[0] == 0x72 { Cmd { rows: num_or(v, 0), ..c } }
    else if k[0] == 0x6d { Cmd { more: v == seq![0x31u8], ..c } }
    else if k[0] == 0x74 { Cmd { medium: byte_or(v, 0x64), ..c } }
    else if k[0] == 0x6f { Cmd { compressed: v == seq![0x7au8], ..c } }
    else if k[0] == 0x64 { Cmd { delete: byte_or(v, 0x61), ..c } }
    else if k[0] == 0x71 { Cmd { quiet: num_or(v, 0), ..c } }
    else { c }
}

/// The control block after one `,`-separated item: empty, non-UTF-8 and
/// `=`-less items are skipped.
pub open spec fn apply_item(c: Cmd, kv: Seq<u8>) -> Cmd {
    if kv.len() == 0 || !valid_utf8(kv) {
        c
    } else {
        match first_index(kv, 0x3d) {
            Some(e) => apply_pair(c, kv.take(e), kv.skip(e + 1)),
            None => c,
        }
    }
}

/// The control block after all items, in order.
pub open spec fn apply_items(c: Cmd, items: Seq<Seq<u8>>) -> Cmd
    decreases items.len(),
{
    if items.len() == 0 {
        c
    } else {
        apply_item(apply_items(c, items.drop_last()), items.last())
    }
}

/// What a Kitty APC payload parses to: `None` unless it starts with `G`;
/// otherwise the control block (up to the first `;`) and the data after it.
pub open spec fn parse_spec(p: Seq<u8>) -> Option<(Cmd, Seq<u8>)> {
    if p.len() == 0 || p[0] != 0x47 {
        None
    } else {
        let rest = p.skip(1);
        let (ctrl, data) = match first_index(rest, 0x3b) {
            Some(i) => (rest.take(i), rest.skip(i + 1)),
            None => (rest, Seq::<u8>::empty()),
        };
        Some((apply_items(default_cmd(), split_on(ctrl, 0x2c)), data))
    }
}

/// The first `c` in `b[lo..hi]`, as an absolute index.
fn find_byte(b: &[u8], lo: usize, hi: usize, c: u8) -> (r: Option<usize>)
    requires
        lo <= hi <= b@.len(),
    ensures
        r matches Some(i) ==> lo <= i < hi && first_index(b@.subrange(lo as int, hi as int), c) == Some(i - lo),
        r is None ==> first_index(b@.subrange(lo as int, hi as int), c) is None,
{
    let ghost s = b@.subrange(lo as int, hi as int);
    let mut i = lo;
    while i < hi
        invariant
            lo <= i <= hi <= b@.len(),
            s == b@.subrange(lo as int, hi as int),
            forall|j: int| 0 <= j < i - lo ==> s[j] != c,
        decreases hi - i,
    {
        if b[i] == c {
            proof {
                let k = (i - lo) as int;
                assert(s[k] == c);
                let w = choose|j: int| 0 <= j < s.len() && s[j] == c && forall|m: int| 0 <= m < j ==> s[m] != c;
                assert(0 <= k < s.len() && s[k] == c && forall|m: int| 0 <= m < k ==> s[m] != c);
                if w < k {
                    assert(s[w] != c);
                } else if w > k {
                    assert(s[k] != c);
                }
            }
            return Some(i);
        }
        i = i + 1;
    }
    None
}

fn num_field(b: &[u8], lo: usize, hi: usize, fallback: u32) -> (r: u32)
    requires
        lo <= hi <= b@.len(),
    ensures
        r == num_or(b@.subrange(lo as int, hi as int), fallback),
{
    match parse_uint(b, lo, hi, 10, 0xffff_ffff) {
        Some(n) => n as u32,
        None => fallback,
    }
}

fn byte_field(b: &[u8], lo: usize, hi: usize, fallback: u8) -> (r: u8)
    requires
        lo <= hi <= b@.len(),
    ensures
        r == byte_or(b@.subrange(lo as int, hi as int), fallback),
{
    if lo < hi {
        assert(b@.subrange(lo as int, hi as int)[0] == b@[lo as int]);
        b[lo]
    } else {
        fallback
    }
}

/// Apply the pair `key = b[klo..khi]`, `value = b[vlo..vhi]` to `c`.
fn set_pair(c: &mut Cmd, b: &[u8], klo: usize, khi: usize, vlo: usize, vhi: usize)
    requires
        klo <= khi <= b@.len(),
        vlo <= vhi <= b@.len(),
    ensures
        *final(c) == apply_pair(*old(c), b@.subrange(klo as int, khi as int), b@.subrange(vlo as int, vhi as int)),
{
    let ghost k = b@.subrange(klo as int, khi as int);
    if khi - klo != 1 {
        assert(k.len() != 1);
        return;
    }
    let key = b[klo];
    assert(k[0] == key);
    if key == 0x61 {
        c.action = byte_field(b, vlo, vhi, 0x74);
    } else if key == 0x66 {
        c.format = num_field(b, vlo, vhi, 32);
    } else if key == 0x69 {
        c.id = num_field(b, vlo, vhi, 0);
    } else if key == 0x73 {
        c.width = num_field(b, vlo, vhi, 0);
    } else if key == 0x76 {
        c.height = num_field(b, vlo, vhi, 0);
    } else if key == 0x63 {
        c.cols = num_field(b, vlo, vhi, 0);
    } else if key == 0x72 {
        c.rows = num_field(b, vlo, vhi, 0);
    } else if key == 0x6d {
        let v1 = vhi - vlo == 1 && b[vlo] == 0x31;
        proof {
            let v = b@.subrange(vlo as int, vhi as int);
            if v1 {
                assert(v =~= seq![0x31u8]);
            } else if v.len() == 1 {
                assert(v[0] == b@[vlo as int]);
                assert(v != seq![0x31u8]);
            }
        }
        c.more = v1;
    } else if key == 0x74 {
        c.medium = byte_field(b, vlo, vhi, 0x64);
    } else if key == 0x6f {
        let v1 = vhi - vlo == 1 && b[vlo] == 0x7a;
        proof {
            let v = b@.subrange(vlo as int, vhi as int);
            if v1 {
                assert(v =~= seq![0x7au8]);
            } else if v.len() == 1 {
                assert(v[0] == b@[vlo as int]);
                assert(v != seq![0x7au8]);
            }
        }
        c.compressed = v1;
    } else if key == 0x64 {
        c.delete = byte_field(b, vlo, vhi, 0x61);
    } else if key == 0x71 {
        c.quiet = num_field(b, vlo, vhi, 0);
    }
}

/// The control block written by the items of `b[lo..hi]`.
#[verifier::spinoff_prover]
#[verifier::rlimit(40)]
fn parse_ctrl(b: &[u8], lo: usize, hi: usize) -> (cmd: Cmd)
    requires
        lo <= hi <= b@.len(),
    ensures
        cmd == apply_items(default_cmd(), split_on(b@.subrange(lo as int, hi as int), 0x2c)),
{
    let items = split_indices(b, lo, hi, 0x2c);
    let ghost parts = split_on(b@.subrange(lo as int, hi as int), 0x2c);
    let mut cmd = Cmd::default();
    let mut k: usize = 0;
    while k < items.len()
        invariant
            lo <= hi <= b@.len(),
            parts == split_on(b@.subrange(lo as int, hi as int), 0x2c),
            items@.len() == parts.len(),
            forall|j: int| 0 <= j < items@.len() ==> {
                &&& lo <= (#[trigger] items@[j]).0 <= items@[j].1 <= hi
                &&& b@.subrange(items@[j].0 as int, items@[j].1 as int) == parts[j]
            },
            k <= items@.len(),
            cmd == apply_items(default_cmd(), parts.take(k as int)),
        decreases items.len() - k,
    {
        let (a, z) = items[k];
        let ghost kv = parts[k as int];
        assert(parts.take(k + 1).drop_last() =~= parts.take(k as int));
        assert(parts.take(k + 1).last() == kv);
        if a < z && is_utf8(b, a, z) {
            match find_byte(b, a, z, 0x3d) {
                Some(e) => {
                    assert(kv.take(e - a) =~= b@.subrange(a as int, e as int));
                    assert(kv.skip(e - a + 1) =~= b@.subrange(e + 1, z as int));
                    set_pair(&mut cmd, b, a, e, e + 1, z);
                },
                None => {},
            }
        }
        k = k + 1;
    }
    assert(parts.take(items@.len() as int) =~= parts);
    cmd
}

/// A copy of `b[lo..hi]`.
pub fn copy_range(b: &[u8], lo: usize, hi: usize) -> (v: Vec<u8>)
    requires
        lo <= hi <= b@.len(),
    ensures
        v@ == b@.subrange(lo as int, hi as int),
{
    let mut v: Vec<u8> = Vec::with_capacity(hi - lo);
    let mut i = lo;
    while i < hi
        invariant
            lo <= i <= hi <= b@.len(),
            v@ == b@.subrange(lo as int, i as int),
        decreases hi - i,
    {
        v.push(b[i]);
        i = i + 1;
        assert(v@ =~= b@.subrange(lo as int, i as int));
    }
    v
}

/// Parse one Kitty APC command. `payload` is the bytes between `ESC _` and the
/// `ESC \` terminator (i.e. starting with `G`). Returns the control block and
/// the raw base64 data (possibly empty), or `None` if this APC is not a `G`
/// (graphics) command.
#[verifier::spinoff_prover]
#[verifier::rlimit(40)]
pub fn parse(payload: &[u8]) -> (r: Option<(Cmd, Vec<u8>)>)
    ensures
        r matches Some((c, d)) ==> parse_spec(payload@) == Some((c, d@)),
        r is None ==> parse_spec(payload@) is None,
{
    let n = payload.len();
    if n == 0 || payload[0] != 0x47 {
        return None;
    }
    let ghost rest = payload@.skip(1);
    assert(rest =~= payload@.subrange(1, n as int));
    let (cend, dstart) = match find_byte(payload, 1, n, 0x3b) {
        Some(i) => (i, i + 1),
        None => (n, n),
    };
    let ghost ctrl = payload@.subrange(1, cend as int);
    proof {
        match first_index(rest, 0x3b) {
            Some(i) => {
                assert(rest.take(i) =~= ctrl);
                assert(rest.skip(i + 1) =~= payload@.subrange(dstart as int, n as int));
            },
            None => {
                assert(rest =~= ctrl);
                assert(payload@.subrange(dstart as int, n as int) =~= Seq::<u8>::empty());
            },
        }
    }
    let cmd = parse_ctrl(payload, 1, cend);
    let data = copy_range(payload, dstart, n);
    Some((cmd, data))
}

} // verus!
