//! Choosing the four font styles (regular, bold, italic, bold-italic) from a
//! font file, and how a missing style is made up from the regular face.
//!
//! Reading the face records is `ttf-parser`'s work; which face fills which
//! style slot, and what is synthesized, is decided here.

use vstd::prelude::*;

verus! {

/// The number of faces `ttf_parser::fonts_in_collection` reports for a font
/// file: `None` when the bytes are not a font collection.
pub uninterp spec fn ttf_face_count(bytes: Seq<u8>) -> Option<u32>;

/// The (bold, italic) flags `ttf-parser` reads from face `index` of a font
/// file: `None` when the face does not parse.
pub uninterp spec fn ttf_face_style(bytes: Seq<u8>, index: u32) -> Option<(bool, bool)>;

/// `ttf_parser::fonts_in_collection`: the face count of a collection,
/// taken as a function of the bytes alone (it reads the header's count
/// field); nothing more is claimed of it.
#[verifier::external_body]
fn fonts_in_collection(bytes: &[u8]) -> (r: Option<u32>)
    ensures
        r == ttf_face_count(bytes@),
{
    ttf_parser::fonts_in_collection(bytes)
}

/// `ttf_parser::Face::parse` of face `index`, then `Face::is_bold` and
/// `Face::is_italic` of the parsed face: the two flags, or `None` when the
/// parse fails. Taken as a function of the bytes and the index alone; what
/// the flags are on given bytes is not claimed.
#[verifier::external_body]
fn face_style(bytes: &[u8], index: u32) -> (r: Option<(bool, bool)>)
    ensures
        r == ttf_face_style(bytes@, index),
{
    match ttf_parser::Face::parse(bytes, index) {
        Ok(face) => Some((face.is_bold(), face.is_italic())),
        Err(_) => None,
    }
}

/// The style slot of a face: bold adds 1, italic adds 2.
pub open spec fn slot_of(style: (bool, bool)) -> int {
    (if style.0 { 1int } else { 0 }) + (if style.1 { 2int } else { 0 })
}

/// How many faces a file is searched for: the collection's count, or one
/// for a plain font file.
pub open spec fn faces_searched(bytes: Seq<u8>) -> int {
    match ttf_face_count(bytes) {
        Some(n) => n as int,
        None => 1,
    }
}

/// Face `i` parses and has style slot `s`.
pub open spec fn has_style(bytes: Seq<u8>, i: int, s: int) -> bool {
    ttf_face_style(bytes, i as u32) matches Some(st) && slot_of(st) == s
}

/// `slot` is the first face below `m` with style slot `s`, or `None` when
/// there is none.
pub open spec fn first_with_style(bytes: Seq<u8>, s: int, m: int, slot: Option<u32>) -> bool {
    match slot {
        Some(k) => k < m && has_style(bytes, k as int, s) && forall|j: int| 0 <= j < k ==> !has_style(bytes, j, s),
        None => forall|j: int| 0 <= j < m ==> !has_style(bytes, j, s),
    }
}

/// For each style slot (0 regular, 1 bold, 2 italic, 3 bold-italic), the
/// first face of the font file that has that style; the faces of a
/// collection are searched in order, a plain font file is one face.
pub fn collection_slots(bytes: &[u8]) -> (r: [Option<u32>; 4])
    ensures
        first_with_style(bytes@, 0, faces_searched(bytes@), r[0]),
        first_with_style(bytes@, 1, faces_searched(bytes@), r[1]),
        first_with_style(bytes@, 2, faces_searched(bytes@), r[2]),
        first_with_style(bytes@, 3, faces_searched(bytes@), r[3]),
{
    let n: u32 = match fonts_in_collection(bytes) {
        Some(n) => n,
        None => 1,
    };
    let ghost b = bytes@;
    let mut s0: Option<u32> = None;
    let mut s1: Option<u32> = None;
    let mut s2: Option<u32> = None;
    let mut s3: Option<u32> = None;
    let mut i: u32 = 0;
    while i < n
        invariant
            i <= n,
            n == faces_searched(b),
            b == bytes@,
            first_with_style(b, 0, i as int, s0),
            first_with_style(b, 1, i as int, s1),
            first_with_style(b, 2, i as int, s2),
            first_with_style(b, 3, i as int, s3),
        decreases n - i,
    {
        let st = face_style(bytes, i);
        proof {
            assert(i as int as u32 == i);
        }
        if let Some((bold, italic)) = st {
            let s: u8 = (if bold { 1u8 } else { 0u8 }) + (if italic { 2u8 } else { 0u8 });
            assert(has_style(b, i as int, s as int));
            if s == 0 && s0.is_none() {
                s0 = Some(i);
            } else if s == 1 && s1.is_none() {
                s1 = Some(i);
            } else if s == 2 && s2.is_none() {
                s2 = Some(i);
            } else if s == 3 && s3.is_none() {
                s3 = Some(i);
            }
        }
        i = i + 1;
    }
    [s0, s1, s2, s3]
}

/// How style slot `s` is made: the face found for it when there is one,
/// else the regular face (slot 0) with a synthetic shear for italic and
/// synthetic emboldening for bold.
pub open spec fn plan_slot(found: [bool; 4], s: int) -> (usize, bool, bool) {
    (
        if found[s] { s as usize } else { 0 },
        (s == 2 || s == 3) && !found[s],
        (s == 1 || s == 3) && !found[s],
    )
}

/// For each style slot, which found face to build it from and whether to
/// shear (synthetic italic) or embolden (synthetic bold) it. A regular face
/// must have been found.
pub fn face_plan(found: [bool; 4]) -> (p: [(usize, bool, bool); 4])
    requires
        found[0],
    ensures
        p[0] == plan_slot(found, 0),
        p[1] == plan_slot(found, 1),
        p[2] == plan_slot(found, 2),
        p[3] == plan_slot(found, 3),
{
    let f1 = found[1];
    let f2 = found[2];
    let f3 = found[3];
    [
        (0, false, false),
        (if f1 { 1 } else { 0 }, false, !f1),
        (if f2 { 2 } else { 0 }, !f2, false),
        (if f3 { 3 } else { 0 }, !f3, !f3),
    ]
}

} // verus!
