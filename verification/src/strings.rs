//! The few `String` operations the terminal needs that vstd does not
//! specify, each a thin call into std.

use vstd::prelude::*;
use vstd::utf8::{valid_utf8, decode_utf8};

verus! {

/// The characters `String::from_utf8_lossy` makes of `b`: the decoded text,
/// each maximal invalid sequence replaced by U+FFFD.
pub uninterp spec fn utf8_lossy(b: Seq<u8>) -> Seq<char>;

/// `String::from_utf8_lossy(b).into_owned()`: the text is the named lossy
/// decoding of `b`, and for well-formed UTF-8 simply its characters (std
/// documents that valid input comes back unchanged).
#[verifier::external_body]
pub fn lossy_string(b: &[u8]) -> (s: String)
    ensures
        s@ == utf8_lossy(b@),
        valid_utf8(b@) ==> s@ == decode_utf8(b@),
{
    String::from_utf8_lossy(b).into_owned()
}

/// `String::push`: appends `c`.
#[verifier::external_body]
pub fn push_char(s: &mut String, c: char)
    ensures
        final(s)@ == old(s)@.push(c),
{
    s.push(c);
}

/// Collecting characters into a `String` keeps them in order.
#[verifier::external_body]
pub fn string_from_chars(v: &Vec<char>) -> (s: String)
    ensures
        s@ == v@,
{
    v.iter().collect::<String>()
}

/// `str::chars().count()`: the number of characters.
#[verifier::external_body]
pub fn char_count(s: &String) -> (n: usize)
    ensures
        n == s@.len(),
{
    s.chars().count()
}

} // verus!
