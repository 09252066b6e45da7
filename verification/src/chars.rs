//! Conversions between code points and `char`.

use vstd::prelude::*;

verus! {

/// A Unicode scalar value: at most U+10FFFF and not a UTF-16 surrogate.
pub open spec fn is_scalar_cp(cp: u32) -> bool {
    cp <= 0x10FFFF && !(0xD800 <= cp <= 0xDFFF)
}

/// Calls `char::from_u32`. Its documentation: returns the `char` with code
/// point `cp` when `cp` is a Unicode scalar value, and `None` otherwise.
#[verifier::external_body]
pub fn char_from_u32(cp: u32) -> (c: Option<char>)
    ensures
        is_scalar_cp(cp) ==> c == Some(cp as char),
        !is_scalar_cp(cp) ==> c is None,
{
    char::from_u32(cp)
}

} // verus!
