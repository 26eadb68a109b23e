//! Unicode scalar values.
use vstd::prelude::*;

verus! {

/// `u` is a Unicode scalar value: at most `0x10FFFF` and outside the surrogates.
pub open spec fn is_scalar_value(u: u32) -> bool {
    u <= 0x10FFFF && !(0xD800 <= u <= 0xDFFF)
}

/// Relies on `char::from_u32`: it returns the `char` of `u` exactly when `u`
/// is a scalar value, and `None` otherwise.
#[verifier::external_body]
pub(crate) fn char_from_scalar(u: u32) -> (r: Option<char>)
    ensures
        r is Some <==> is_scalar_value(u),
        r matches Some(c) ==> c as u32 == u,
{
    char::from_u32(u)
}

} // verus!
