//! The one check the library needs from std's UTF-8 machinery: whether a
//! byte string is valid UTF-8.  Map keys and cached names are required to be
//! text, as they stand for read names.
use vstd::prelude::*;

verus! {

/// Relies on str::from_utf8, which returns `Ok` exactly when its input is
/// valid UTF-8; vstd's `valid_utf8` is that notion of validity.
#[verifier::external_body]
pub fn bytes_valid_utf8(b: &[u8]) -> (r: bool)
    ensures
        r == vstd::utf8::valid_utf8(b@),
{
    core::str::from_utf8(b).is_ok()
}

} // verus!
