//! Conversion of ASCII byte buffers into `String`s.

use vstd::prelude::*;

verus! {

/// Relies on `String::from_utf8`: a buffer of bytes below 128 is valid UTF-8,
/// and decodes to the string whose characters have exactly those code points.
#[verifier::external_body]
pub(crate) fn ascii_string(bytes: Vec<u8>) -> (r: String)
    requires
        forall|i: int| 0 <= i < bytes@.len() ==> bytes@[i] < 128,
    ensures
        r@ == bytes@.map_values(|b: u8| b as char),
{
    match String::from_utf8(bytes) {
        Ok(s) => s,
        Err(_) => String::new(),
    }
}

} // verus!
