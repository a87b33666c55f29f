//! The few outside calls the library relies on without proof.
//!
//! Everything else in the crate is verified against these contracts.

use vstd::prelude::*;

verus! {

use vstd::utf8::{decode_utf8, valid_utf8};

/// Relies on fastrand::u32 over the full range: nothing is promised of a
/// pseudo-random draw.
#[verifier::external_body]
pub(crate) fn random_u32() -> u32 {
    fastrand::u32(..)
}

/// Relies on String::from_utf8: it returns the string those bytes spell
/// exactly when they are valid UTF-8, and rejects them otherwise.
#[verifier::external_body]
pub(crate) fn string_from_utf8(bytes: Vec<u8>) -> (r: Option<String>)
    ensures
        match r {
            Some(s) => valid_utf8(bytes@) && s@ == decode_utf8(bytes@),
            None => !valid_utf8(bytes@),
        },
{
    match String::from_utf8(bytes) {
        Ok(s) => Some(s),
        Err(_) => None,
    }
}

/// Relies on String::from_utf8_lossy: valid UTF-8 input comes back as the
/// string it spells; of invalid input nothing is promised.
#[verifier::external_body]
pub(crate) fn string_from_utf8_lossy(bytes: &Vec<u8>) -> (r: String)
    ensures
        valid_utf8(bytes@) ==> r@ == decode_utf8(bytes@),
{
    String::from_utf8_lossy(bytes).to_string()
}

} // verus!
