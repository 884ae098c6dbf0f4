//! The identity this process announces itself under: an opaque token chosen
//! once per process lifetime.

use vstd::prelude::*;

verus! {

/// Relies on `uuid::Uuid::new_v4` and its hyphenated display: a freshly
/// drawn random identity, rendered as its 36-character text. Nothing more
/// can be said of a random value.
#[verifier::external_body]
pub fn fresh_identity() -> (r: String)
    ensures
        r@.len() == 36,
{
    uuid::Uuid::new_v4().to_string()
}

} // verus!
