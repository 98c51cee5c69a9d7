//! Fresh identifiers for clients and sessions.

use vstd::prelude::*;

verus! {

/// Relies on uuid::Uuid::new_v4 and its hyphenated `Display` form: a freshly
/// drawn random identifier rendered as 36 characters.  Two calls may (and
/// almost surely do) differ, so nothing is assumed beyond the length.
#[verifier::external_body]
pub(crate) fn fresh_id() -> (r: String)
    ensures
        r@.len() == 36,
{
    uuid::Uuid::new_v4().to_string()
}

} // verus!
