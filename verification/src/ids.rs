use vstd::prelude::*;

verus! {

/// Relies on uuid::Uuid::new_v4: a version-4 UUID drawn from OS randomness,
/// reduced to its 128-bit integer value. The result is random, so nothing is
/// promised of it; callers treat it as an arbitrary identifier and check any
/// freshness they need against their own state.
#[verifier::external_body]
pub(crate) fn fresh_id() -> u128 {
    uuid::Uuid::new_v4().as_u128()
}

} // verus!
