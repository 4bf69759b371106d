use vstd::prelude::*;

verus! {

/// Relies on chrono::Utc::now, reduced to a Unix timestamp in milliseconds.
/// The result depends on the wall clock, so nothing is promised of it; the
/// call can fail only on a system clock that reads before the Unix epoch.
#[verifier::external_body]
pub(crate) fn now_millis() -> i64 {
    chrono::Utc::now().timestamp_millis()
}

} // verus!
