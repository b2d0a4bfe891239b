//! The wall clock.
use vstd::prelude::*;

verus! {

/// `std::time::SystemTime::now`, as whole milliseconds since the Unix epoch;
/// zero for a clock that is set before it. Nothing is promised of the time.
#[verifier::external_body]
pub(crate) fn timestamp_utc_millis() -> u64 {
    let elapsed = std::time::SystemTime::now().duration_since(std::time::UNIX_EPOCH);
    elapsed.map_or(0, |d| d.as_millis() as u64)
}

} // verus!
