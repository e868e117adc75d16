//! The one place the library reads the wall clock.
use vstd::prelude::*;

verus! {

/// Relies on std::time::SystemTime::now and duration_since(UNIX_EPOCH):
/// whole seconds since the Unix epoch by the system clock, and 0 when the
/// clock reads before the epoch, so the call never panics. The value
/// depends on the clock, so nothing is promised of it.
#[verifier::external_body]
pub(crate) fn now_timestamp() -> u64 {
    match std::time::SystemTime::now().duration_since(std::time::UNIX_EPOCH) {
        Ok(d) => d.as_secs(),
        Err(_) => 0,
    }
}

} // verus!
