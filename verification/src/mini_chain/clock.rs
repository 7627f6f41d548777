//! The wall clock.
use vstd::prelude::*;

verus! {

/// Reads `std::time::SystemTime::now` and returns the whole seconds since
/// the UNIX epoch, or nothing when the clock reads before the epoch.
/// Nothing is claimed of the value.
#[verifier::external_body]
fn clock_secs() -> (r: Option<u64>) {
    match std::time::SystemTime::now().duration_since(std::time::UNIX_EPOCH) {
        Ok(d) => Some(d.as_secs()),
        Err(_) => None,
    }
}

/// The whole seconds since the UNIX epoch; a clock that reads before the
/// epoch counts as the epoch itself.
pub(crate) fn now_secs() -> (r: u64) {
    match clock_secs() {
        Some(t) => t,
        None => 0,
    }
}

} // verus!
