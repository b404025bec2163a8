//! The time.

use vstd::prelude::*;

verus! {

/// `std::time::SystemTime::elapsed` of the Unix epoch, in whole seconds; nothing if the clock
/// stands before it. What it returns depends on the clock alone.
#[verifier::external_body]
fn elapsed_since_epoch() -> Option<u64> {
    match std::time::UNIX_EPOCH.elapsed() {
        Ok(elapsed) => Some(elapsed.as_secs()),
        Err(_) => None,
    }
}

/// The seconds that a clock shows: none if it stands before the epoch.
pub open spec fn seconds_spec(elapsed: Option<u64>) -> u64 {
    match elapsed {
        Some(seconds) => seconds,
        None => 0,
    }
}

/// The seconds that a clock shows.
pub fn seconds(elapsed: Option<u64>) -> (r: u64)
    ensures
        r == seconds_spec(elapsed),
{
    match elapsed {
        Some(seconds) => seconds,
        None => 0,
    }
}

/// The seconds since the Unix epoch.
pub fn now_secs() -> (r: u64)
    ensures
        exists|elapsed: Option<u64>| r == #[trigger] seconds_spec(elapsed),
{
    let elapsed = elapsed_since_epoch();
    seconds(elapsed)
}

/// The time is the number of seconds that the clock shows, and zero before the epoch.
pub proof fn law_time_is_what_the_clock_shows(elapsed: u64)
    ensures
        seconds_spec(Some(elapsed)) == elapsed,
        seconds_spec(None) == 0,
{
}

} // verus!
