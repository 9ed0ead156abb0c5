//! What joins a worker to the machine it runs on.

use crate::program::Clock;
use vstd::prelude::*;

verus! {

/// The machine's clock.
pub struct SystemClock;

/// `SystemTime::now` and `SystemTime::duration_since` the Unix epoch: the
/// seconds since the epoch, or 0 where the clock stands before it. Nothing
/// is known of the value.
#[verifier::external_body]
pub(crate) fn seconds_since_epoch() -> u64 {
    match std::time::SystemTime::now().duration_since(std::time::UNIX_EPOCH) {
        Ok(elapsed) => elapsed.as_secs(),
        Err(_) => 0,
    }
}

impl Clock for SystemClock {
    fn timestamp(&self) -> u64 {
        seconds_since_epoch()
    }
}

} // verus!
