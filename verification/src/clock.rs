//! The wall clock.

use vstd::prelude::*;

verus! {

/// Calls `chrono::Utc::now` and `DateTime::timestamp` on its result: the
/// current time in whole seconds since the Unix epoch. Trusted, and nothing is
/// claimed of the value: two calls may differ, and the clock may go backwards.
/// `Utc::now` itself gives up only where the system clock stands before 1970.
#[verifier::external_body]
pub(crate) fn unix_time_now() -> i64 {
    chrono::Utc::now().timestamp()
}

} // verus!
