//! The wall clock, read through the chrono crate.
//!
//! Everything else in the library takes the current time as a plain
//! argument, so callers (and tests) may inject a frozen clock; this module
//! is the one place the real clock is read.

use vstd::prelude::*;
use crate::date::MAX_TIMESTAMP;

verus! {

/// Relies on chrono's `Utc::now`: the current time as whole seconds since
/// the Unix epoch. `Utc::now` reads the system clock as a duration since
/// the epoch, so the count is never negative.
#[verifier::external_body]
fn clock_now_seconds() -> (r: i64)
    ensures
        0 <= r,
{
    chrono::Utc::now().timestamp()
}

/// The current time as seconds since the epoch, clamped into the calendar
/// range the library supports.
pub fn current_unix_time() -> (r: i64)
    ensures
        0 <= r <= MAX_TIMESTAMP,
{
    let t = clock_now_seconds();
    if t > MAX_TIMESTAMP {
        MAX_TIMESTAMP
    } else {
        t
    }
}

} // verus!
