//! The wall clock, in nanoseconds since the Unix epoch.

use vstd::prelude::*;

verus! {

/// The last whole second that chrono can represent: 23:59:59 on 31 December of its last year,
/// 262142, counted from the Unix epoch.
pub const MAX_CLOCK_SECS: i64 = 8_210_266_876_799;

pub const NANOS_PER_SEC: i128 = 1_000_000_000;

pub const NANOS_PER_MILLI: i128 = 1_000_000;

/// The latest time chrono can represent, in nanoseconds since the Unix epoch.
pub open spec fn max_clock_nanos() -> int {
    MAX_CLOCK_SECS * NANOS_PER_SEC + (NANOS_PER_SEC - 1)
}

/// A time that a reading of the clock can give.
pub open spec fn clock_reading(now: int) -> bool {
    0 <= now <= max_clock_nanos()
}

/// `chrono::Utc::now`, split by `DateTime::timestamp` into whole seconds since the Unix epoch
/// and by `DateTime::timestamp_subsec_nanos` into the nanoseconds past that second. `now`
/// panics when the system clock is before the epoch, and builds its result with
/// `DateTime::from_timestamp(secs, nanos).unwrap()` from the `Duration` since the epoch (whose
/// seconds the system clock holds in an `i64`, and whose nanoseconds are below one second); so
/// a reading that returns has seconds between 0 and the last second chrono can represent, and
/// no leap-second nanoseconds. Which time it reads is not claimed.
#[verifier::external_body]
fn now_parts() -> (r: (i64, u32))
    ensures
        0 <= r.0 <= MAX_CLOCK_SECS,
        r.1 < NANOS_PER_SEC,
{
    let now = chrono::Utc::now();
    (now.timestamp(), now.timestamp_subsec_nanos())
}

/// The current time, in nanoseconds since the Unix epoch.
pub(crate) fn now_nanos() -> (r: i128)
    ensures
        clock_reading(r as int),
{
    let (secs, nanos) = now_parts();
    assert((secs as int) * NANOS_PER_SEC <= MAX_CLOCK_SECS * NANOS_PER_SEC) by (nonlinear_arith)
        requires
            0 <= secs <= MAX_CLOCK_SECS,
    ;
    (secs as i128) * NANOS_PER_SEC + (nanos as i128)
}

} // verus!
