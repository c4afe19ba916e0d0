//! The wall clock.

use vstd::prelude::*;

verus! {

/// Whether `now` is a reading that the clock can give at all.
///
/// A `chrono::DateTime` counts whole days since the year 1 in 32 bits, so its
/// milliseconds since the Unix epoch stay well within two to the power 58 on
/// either side.
pub open spec fn clock_reading(now: int) -> bool {
    -0x0400_0000_0000_0000 < now < 0x0400_0000_0000_0000
}

/// Reads the wall clock through `chrono::Local::now` and
/// `DateTime::timestamp_millis`: the milliseconds that have passed since the
/// Unix epoch.
///
/// Trusted: the reading is one that a `DateTime` can give. `timestamp_millis`
/// computes it as a thousand times `timestamp`, which is 86 400 times a day
/// count of 32 bits, less the epoch's day, plus the seconds of the day, and
/// adds fewer than 2000 milliseconds. Which reading it is stays open: two
/// readings need not agree, nor follow one another.
#[verifier::external_body]
pub(crate) fn now_millis() -> (now: i64)
    ensures
        clock_reading(now as int),
{
    chrono::Local::now().timestamp_millis()
}

} // verus!
