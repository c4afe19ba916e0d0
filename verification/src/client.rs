//! The client's side: the jobs it makes up and submits, one per connection.

use vstd::prelude::*;
use rand::Rng;
use crate::clock::{clock_reading, now_millis};
use crate::Request;

verus! {

/// Number of jobs that a client submits before it ends.
pub const REQUESTS_NUMBER: usize = 30;

/// Seconds that a client lets pass between two submissions.
pub const SUBMIT_INTERVAL_SECS: u64 = 5;

/// A job starts less than this many milliseconds after it was made up.
pub const START_WINDOW_MS: i64 = 600_000;

/// The shortest duration of a job that a client makes up, in milliseconds.
pub const MIN_DURATION_MS: i64 = 10_000;

/// A job that a client makes up is shorter than this many milliseconds.
pub const MAX_DURATION_MS: i64 = 1_000_000;

/// Draws a number from `low` up to, but not including, `high` with
/// `rand::Rng::gen_range` on the thread's generator, which panics on an empty
/// range. Trusted: the number lies in the range; which one it is, is left open.
#[verifier::external_body]
fn random_in(low: i64, high: i64) -> (r: i64)
    requires
        low < high,
    ensures
        low <= r < high,
{
    rand::thread_rng().gen_range(low..high)
}

/// Makes a fresh random identifier with `uuid::Uuid::new_v4` and hands out its
/// 128 bits by `Uuid::as_u128`. Trusted, and nothing is claimed of the value.
#[verifier::external_body]
fn fresh_id() -> (id: u128) {
    uuid::Uuid::new_v4().as_u128()
}

/// Whether `job` is one that a client may make up at instant `now`: it starts
/// within the window that opens at `now`, and its duration is in bounds.
pub open spec fn drawn_at(job: Request, now: int) -> bool {
    &&& now <= job.start_time < now + START_WINDOW_MS
    &&& MIN_DURATION_MS <= job.duration < MAX_DURATION_MS
}

/// Makes up a job at instant `now`: a random start within the window that
/// opens at `now`, a random duration within bounds, and a fresh identifier.
///
/// There is no job where the window would reach past the last instant that a
/// start time can hold.
pub fn draw_job(now: i64) -> (r: Option<Request>)
    ensures
        r is Some <==> now + START_WINDOW_MS <= i64::MAX,
        r matches Some(job) ==> drawn_at(job, now as int),
{
    if now > i64::MAX - START_WINDOW_MS {
        None
    } else {
        let start_time = random_in(now, now + START_WINDOW_MS);
        let duration = random_in(MIN_DURATION_MS, MAX_DURATION_MS);
        Some(Request { start_time, duration: duration as u64, id: fresh_id() })
    }
}

/// Makes up a job at the present instant. Whatever the clock reads, the
/// window that opens there holds start times, so there always is a job.
pub fn next_job() -> (r: Option<Request>)
    ensures
        r matches Some(job) && exists|now: int|
            clock_reading(now) && #[trigger] drawn_at(job, now),
{
    let now = now_millis();
    let r = draw_job(now);
    proof {
        assert(clock_reading(now as int) && drawn_at(r->Some_0, now as int));
    }
    r
}

} // verus!
