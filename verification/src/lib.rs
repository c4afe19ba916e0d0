//! Job descriptions that clients submit to a scheduling server, the answer the
//! server gives back, and the verified logic around them: the ordered job
//! registry, the busiest-interval computation, the wire format and the
//! per-connection protocol.

use vstd::prelude::*;

pub mod client;
pub mod clock;
pub mod digits;
pub mod frame;
pub mod overlap;
pub mod registry;
pub mod server;
pub mod wire;

verus! {

/// A scheduled job: when it starts, how long it runs, and who it is.
///
/// `start_time` counts milliseconds since the Unix epoch (UTC), `duration` is a
/// span in milliseconds, and `id` is the 128-bit value of the job's UUID.
/// Requests are ordered by `start_time`, then `duration`, then `id`.
#[derive(Debug, Clone, Copy, PartialEq, Eq, PartialOrd, Ord, Structural)]
pub struct Request {
    /// Start of the job, in milliseconds since the Unix epoch.
    pub start_time: i64,
    /// Length of the job in milliseconds.
    pub duration: u64,
    /// Unique job identifier, allocated by the client.
    pub id: u128,
}

/// The server's answer: how many jobs run at once at the busiest instant.
#[derive(Debug, Clone, Copy, PartialEq, Eq, Structural)]
pub struct Response {
    /// Maximum number of concurrent jobs at the busiest instant.
    pub max_jobs: usize,
}

impl Request {
    /// The last instant at which the job is still active.
    pub open spec fn end_time(self) -> int {
        self.start_time + self.duration
    }

    /// Whether the job is active at instant `t`. Both ends of the interval count.
    pub open spec fn covers(self, t: int) -> bool {
        self.start_time <= t <= self.end_time()
    }

    /// The strict order of requests: by start, then duration, then identifier.
    pub open spec fn precedes(self, other: Request) -> bool {
        self.start_time < other.start_time || (self.start_time == other.start_time && (
        self.duration < other.duration || (self.duration == other.duration && self.id
            < other.id)))
    }

    /// Decides `precedes`.
    pub fn is_before(&self, other: &Request) -> (r: bool)
        ensures
            r == self.precedes(*other),
    {
        self.start_time < other.start_time || (self.start_time == other.start_time && (
        self.duration < other.duration || (self.duration == other.duration && self.id
            < other.id)))
    }
}

} // verus!
