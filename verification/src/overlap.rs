//! The busiest-interval computation: how many jobs of a snapshot run at once
//! when the load is highest, and which of them run at a given instant.

use vstd::prelude::*;
use crate::clock::{clock_reading, now_millis};
use crate::Request;

verus! {

/// Rank of the event that opens a job's interval.
///
/// At equal timestamps events are swept in rank order. The opening rank is the
/// lower one, so a job that begins at the very instant another one ends is
/// counted as running together with it.
pub const START_RANK: u8 = 0;

/// Rank of the event that closes a job's interval.
pub const END_RANK: u8 = 1;

/// Number of jobs in `jobs` that are active at instant `t`.
pub open spec fn active_at(jobs: Seq<Request>, t: int) -> nat
    decreases jobs.len(),
{
    if jobs.len() == 0 {
        0
    } else {
        active_at(jobs.drop_last(), t) + if jobs.last().covers(t) {
            1nat
        } else {
            0nat
        }
    }
}

/// `m` is the highest number of jobs that are ever active at one instant:
/// no instant carries more, and some instant carries exactly `m`.
pub open spec fn is_peak(jobs: Seq<Request>, m: nat) -> bool {
    &&& forall|t: int| #[trigger] active_at(jobs, t) <= m
    &&& exists|t: int| #[trigger] active_at(jobs, t) == m
}

/// The jobs of `jobs` that are active at instant `now`, in the order in which `jobs` lists them.
pub open spec fn running_at(jobs: Seq<Request>, now: int) -> Seq<Request> {
    jobs.filter(|job: Request| job.covers(now))
}


/// The two boundary events of every job, job by job: the opening event at the
/// start, the closing event at the last active instant.
pub open spec fn events_of(jobs: Seq<Request>) -> Seq<(i128, u8)>
    decreases jobs.len(),
{
    if jobs.len() == 0 {
        Seq::empty()
    } else {
        events_of(jobs.drop_last()).push((jobs.last().start_time as i128, START_RANK)).push(
            (jobs.last().end_time() as i128, END_RANK),
        )
    }
}

/// The order in which events are swept: by timestamp, then by rank.
pub open spec fn swept_before_or_with(a: (i128, u8), b: (i128, u8)) -> bool {
    a.0 < b.0 || (a.0 == b.0 && a.1 <= b.1)
}

/// The events are in sweep order.
pub open spec fn in_sweep_order(events: Seq<(i128, u8)>) -> bool {
    forall|i: int, j: int|
        0 <= i <= j < events.len() ==> swept_before_or_with(#[trigger] events[i], #[trigger] events[j])
}

/// What an event does to the running count.
pub open spec fn step_of(e: (i128, u8)) -> int {
    if e.1 == START_RANK {
        1
    } else {
        -1
    }
}

/// Whether the sweep has passed event `e` once every job that starts at `t`
/// has been opened and none that ends at `t` has been closed.
pub open spec fn passed_at(e: (i128, u8), t: int) -> bool {
    e.0 < t || (e.0 == t && e.1 == START_RANK)
}

/// The running count after the first `k` events.
pub open spec fn running(events: Seq<(i128, u8)>, k: int) -> int
    decreases k,
{
    if k <= 0 {
        0
    } else {
        running(events, k - 1) + step_of(events[k - 1])
    }
}

/// The sum of the steps of the events that the sweep has passed at `t`,
/// among the first `k` events.
pub open spec fn load_among(events: Seq<(i128, u8)>, k: int, t: int) -> int
    decreases k,
{
    if k <= 0 {
        0
    } else {
        load_among(events, k - 1, t) + if passed_at(events[k - 1], t) {
            step_of(events[k - 1])
        } else {
            0
        }
    }
}

/// The sum of the steps of all events that the sweep has passed at `t`.
pub open spec fn load(events: Seq<(i128, u8)>, t: int) -> int {
    load_among(events, events.len() as int, t)
}

proof fn lemma_load_among_prefix(a: Seq<(i128, u8)>, b: Seq<(i128, u8)>, k: int, t: int)
    requires
        0 <= k <= a.len(),
        k <= b.len(),
        forall|i: int| 0 <= i < k ==> a[i] == b[i],
    ensures
        load_among(a, k, t) == load_among(b, k, t),
    decreases k,
{
    if k > 0 {
        lemma_load_among_prefix(a, b, k - 1, t);
    }
}

/// The load of a job list's events at `t` is the number of jobs active at `t`.
proof fn lemma_load_of_events(jobs: Seq<Request>, t: int)
    ensures
        load(events_of(jobs), t) == active_at(jobs, t),
        events_of(jobs).len() == 2 * jobs.len(),
    decreases jobs.len(),
{
    if jobs.len() > 0 {
        let rest = jobs.drop_last();
        let ev = events_of(jobs);
        let n = ev.len() as int;
        lemma_load_of_events(rest, t);
        lemma_load_among_prefix(ev, events_of(rest), n - 2, t);
        assert(ev[n - 2] == (jobs.last().start_time as i128, START_RANK));
        assert(ev[n - 1] == (jobs.last().end_time() as i128, END_RANK));
        assert(load_among(ev, n, t) == load_among(ev, n - 1, t) + if passed_at(ev[n - 1], t) {
            step_of(ev[n - 1])
        } else {
            0
        });
        assert(load_among(ev, n - 1, t) == load_among(ev, n - 2, t) + if passed_at(ev[n - 2], t) {
            step_of(ev[n - 2])
        } else {
            0
        });
    }
}

proof fn lemma_load_remove(events: Seq<(i128, u8)>, i: int, t: int)
    requires
        0 <= i < events.len(),
    ensures
        load(events, t) == load(events.remove(i), t) + if passed_at(events[i], t) {
            step_of(events[i])
        } else {
            0
        },
    decreases events.len(),
{
    let n = events.len() as int;
    if i == n - 1 {
        lemma_load_among_prefix(events, events.remove(i), n - 1, t);
    } else {
        let front = events.drop_last();
        lemma_load_remove(front, i, t);
        lemma_load_among_prefix(events, front, n - 1, t);
        lemma_load_among_prefix(events.remove(i), front.remove(i), n - 2, t);
        assert(events.remove(i)[n - 2] == events[n - 1]);
    }
}

/// The load depends on which events there are, not on their order.
proof fn lemma_load_permutation(a: Seq<(i128, u8)>, b: Seq<(i128, u8)>, t: int)
    requires
        a.to_multiset() == b.to_multiset(),
    ensures
        load(a, t) == load(b, t),
    decreases a.len(),
{
    broadcast use vstd::seq_lib::group_to_multiset_ensures;

    if a.len() == 0 {
        assert(b.to_multiset().len() == 0);
    } else {
        let x = a.last();
        assert(a.to_multiset().count(x) > 0);
        assert(b.contains(x));
        let i = b.index_of(x);
        assert(a.drop_last() == a.remove(a.len() - 1));
        lemma_load_permutation(a.drop_last(), b.remove(i), t);
        lemma_load_remove(a, a.len() - 1, t);
        lemma_load_remove(b, i, t);
    }
}

/// In sweep order the running count never exceeds the load at the timestamp
/// of the event just swept.
proof fn lemma_running_below_load(events: Seq<(i128, u8)>, k: int)
    requires
        in_sweep_order(events),
        1 <= k <= events.len(),
    ensures
        running(events, k) <= load(events, events[k - 1].0 as int),
{
    let t = events[k - 1].0 as int;
    lemma_running_below_load_among(events, k, k, t);
    lemma_load_among_grows(events, k, events.len() as int, t);
}

proof fn lemma_running_below_load_among(events: Seq<(i128, u8)>, k: int, j: int, t: int)
    requires
        in_sweep_order(events),
        1 <= k <= events.len(),
        0 <= j <= k,
        t == events[k - 1].0,
    ensures
        running(events, j) <= load_among(events, j, t),
    decreases j,
{
    if j > 0 {
        lemma_running_below_load_among(events, k, j - 1, t);
        assert(swept_before_or_with(events[j - 1], events[k - 1]));
    }
}

proof fn lemma_load_among_grows(events: Seq<(i128, u8)>, k: int, j: int, t: int)
    requires
        in_sweep_order(events),
        1 <= k <= j <= events.len(),
        t == events[k - 1].0,
    ensures
        load_among(events, k, t) <= load_among(events, j, t),
    decreases j,
{
    if j > k {
        lemma_load_among_grows(events, k, j - 1, t);
        assert(swept_before_or_with(events[k - 1], events[j - 1]));
    }
}

/// In sweep order the load at any instant is the running count after some
/// number of events.
proof fn lemma_load_is_running(events: Seq<(i128, u8)>, j: int, t: int) -> (k: int)
    requires
        in_sweep_order(events),
        0 <= j <= events.len(),
    ensures
        0 <= k <= j,
        running(events, k) == load_among(events, j, t),
    decreases j,
{
    if j == 0 {
        0
    } else if passed_at(events[j - 1], t) {
        lemma_all_passed(events, j, t);
        j
    } else {
        lemma_load_is_running(events, j - 1, t)
    }
}

proof fn lemma_all_passed(events: Seq<(i128, u8)>, j: int, t: int)
    requires
        in_sweep_order(events),
        1 <= j <= events.len(),
        passed_at(events[j - 1], t),
    ensures
        running(events, j) == load_among(events, j, t),
    decreases j,
{
    if j > 1 {
        assert(swept_before_or_with(events[j - 2], events[j - 1]));
        lemma_all_passed(events, j - 1, t);
    }
    assert(running(events, j - 1) == load_among(events, j - 1, t));
}

/// No instant carries more jobs than there are.
pub proof fn lemma_active_at_most_len(jobs: Seq<Request>, t: int)
    ensures
        active_at(jobs, t) <= jobs.len(),
    decreases jobs.len(),
{
    if jobs.len() > 0 {
        lemma_active_at_most_len(jobs.drop_last(), t);
    }
}

/// An instant that a job covers carries at least that job.
pub proof fn lemma_active_at_least_one(jobs: Seq<Request>, i: int, t: int)
    requires
        0 <= i < jobs.len(),
        jobs[i].covers(t),
    ensures
        active_at(jobs, t) >= 1,
    decreases jobs.len(),
{
    if i < jobs.len() - 1 {
        lemma_active_at_least_one(jobs.drop_last(), i, t);
    }
}

/// An instant that every job covers carries all of them.
pub proof fn lemma_active_at_common_instant(jobs: Seq<Request>, t: int)
    requires
        forall|i: int| 0 <= i < jobs.len() ==> (#[trigger] jobs[i]).covers(t),
    ensures
        active_at(jobs, t) == jobs.len(),
    decreases jobs.len(),
{
    if jobs.len() > 0 {
        let rest = jobs.drop_last();
        assert forall|i: int| 0 <= i < rest.len() implies (#[trigger] rest[i]).covers(t) by {
            assert(rest[i] == jobs[i]);
        }
        lemma_active_at_common_instant(rest, t);
        assert(jobs.last() == jobs[jobs.len() - 1]);
    }
}

/// The highest number of jobs that are ever active at one instant.
pub open spec fn peak_load(jobs: Seq<Request>) -> nat {
    choose|m: nat| is_peak(jobs, m)
}

proof fn lemma_peak_exists(jobs: Seq<Request>, k: nat)
    requires
        forall|t: int| #[trigger] active_at(jobs, t) <= k,
    ensures
        exists|m: nat| is_peak(jobs, m),
    decreases k,
{
    if exists|t: int| #[trigger] active_at(jobs, t) == k {
        assert(is_peak(jobs, k));
    } else {
        assert(active_at(jobs, 0) != k);
        assert forall|t: int| #[trigger] active_at(jobs, t) <= k - 1 by {
            assert(active_at(jobs, t) != k);
        }
        lemma_peak_exists(jobs, (k - 1) as nat);
    }
}

/// Every job list has a peak, and it is no more than the number of jobs.
pub proof fn lemma_peak_load(jobs: Seq<Request>)
    ensures
        is_peak(jobs, peak_load(jobs)),
        peak_load(jobs) <= jobs.len(),
{
    assert forall|t: int| #[trigger] active_at(jobs, t) <= jobs.len() by {
        lemma_active_at_most_len(jobs, t);
    }
    lemma_peak_exists(jobs, jobs.len());
    let t = choose|t: int| #[trigger] active_at(jobs, t) == peak_load(jobs);
    lemma_active_at_most_len(jobs, t);
}

/// A job list has no peak but its peak load.
pub proof fn lemma_peak_unique(jobs: Seq<Request>, m: nat)
    requires
        is_peak(jobs, m),
    ensures
        m == peak_load(jobs),
{
}

/// Wherever there is at least one job, the peak load is at least one.
pub proof fn lemma_peak_of_nonempty(jobs: Seq<Request>)
    requires
        jobs.len() > 0,
    ensures
        peak_load(jobs) >= 1,
{
    lemma_peak_load(jobs);
    let t = jobs[0].start_time as int;
    lemma_active_at_least_one(jobs, 0, t);
    assert(active_at(jobs, t) <= peak_load(jobs));
}

/// A single job has a peak load of one.
pub proof fn lemma_peak_of_single_job(jobs: Seq<Request>)
    requires
        jobs.len() == 1,
    ensures
        peak_load(jobs) == 1,
{
    lemma_peak_of_nonempty(jobs);
    lemma_peak_load(jobs);
}

/// Two jobs of which one is over before the other starts have a peak load of
/// one.
pub proof fn lemma_peak_of_disjoint_pair(jobs: Seq<Request>)
    requires
        jobs.len() == 2,
        jobs[0].end_time() < jobs[1].start_time || jobs[1].end_time() < jobs[0].start_time,
    ensures
        peak_load(jobs) == 1,
{
    lemma_peak_of_nonempty(jobs);
    lemma_peak_load(jobs);
    let t = choose|t: int| #[trigger] active_at(jobs, t) == peak_load(jobs);
    let front = jobs.drop_last();
    assert(front.last() == jobs[0]);
    assert(active_at(front.drop_last(), t) == 0);
    assert(active_at(front, t) == if jobs[0].covers(t) {
        1nat
    } else {
        0nat
    });
    assert(active_at(jobs, t) == active_at(front, t) + if jobs[1].covers(t) {
        1nat
    } else {
        0nat
    });
}

/// Jobs that all cover one common instant have a peak load equal to their
/// number.
pub proof fn lemma_peak_of_common_instant(jobs: Seq<Request>, t: int)
    requires
        forall|i: int| 0 <= i < jobs.len() ==> (#[trigger] jobs[i]).covers(t),
    ensures
        peak_load(jobs) == jobs.len(),
{
    lemma_peak_load(jobs);
    lemma_active_at_common_instant(jobs, t);
    assert(active_at(jobs, t) <= peak_load(jobs));
}

/// The boundary rule: two jobs of which the second starts at the very instant
/// the first one ends run together at that instant, so their peak load is two.
pub proof fn lemma_peak_of_touching_pair(jobs: Seq<Request>)
    requires
        jobs.len() == 2,
        jobs[0].end_time() == jobs[1].start_time,
    ensures
        peak_load(jobs) == 2,
{
    lemma_peak_of_common_instant(jobs, jobs[1].start_time as int);
}

/// Sorts the events with `slice::sort_unstable`, which orders tuples by their
/// first component and then by their second. Trusted: afterwards the same
/// events are there, each as often as before, and they are in sweep order.
#[verifier::external_body]
fn sort_events(events: &mut Vec<(i128, u8)>)
    ensures
        final(events)@.to_multiset() == old(events)@.to_multiset(),
        in_sweep_order(final(events)@),
{
    events.sort_unstable();
}

/// Lists the boundary events of `jobs`, job by job.
fn boundary_events(jobs: &Vec<Request>) -> (events: Vec<(i128, u8)>)
    ensures
        events@ == events_of(jobs@),
{
    let mut events: Vec<(i128, u8)> = Vec::new();
    let mut i: usize = 0;
    while i < jobs.len()
        invariant
            0 <= i <= jobs.len(),
            events@ == events_of(jobs@.take(i as int)),
        decreases jobs.len() - i,
    {
        let job = jobs[i];
        let start: i128 = job.start_time as i128;
        let end: i128 = start + job.duration as i128;
        events.push((start, START_RANK));
        events.push((end, END_RANK));
        proof {
            assert(jobs@.take(i + 1).drop_last() == jobs@.take(i as int));
            assert(jobs@.take(i + 1).last() == job);
        }
        i += 1;
    }
    proof {
        assert(jobs@.take(jobs.len() as int) == jobs@);
    }
    events
}

/// Sweeps events that are in sweep order, adding one at each opening event and
/// taking one away at each closing event, and returns the highest count seen
/// together with the number of events after which it was seen.
fn sweep(events: &Vec<(i128, u8)>) -> (r: (i128, Ghost<int>))
    ensures
        0 <= r.1@ <= events.len(),
        r.0 == running(events@, r.1@),
        forall|k: int| 0 <= k <= events.len() ==> running(events@, k) <= r.0,
{
    let mut count: i128 = 0;
    let mut best: i128 = 0;
    let ghost best_at: int = 0;
    let mut i: usize = 0;
    while i < events.len()
        invariant
            0 <= i <= events.len(),
            count == running(events@, i as int),
            -i <= count <= i,
            0 <= best_at <= i,
            best == running(events@, best_at),
            forall|k: int| 0 <= k <= i ==> running(events@, k) <= best,
        decreases events.len() - i,
    {
        if events[i].1 == START_RANK {
            count = count + 1;
        } else {
            count = count - 1;
        }
        i += 1;
        if count > best {
            best = count;
            proof {
                best_at = i as int;
            }
        }
    }
    (best, Ghost(best_at))
}

/// Computes the maximum number of jobs that are scheduled to run at the same
/// instant.
///
/// A job is active from its start up to and including `start_time + duration`,
/// so two jobs of which one begins at the instant the other ends count as
/// running together there. An empty snapshot has a maximum of zero.
pub fn maximum_number_jobs(jobs_shard: Vec<Request>) -> (max_jobs: usize)
    ensures
        max_jobs == peak_load(jobs_shard@),
        is_peak(jobs_shard@, max_jobs as nat),
        max_jobs <= jobs_shard@.len(),
        jobs_shard@.len() > 0 ==> max_jobs >= 1,
{
    let n: usize = jobs_shard.len();
    let mut events = boundary_events(&jobs_shard);
    sort_events(&mut events);
    let (best, Ghost(best_at)) = sweep(&events);
    proof {
        let jobs = jobs_shard@;
        let ev = events@;
        assert forall|t: int| #[trigger] active_at(jobs, t) <= best by {
            lemma_load_of_events(jobs, t);
            lemma_load_permutation(events_of(jobs), ev, t);
            let k = lemma_load_is_running(ev, ev.len() as int, t);
        }
        if best_at >= 1 {
            let t = ev[best_at - 1].0 as int;
            lemma_running_below_load(ev, best_at);
            lemma_load_of_events(jobs, t);
            lemma_load_permutation(events_of(jobs), ev, t);
            lemma_active_at_most_len(jobs, t);
            assert(active_at(jobs, t) == best);
        } else if jobs.len() > 0 {
            let t = jobs[0].start_time as int;
            lemma_active_at_least_one(jobs, 0, t);
            assert(active_at(jobs, t) <= best);
        } else {
            assert(active_at(jobs, 0) == best);
        }
        assert(0 <= best <= n);
        lemma_peak_unique(jobs, best as nat);
        if n > 0 {
            lemma_peak_of_nonempty(jobs);
        }
    }
    best as usize
}

/// Lists the jobs of `jobs` that are active at instant `now`, in their order.
pub fn currently_running(jobs: &Vec<Request>, now: i64) -> (running: Vec<Request>)
    ensures
        running@ == running_at(jobs@, now as int),
{
    let mut running: Vec<Request> = Vec::new();
    let mut i: usize = 0;
    while i < jobs.len()
        invariant
            0 <= i <= jobs.len(),
            running@ == running_at(jobs@.take(i as int), now as int),
        decreases jobs.len() - i,
    {
        let job = jobs[i];
        proof {
            assert(jobs@.take(i + 1).drop_last() == jobs@.take(i as int));
            assert(jobs@.take(i + 1).last() == job);
            reveal(Seq::filter);
        }
        if job.start_time <= now && now as i128 <= job.start_time as i128 + job.duration as i128 {
            running.push(job);
        }
        i += 1;
    }
    proof {
        assert(jobs@.take(jobs.len() as int) == jobs@);
    }
    running
}

/// Lists the jobs of `jobs` that are active at the present instant, which is
/// one that the clock can read.
pub fn running_now(jobs: &Vec<Request>) -> (running: Vec<Request>)
    ensures
        exists|now: int| clock_reading(now) && running@ == #[trigger] running_at(jobs@, now),
{
    let now = now_millis();
    let running = currently_running(jobs, now);
    proof {
        assert(clock_reading(now as int) && running@ == running_at(jobs@, now as int));
    }
    running
}

} // verus!
