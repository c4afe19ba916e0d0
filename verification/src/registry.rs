//! The job registry: every job submitted so far, each once, in order. It keeps
//! the jobs in a `BTreeSet`, keyed by the three fields that order them.

use vstd::prelude::*;
use std::collections::BTreeSet;
use vstd::laws_cmp::{group_laws_cmp, obeys_cmp};
use vstd::std_specs::btree::{
    axiom_increasing_seq_meaning, group_btree_axioms, increasing_seq, spec_btree_keys_iter,
};
use vstd::std_specs::cmp::OrdSpec;
use vstd::std_specs::iter::IteratorSpec;
use crate::overlap::peak_load;
use crate::Request;

verus! {

/// Each member comes strictly before the ones behind it, so none occurs twice.
pub open spec fn strictly_ordered(s: Seq<Request>) -> bool {
    forall|i: int, j: int| 0 <= i < j < s.len() ==> (#[trigger] s[i]).precedes(#[trigger] s[j])
}

/// Number of members of `s` that come before `job`.
pub open spec fn rank_in(s: Seq<Request>, job: Request) -> nat
    decreases s.len(),
{
    if s.len() == 0 {
        0
    } else {
        rank_in(s.drop_last(), job) + if s.last().precedes(job) {
            1nat
        } else {
            0nat
        }
    }
}

/// The ordered contents after `job` was submitted: unchanged where `job` is
/// already a member, otherwise with `job` behind the members that precede it.
pub open spec fn ordered_insert(s: Seq<Request>, job: Request) -> Seq<Request> {
    if s.contains(job) {
        s
    } else {
        s.insert(rank_in(s, job) as int, job)
    }
}

/// Where the first `i` members come before `job` and the others do not,
/// `i` is the rank of `job`.
proof fn lemma_rank_at_split(s: Seq<Request>, job: Request, i: int)
    requires
        0 <= i <= s.len(),
        forall|k: int| 0 <= k < i ==> (#[trigger] s[k]).precedes(job),
        forall|k: int| i <= k < s.len() ==> !(#[trigger] s[k]).precedes(job),
    ensures
        rank_in(s, job) == i,
    decreases s.len(),
{
    if s.len() > 0 {
        let front = s.drop_last();
        if i == s.len() {
            lemma_rank_at_split(front, job, i - 1);
        } else {
            lemma_rank_at_split(front, job, i);
        }
    }
}

/// In an ordered sequence the members before `job` are the first `rank_in` ones.
proof fn lemma_rank_splits(s: Seq<Request>, job: Request)
    requires
        strictly_ordered(s),
    ensures
        rank_in(s, job) <= s.len(),
        forall|k: int| 0 <= k < rank_in(s, job) ==> (#[trigger] s[k]).precedes(job),
        forall|k: int| rank_in(s, job) <= k < s.len() ==> !(#[trigger] s[k]).precedes(job),
    decreases s.len(),
{
    if s.len() > 0 {
        let front = s.drop_last();
        lemma_rank_splits(front, job);
        let r = rank_in(front, job);
        if s.last().precedes(job) {
            assert forall|k: int| 0 <= k < s.len() implies (#[trigger] s[k]).precedes(job) by {
                if k < s.len() - 1 {
                    assert(s[k].precedes(s[s.len() - 1]));
                }
            }
            lemma_rank_at_split(front, job, front.len() as int);
        } else {
            assert forall|k: int| r <= k < s.len() implies !(#[trigger] s[k]).precedes(job) by {
                if k < s.len() - 1 {
                    assert(front[k] == s[k]);
                }
            }
            assert forall|k: int| 0 <= k < r implies (#[trigger] s[k]).precedes(job) by {
                assert(front[k] == s[k]);
            }
        }
    }
}

/// Submitting a job to ordered contents leaves them ordered and adds exactly
/// that job to the set of members.
pub proof fn lemma_ordered_insert(s: Seq<Request>, job: Request)
    requires
        strictly_ordered(s),
    ensures
        strictly_ordered(ordered_insert(s, job)),
        ordered_insert(s, job).to_set() == s.to_set().insert(job),
        ordered_insert(s, job).contains(job),
        ordered_insert(s, job).len() == if s.contains(job) {
            s.len()
        } else {
            s.len() + 1
        },
{
    let r = ordered_insert(s, job);
    if s.contains(job) {
        assert(r.to_set() =~= s.to_set().insert(job));
    } else {
        lemma_rank_splits(s, job);
        let i = rank_in(s, job) as int;
        assert forall|a: int, b: int| 0 <= a < b < r.len() implies (#[trigger] r[a]).precedes(
            #[trigger] r[b],
        ) by {
            if b == i {
                assert(r[a] == s[a]);
            } else if a == i {
                assert(r[b] == s[b - 1]);
                assert(s.contains(s[b - 1]));
                assert(!s[b - 1].precedes(job));
            } else {
                let a0 = if a < i { a } else { a - 1 };
                let b0 = if b < i { b } else { b - 1 };
                assert(r[a] == s[a0] && r[b] == s[b0]);
            }
        }
        assert(r[i] == job);
        assert forall|x: Request| r.to_set().contains(x) <==> s.to_set().insert(job).contains(
            x,
        ) by {
            if r.contains(x) {
                let k = choose|k: int| 0 <= k < r.len() && r[k] == x;
                if k < i {
                    assert(s[k] == x);
                } else if k > i {
                    assert(s[k - 1] == x);
                }
            }
            if s.contains(x) {
                let k = choose|k: int| 0 <= k < s.len() && s[k] == x;
                if k < i {
                    assert(r[k] == x);
                } else {
                    assert(r[k + 1] == x);
                }
            }
        }
        assert(r.to_set() =~= s.to_set().insert(job));
    }
}

/// Submitting the same job a second time changes nothing: not the contents,
/// so neither their number nor their peak load.
pub proof fn lemma_insert_idempotent(s: Seq<Request>, job: Request)
    requires
        strictly_ordered(s),
    ensures
        ordered_insert(ordered_insert(s, job), job) == ordered_insert(s, job),
        ordered_insert(ordered_insert(s, job), job).len() == ordered_insert(s, job).len(),
        peak_load(ordered_insert(ordered_insert(s, job), job)) == peak_load(
            ordered_insert(s, job),
        ),
{
    lemma_ordered_insert(s, job);
}

/// Two ordered sequences with the same members are the same sequence.
pub proof fn lemma_ordered_unique(a: Seq<Request>, b: Seq<Request>)
    requires
        strictly_ordered(a),
        strictly_ordered(b),
        forall|r: Request| a.contains(r) <==> b.contains(r),
    ensures
        a == b,
    decreases a.len(),
{
    if a.len() == 0 {
        if b.len() > 0 {
            assert(b.contains(b[0]));
        }
        assert(a =~= b);
    } else {
        let m = a.last();
        assert(a.contains(m));
        let k = choose|k: int| 0 <= k < b.len() && b[k] == m;
        assert(b.contains(b.last()));
        let i = choose|i: int| 0 <= i < a.len() && a[i] == b.last();
        if k < b.len() - 1 {
            assert(b[k].precedes(b[b.len() - 1]));
            if i < a.len() - 1 {
                assert(a[i].precedes(a[a.len() - 1]));
            }
        }
        let a0 = a.drop_last();
        let b0 = b.drop_last();
        assert forall|r: Request| a0.contains(r) <==> b0.contains(r) by {
            if a0.contains(r) {
                let x = choose|x: int| 0 <= x < a0.len() && a0[x] == r;
                assert(a[x].precedes(a[a.len() - 1]));
                assert(a.contains(r));
                let y = choose|y: int| 0 <= y < b.len() && b[y] == r;
                assert(b0[y] == r);
            }
            if b0.contains(r) {
                let y = choose|y: int| 0 <= y < b0.len() && b0[y] == r;
                assert(b[y].precedes(b[b.len() - 1]));
                assert(b.contains(r));
                let x = choose|x: int| 0 <= x < a.len() && a[x] == r;
                assert(a0[x] == r);
            }
        }
        lemma_ordered_unique(a0, b0);
        assert(a =~= a0.push(m));
        assert(b =~= b0.push(m));
    }
}

/// The key under which a job is kept: its three fields in the order that
/// requests are compared by.
pub open spec fn key_of(r: Request) -> (i64, u64, u128) {
    (r.start_time, r.duration, r.id)
}

/// The job that is kept under a key.
pub open spec fn request_of(key: (i64, u64, u128)) -> Request {
    Request { start_time: key.0, duration: key.1, id: key.2 }
}

/// The jobs that are kept under the keys, in the order of the keys.
pub open spec fn requests_of(keys: Seq<&(i64, u64, u128)>) -> Seq<Request> {
    Seq::new(keys.len(), |i: int| request_of(*keys[i]))
}

/// In an increasing sequence an earlier member compares less than a later one.
proof fn lemma_increasing<K: Ord>(s: Seq<K>, i: int, j: int)
    requires
        obeys_cmp::<K>(),
        increasing_seq(s),
        0 <= i < j < s.len(),
    ensures
        s[i].cmp_spec(&s[j]) is Less,
{
    axiom_increasing_seq_meaning::<K>(s);
}

/// Whether `jobs` lists, in order, the jobs of exactly the keys in `set`.
pub open spec fn holds_in_order(jobs: Seq<Request>, set: Set<(i64, u64, u128)>) -> bool {
    &&& strictly_ordered(jobs)
    &&& forall|r: Request| jobs.contains(r) <==> set.contains(key_of(r))
}

/// The jobs kept under an increasing sequence of keys are ordered, and they
/// are the jobs of exactly those keys.
proof fn lemma_requests_of_keys(keys: Seq<&(i64, u64, u128)>, set: Set<(i64, u64, u128)>)
    requires
        increasing_seq(keys),
        keys.unref().to_set() == set,
    ensures
        holds_in_order(requests_of(keys), set),
{
    broadcast use group_laws_cmp;

    let jobs = requests_of(keys);
    assert(obeys_cmp::<&(i64, u64, u128)>());
    assert forall|i: int, j: int| 0 <= i < j < jobs.len() implies (#[trigger] jobs[i]).precedes(
        #[trigger] jobs[j],
    ) by {
        lemma_increasing::<&(i64, u64, u128)>(keys, i, j);
    }
    assert forall|r: Request| jobs.contains(r) <==> set.contains(key_of(r)) by {
        if jobs.contains(r) {
            let i = choose|i: int| 0 <= i < jobs.len() && jobs[i] == r;
            assert(keys.unref()[i] == key_of(r));
            assert(keys.unref().to_set().contains(key_of(r)));
        }
        if set.contains(key_of(r)) {
            assert(keys.unref().to_set().contains(key_of(r)));
            let i = choose|i: int| 0 <= i < keys.unref().len() && keys.unref()[i] == key_of(r);
            assert(jobs[i] == r);
        }
    }
}

/// Every job submitted to the server so far, each once, ordered by start
/// time, then duration, then identifier. Jobs are only ever added.
pub struct JobRegistry {
    jobs: BTreeSet<(i64, u64, u128)>,
}

impl View for JobRegistry {
    type V = Seq<Request>;

    /// The registered jobs in their order.
    closed spec fn view(&self) -> Seq<Request> {
        choose|jobs: Seq<Request>| holds_in_order(jobs, self.jobs@)
    }
}

impl JobRegistry {
    /// The view lists, in order, the jobs of exactly the keys in the set, and
    /// there are as many of the one as of the other.
    proof fn lemma_view(&self)
        ensures
            holds_in_order(self@, self.jobs@),
            self@.len() == self.jobs@.len(),
    {
        broadcast use group_btree_axioms;

        let keys = spec_btree_keys_iter(&self.jobs).remaining();
        lemma_requests_of_keys(keys, self.jobs@);
        lemma_ordered_unique(self@, requests_of(keys));
    }

    /// An empty registry.
    pub fn new() -> (registry: JobRegistry)
        ensures
            registry@ == Seq::<Request>::empty(),
    {
        broadcast use group_btree_axioms;

        let registry = JobRegistry { jobs: BTreeSet::new() };
        proof {
            registry.lemma_view();
            assert(registry@ =~= Seq::<Request>::empty());
        }
        registry
    }

    /// Number of registered jobs.
    pub fn len(&self) -> (n: usize)
        ensures
            n == self@.len(),
    {
        broadcast use group_btree_axioms;
        broadcast use group_laws_cmp;

        proof {
            self.lemma_view();
        }
        self.jobs.len()
    }

    /// Whether no job is registered.
    pub fn is_empty(&self) -> (r: bool)
        ensures
            r == (self@.len() == 0),
    {
        self.len() == 0
    }

    /// Whether `job` is registered.
    pub fn contains(&self, job: &Request) -> (r: bool)
        ensures
            r == self@.contains(*job),
    {
        broadcast use group_btree_axioms;
        broadcast use group_laws_cmp;

        proof {
            self.lemma_view();
        }
        let key = (job.start_time, job.duration, job.id);
        self.jobs.contains(&key)
    }

    /// The registered jobs, copied out in their order.
    pub fn snapshot(&self) -> (jobs: Vec<Request>)
        ensures
            jobs@ == self@,
            strictly_ordered(jobs@),
    {
        broadcast use group_btree_axioms;
        broadcast use group_laws_cmp;

        proof {
            self.lemma_view();
        }
        let ghost keys = spec_btree_keys_iter(&self.jobs).remaining();
        let mut jobs: Vec<Request> = Vec::new();
        for key in it: self.jobs.iter()
            invariant
                it.seq() == keys,
                jobs@.len() == it.index(),
                forall|i: int| 0 <= i < jobs@.len() ==> jobs@[i] == request_of(*it.seq()[i]),
        {
            jobs.push(Request { start_time: key.0, duration: key.1, id: key.2 });
        }
        proof {
            assert(jobs@ =~= requests_of(keys));
            lemma_requests_of_keys(keys, self.jobs@);
            lemma_ordered_unique(jobs@, self@);
        }
        jobs
    }

    /// Registers `job`, unless it is registered already, and returns a copy of
    /// everything that is registered then, `job` included, in order.
    ///
    /// The caller holds the registry exclusively for the length of the call,
    /// so the copy shows the registry exactly as the insertion left it.
    pub fn insert_and_snapshot(&mut self, job: Request) -> (snapshot: Vec<Request>)
        ensures
            final(self)@ == ordered_insert(old(self)@, job),
            snapshot@ == final(self)@,
            strictly_ordered(snapshot@),
            snapshot@.to_set() == old(self)@.to_set().insert(job),
            snapshot@.len() == if old(self)@.contains(job) {
                old(self)@.len()
            } else {
                old(self)@.len() + 1
            },
    {
        broadcast use group_btree_axioms;
        broadcast use group_laws_cmp;

        let ghost before = self@;
        proof {
            self.lemma_view();
            lemma_ordered_insert(before, job);
        }
        self.jobs.insert((job.start_time, job.duration, job.id));
        proof {
            self.lemma_view();
            assert forall|r: Request| self@.contains(r) <==> ordered_insert(before, job).contains(
                r,
            ) by {
                assert(ordered_insert(before, job).to_set().contains(r) <==> before.to_set().insert(
                    job,
                ).contains(r));
                assert(key_of(r) == key_of(job) <==> r == job);
            }
            lemma_ordered_unique(self@, ordered_insert(before, job));
        }
        self.snapshot()
    }
}

} // verus!
