//! The mathematical model: memory in use at each instant, and the events of the sweep.
use vstd::prelude::*;

use vstd::seq_lib::{commutative_foldl, lemma_fold_left_permutation};

use crate::{Job, MAX_JOBS};

verus! {

/// Memory that `job` holds at instant `t`.
pub open spec fn job_load(job: Job, t: int) -> int {
    if job.start <= t < job.start + job.duration {
        job.mem_usage as int
    } else {
        0
    }
}

/// The step that adds one job's load at `t` to a running total.
pub open spec fn add_job_load(t: int) -> spec_fn(int, Job) -> int {
    |acc: int, job: Job| acc + job_load(job, t)
}

/// Combined memory that `jobs` hold at instant `t`.
pub open spec fn usage(jobs: Seq<Job>, t: int) -> int {
    jobs.fold_left(0int, add_job_load(t))
}

/// The jobs never hold more than `limit` at any instant.
pub open spec fn feasible(limit: int, jobs: Seq<Job>) -> bool {
    forall|t: int| #[trigger] usage(jobs, t) <= limit
}

/// Inputs that a check can take: few enough jobs for the event codes, and
/// every end instant representable.
pub open spec fn jobs_fit(jobs: Seq<Job>) -> bool {
    &&& jobs.len() <= MAX_JOBS
    &&& forall|i: int| 0 <= i < jobs.len() ==> #[trigger] jobs[i].start + jobs[i].duration <= u64::MAX
}

/// The start event of job `i`: its start instant, and the code `2 * i`.
pub open spec fn start_event(jobs: Seq<Job>, i: int) -> (u64, u64) {
    (jobs[i].start, (2 * i) as u64)
}

/// The end event of job `i`: its end instant, and the code `2 * i + 1`.
pub open spec fn end_event(jobs: Seq<Job>, i: int) -> (u64, u64) {
    ((jobs[i].start + jobs[i].duration) as u64, (2 * i + 1) as u64)
}

/// The events of the first `k` jobs, in job order, start before end.
pub open spec fn events_of(jobs: Seq<Job>, k: int) -> Seq<(u64, u64)>
    decreases k,
{
    if k <= 0 {
        Seq::empty()
    } else {
        events_of(jobs, k - 1).push(start_event(jobs, k - 1)).push(end_event(jobs, k - 1))
    }
}

/// The change in memory in use that an event stands for: a job's usage at its
/// start, its negation at its end.
pub open spec fn event_delta(jobs: Seq<Job>, e: (u64, u64)) -> int {
    let i = (e.1 as int) / 2;
    if (e.1 as int) % 2 == 0 {
        jobs[i].mem_usage as int
    } else {
        -(jobs[i].mem_usage as int)
    }
}

/// The step that adds an event's delta to a running total when it has happened by `t`.
pub open spec fn add_event_delta(jobs: Seq<Job>, t: int) -> spec_fn(int, (u64, u64)) -> int {
    |acc: int, e: (u64, u64)|
        if e.0 <= t {
            acc + event_delta(jobs, e)
        } else {
            acc
        }
}

/// Sum of the deltas of the events in `events` that happen at or before `t`.
pub open spec fn load_after(jobs: Seq<Job>, events: Seq<(u64, u64)>, t: int) -> int {
    events.fold_left(0int, add_event_delta(jobs, t))
}

/// Events in nondecreasing order of their instants.
pub open spec fn sorted_by_time(events: Seq<(u64, u64)>) -> bool {
    forall|i: int, j: int| 0 <= i <= j < events.len() ==> events[i].0 <= events[j].0
}

/// Every event code names a job of `jobs`.
pub open spec fn codes_in_range(jobs: Seq<Job>, events: Seq<(u64, u64)>) -> bool {
    forall|j: int| 0 <= j < events.len() ==> (#[trigger] events[j].1 as int) / 2 < jobs.len()
}

/// The events of the first `k` jobs: two per job, each coded by its own position.
pub proof fn lemma_events_of_codes(jobs: Seq<Job>, k: int)
    requires
        0 <= k <= jobs.len(),
        jobs_fit(jobs),
    ensures
        events_of(jobs, k).len() == 2 * k,
        forall|j: int| 0 <= j < 2 * k ==> (#[trigger] events_of(jobs, k)[j].1) as int == j,
    decreases k,
{
    if k > 0 {
        lemma_events_of_codes(jobs, k - 1);
    }
}

/// Adding one more event to the end of a sequence adds its delta if it has happened by `t`.
pub proof fn lemma_load_push(jobs: Seq<Job>, events: Seq<(u64, u64)>, e: (u64, u64), t: int)
    ensures
        load_after(jobs, events.push(e), t) == load_after(jobs, events, t) + if e.0 <= t {
            event_delta(jobs, e)
        } else {
            0
        },
{
    assert(events.push(e).drop_last() =~= events);
}

/// The `k + 1`-st event adds its delta to the load of the first `k`.
pub proof fn lemma_load_take_step(jobs: Seq<Job>, events: Seq<(u64, u64)>, k: int, t: int)
    requires
        0 <= k < events.len(),
    ensures
        load_after(jobs, events.take(k + 1), t) == load_after(jobs, events.take(k), t)
            + if events[k].0 <= t {
            event_delta(jobs, events[k])
        } else {
            0
        },
{
    assert(events.take(k + 1) =~= events.take(k).push(events[k]));
    lemma_load_push(jobs, events.take(k), events[k], t);
}

/// Each event moves the load by at most `2^63`, whatever its sign.
pub proof fn lemma_load_bound(jobs: Seq<Job>, events: Seq<(u64, u64)>, t: int)
    requires
        codes_in_range(jobs, events),
    ensures
        -(events.len() * 0x8000_0000_0000_0000) <= load_after(jobs, events, t) <= events.len()
            * 0x8000_0000_0000_0000,
    decreases events.len(),
{
    if events.len() > 0 {
        let rest = events.drop_last();
        assert(codes_in_range(jobs, rest)) by {
            assert forall|j: int| 0 <= j < rest.len() implies (#[trigger] rest[j].1 as int) / 2
                < jobs.len() by {
                assert(rest[j] == events[j]);
            }
        }
        lemma_load_bound(jobs, rest, t);
        assert(events.last() == events[events.len() - 1]);
    }
}

/// When every event happened by `b`, the load is the same at every `t >= b`.
pub proof fn lemma_load_settled(jobs: Seq<Job>, events: Seq<(u64, u64)>, b: int, t: int)
    requires
        b <= t,
        forall|j: int| 0 <= j < events.len() ==> #[trigger] events[j].0 <= b,
    ensures
        load_after(jobs, events, t) == load_after(jobs, events, b),
    decreases events.len(),
{
    if events.len() > 0 {
        let rest = events.drop_last();
        assert forall|j: int| 0 <= j < rest.len() implies #[trigger] rest[j].0 <= b by {
            assert(rest[j] == events[j]);
        }
        lemma_load_settled(jobs, rest, b, t);
        assert(events.last() == events[events.len() - 1]);
    }
}

/// In sorted events, the events after the first that comes later than `t` add nothing at `t`.
pub proof fn lemma_load_cut(jobs: Seq<Job>, events: Seq<(u64, u64)>, k: int, m: int, t: int)
    requires
        sorted_by_time(events),
        0 <= k < events.len(),
        k <= m <= events.len(),
        t < events[k].0,
    ensures
        load_after(jobs, events.take(m), t) == load_after(jobs, events.take(k), t),
    decreases m - k,
{
    if m > k {
        lemma_load_cut(jobs, events, k, m - 1, t);
        lemma_load_take_step(jobs, events, m - 1, t);
    }
}

/// The events of the first `k` jobs add up, at every instant, to those jobs' usage.
pub proof fn lemma_events_of_load(jobs: Seq<Job>, k: int, t: int)
    requires
        0 <= k <= jobs.len(),
        jobs_fit(jobs),
    ensures
        load_after(jobs, events_of(jobs, k), t) == usage(jobs.take(k), t),
    decreases k,
{
    if k > 0 {
        lemma_events_of_load(jobs, k - 1, t);
        let prev = events_of(jobs, k - 1);
        let s = start_event(jobs, k - 1);
        let e = end_event(jobs, k - 1);
        lemma_load_push(jobs, prev, s, t);
        lemma_load_push(jobs, prev.push(s), e, t);
        assert(jobs[k - 1].start + jobs[k - 1].duration <= u64::MAX);
        assert((2 * (k - 1)) / 2 == k - 1);
        assert((2 * (k - 1) + 1) / 2 == k - 1);
        assert(jobs.take(k).drop_last() =~= jobs.take(k - 1));
        assert(jobs.take(k).last() == jobs[k - 1]);
    }
}

/// The load of any reordering of the events of `jobs` is their usage.
pub proof fn lemma_sorted_events_load(jobs: Seq<Job>, events: Seq<(u64, u64)>, t: int)
    requires
        jobs_fit(jobs),
        events.to_multiset() == events_of(jobs, jobs.len() as int).to_multiset(),
    ensures
        load_after(jobs, events, t) == usage(jobs, t),
{
    let f = add_event_delta(jobs, t);
    assert(commutative_foldl(f));
    lemma_fold_left_permutation(events_of(jobs, jobs.len() as int), events, f, 0int);
    lemma_events_of_load(jobs, jobs.len() as int, t);
    assert(jobs.take(jobs.len() as int) =~= jobs);
}

/// Every reordering of the events of `jobs` codes its events by jobs of `jobs`.
pub proof fn lemma_sorted_events_codes(jobs: Seq<Job>, events: Seq<(u64, u64)>)
    requires
        jobs_fit(jobs),
        events.to_multiset() == events_of(jobs, jobs.len() as int).to_multiset(),
    ensures
        codes_in_range(jobs, events),
        events.len() == 2 * jobs.len(),
{
    broadcast use vstd::seq_lib::group_to_multiset_ensures;

    let all = events_of(jobs, jobs.len() as int);
    lemma_events_of_codes(jobs, jobs.len() as int);
    vstd::seq_lib::to_multiset_len(events);
    vstd::seq_lib::to_multiset_len(all);
    assert forall|j: int| 0 <= j < events.len() implies (#[trigger] events[j].1 as int) / 2
        < jobs.len() by {
        assert(events.contains(events[j]));
        vstd::seq_lib::to_multiset_contains(events, events[j]);
        vstd::seq_lib::to_multiset_contains(all, events[j]);
        assert(all.contains(events[j]));
        let p = choose|p: int| 0 <= p < all.len() && all[p] == events[j];
        assert(all[p].1 as int == p);
    }
}

} // verus!
