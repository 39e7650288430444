//! The sweep: events from jobs, sorted by instant, then scanned one instant at a time.
use vstd::prelude::*;

use crate::model::{
    codes_in_range, event_delta, events_of, feasible, jobs_fit, lemma_load_bound, lemma_load_cut,
    lemma_load_settled, lemma_load_take_step, lemma_sorted_events_codes,
    lemma_sorted_events_load, load_after, sorted_by_time, usage,
};
use crate::{Job, MAX_JOBS};

verus! {

/// The start and end events of every job, coded by position as in `events_of`.
fn job_events(jobs: &Vec<Job>) -> (r: Vec<(u64, u64)>)
    requires
        jobs_fit(jobs@),
    ensures
        r@ == events_of(jobs@, jobs@.len() as int),
{
    let mut events: Vec<(u64, u64)> = Vec::new();
    let mut i: usize = 0;
    while i < jobs.len()
        invariant
            jobs_fit(jobs@),
            0 <= i <= jobs@.len(),
            events@ == events_of(jobs@, i as int),
        decreases jobs@.len() - i,
    {
        let job = jobs[i];
        assert(jobs@[i as int].start + jobs@[i as int].duration <= u64::MAX);
        let code: u64 = 2 * (i as u64);
        events.push((job.start, code));
        events.push((job.start + job.duration, code + 1));
        i = i + 1;
    }
    events
}

/// Relies on `<[T]>::sort_unstable`: it reorders the items into ascending
/// order, and pairs are ordered by their first component first.
#[verifier::external_body]
fn sort_events(events: &mut Vec<(u64, u64)>)
    ensures
        final(events)@.to_multiset() == old(events)@.to_multiset(),
        sorted_by_time(final(events)@),
{
    events.sort_unstable();
}

/// Scans events sorted by instant. The events of one instant are merged into
/// one pending delta; when a later instant comes, the pending delta must fit in
/// the memory still free, and is then taken from it.
fn sweep_sorted(memory_limit: u64, jobs: &Vec<Job>, events: &Vec<(u64, u64)>) -> (r: bool)
    requires
        jobs_fit(jobs@),
        events@.to_multiset() == events_of(jobs@, jobs@.len() as int).to_multiset(),
        sorted_by_time(events@),
    ensures
        r == feasible(memory_limit as int, jobs@),
{
    proof {
        lemma_sorted_events_codes(jobs@, events@);
    }
    let ghost limit = memory_limit as int;
    let ghost evs = events@;
    let n = events.len();
    let mut has_pending = false;
    let mut pending_time: u64 = 0;
    let mut pending: i128 = 0;
    let mut remaining: i128 = memory_limit as i128;
    let mut k: usize = 0;
    while k < n
        invariant
            n == evs.len(),
            evs == events@,
            limit == memory_limit as int,
            n == 2 * jobs@.len(),
            jobs_fit(jobs@),
            codes_in_range(jobs@, evs),
            evs.to_multiset() == events_of(jobs@, jobs@.len() as int).to_multiset(),
            sorted_by_time(evs),
            0 <= k <= n,
            has_pending <==> k > 0,
            !has_pending ==> remaining == limit,
            has_pending ==> pending_time == evs[k - 1].0,
            has_pending ==> remaining == limit - load_after(jobs@, evs.take(k as int), pending_time - 1),
            has_pending ==> pending == load_after(jobs@, evs.take(k as int), pending_time as int)
                - load_after(jobs@, evs.take(k as int), pending_time - 1),
            has_pending ==> forall|t: int|
                t < pending_time ==> #[trigger] load_after(jobs@, evs.take(k as int), t) <= limit,
        decreases n - k,
    {
        let (time, code) = events[k];
        let i = (code / 2) as usize;
        assert((evs[k as int].1 as int) / 2 < jobs@.len());
        let mem = jobs[i].mem_usage as i128;
        let delta: i128 = if code % 2 == 0 { mem } else { -mem };
        assert(delta == event_delta(jobs@, evs[k as int]));
        proof {
            assert(codes_in_range(jobs@, evs.take(k as int)));
            assert forall|t: int| #[trigger] load_after(jobs@, evs.take(k as int + 1), t)
                == load_after(jobs@, evs.take(k as int), t) + if time <= t { delta as int } else { 0 } by {
                lemma_load_take_step(jobs@, evs, k as int, t);
            }
            lemma_load_bound(jobs@, evs.take(k as int), pending_time as int);
            lemma_load_bound(jobs@, evs.take(k as int), pending_time - 1);
        }
        if has_pending && pending_time == time {
            pending = pending + delta;
            assert forall|t: int| t < time implies #[trigger] load_after(jobs@, evs.take(k as int + 1), t) <= limit by {
                assert(load_after(jobs@, evs.take(k as int), t) <= limit);
            }
        } else if has_pending {
            if pending > remaining {
                proof {
                    lemma_load_cut(jobs@, evs, k as int, n as int, pending_time as int);
                    assert(evs.take(n as int) =~= evs);
                    lemma_sorted_events_load(jobs@, evs, pending_time as int);
                    assert(load_after(jobs@, evs.take(k as int), pending_time as int) > limit);
                    assert(usage(jobs@, pending_time as int) > limit);
                    assert(!feasible(limit, jobs@));
                }
                return false;
            }
            proof {
                let prev = evs.take(k as int);
                assert forall|j: int| 0 <= j < prev.len() implies #[trigger] prev[j].0 <= pending_time by {
                    assert(prev[j] == evs[j]);
                }
                lemma_load_settled(jobs@, prev, pending_time as int, time - 1);
                lemma_load_settled(jobs@, prev, pending_time as int, time as int);
                assert forall|t: int| t < time implies #[trigger] load_after(jobs@, evs.take(k as int + 1), t) <= limit by {
                    if t >= pending_time {
                        lemma_load_settled(jobs@, prev, pending_time as int, t);
                    }
                }
            }
            remaining = remaining - pending;
            pending_time = time;
            pending = delta;
        } else {
            has_pending = true;
            pending_time = time;
            pending = delta;
            proof {
                assert(evs.take(0) =~= Seq::<(u64, u64)>::empty());
                assert forall|t: int| t < time implies #[trigger] load_after(jobs@, evs.take(k as int + 1), t) <= limit by {
                    assert(load_after(jobs@, evs.take(0), t) == 0);
                    lemma_load_take_step(jobs@, evs, 0, t);

                }
            }
        }
        k = k + 1;
    }
    if has_pending && pending > remaining {
        proof {
            assert(evs.take(n as int) =~= evs);
            lemma_sorted_events_load(jobs@, evs, pending_time as int);
            assert(usage(jobs@, pending_time as int) > limit);
        }
        return false;
    }
    proof {
        assert(evs.take(n as int) =~= evs);
        assert forall|t: int| #[trigger] usage(jobs@, t) <= limit by {
            lemma_sorted_events_load(jobs@, evs, t);
            if has_pending && t >= pending_time {
                assert forall|j: int| 0 <= j < evs.len() implies #[trigger] evs[j].0 <= pending_time by {}
                lemma_load_settled(jobs@, evs, pending_time as int, t);
            } else if !has_pending {
                assert(evs.len() == 0);
            }
        }
    }
    true
}

/// Whether `jobs` can all run without the memory they hold together ever
/// exceeding `memory_limit`.
pub fn can_process(memory_limit: u64, jobs: Vec<Job>) -> (r: bool)
    requires
        jobs_fit(jobs@),
    ensures
        r == feasible(memory_limit as int, jobs@),
{
    let mut events = job_events(&jobs);
    sort_events(&mut events);
    sweep_sorted(memory_limit, &jobs, &events)
}

/// Why a list of jobs cannot be checked.
#[derive(Debug, Clone, Copy, PartialEq, Eq, Structural)]
pub enum InvalidInput {
    /// More than `MAX_JOBS` jobs.
    TooManyJobs,
    /// The job at `index` ends after the largest representable instant.
    EndOutOfRange { index: usize },
}

/// `can_process`, with its inputs validated first: a list with too many jobs,
/// or with a job whose end instant does not fit in `u64`, is rejected.
pub fn try_can_process(memory_limit: u64, jobs: Vec<Job>) -> (r: Result<bool, InvalidInput>)
    ensures
        r is Ok <==> jobs_fit(jobs@),
        r is Ok ==> r->Ok_0 == feasible(memory_limit as int, jobs@),
        jobs@.len() > MAX_JOBS ==> r == Err::<bool, InvalidInput>(InvalidInput::TooManyJobs),
        jobs@.len() <= MAX_JOBS && !jobs_fit(jobs@) ==> exists|i: int|
            0 <= i < jobs@.len() && #[trigger] jobs@[i].start + jobs@[i].duration > u64::MAX && r
                == Err::<bool, InvalidInput>(InvalidInput::EndOutOfRange { index: i as usize })
                && forall|j: int| 0 <= j < i ==> #[trigger] jobs@[j].start + jobs@[j].duration <= u64::MAX,
{
    if jobs.len() as u64 > MAX_JOBS {
        return Err(InvalidInput::TooManyJobs);
    }
    let mut i: usize = 0;
    while i < jobs.len()
        invariant
            jobs@.len() <= MAX_JOBS,
            0 <= i <= jobs@.len(),
            forall|j: int| 0 <= j < i ==> #[trigger] jobs@[j].start + jobs@[j].duration <= u64::MAX,
        decreases jobs@.len() - i,
    {
        if jobs[i].start > u64::MAX - jobs[i].duration {
            return Err(InvalidInput::EndOutOfRange { index: i });
        }
        i = i + 1;
    }
    Ok(can_process(memory_limit, jobs))
}

} // verus!
