//! Properties of feasibility that hold for every input.
use vstd::prelude::*;

use vstd::seq_lib::{commutative_foldl, lemma_fold_left_permutation};

use crate::model::{add_job_load, feasible, job_load, usage};
use crate::Job;

verus! {

/// Memory in use at every instant depends only on the multiset of jobs.
pub proof fn lemma_usage_reorder(jobs1: Seq<Job>, jobs2: Seq<Job>, t: int)
    requires
        jobs1.to_multiset() == jobs2.to_multiset(),
    ensures
        usage(jobs1, t) == usage(jobs2, t),
{
    let f = add_job_load(t);
    assert(commutative_foldl(f));
    lemma_fold_left_permutation(jobs1, jobs2, f, 0int);
}

/// Feasibility does not depend on the order in which the jobs are given:
/// two lists that hold the same jobs, as a multiset, are feasible alike.
pub proof fn lemma_feasible_reorder(memory_limit: u64, jobs1: Seq<Job>, jobs2: Seq<Job>)
    requires
        jobs1.to_multiset() == jobs2.to_multiset(),
    ensures
        feasible(memory_limit as int, jobs1) == feasible(memory_limit as int, jobs2),
{
    assert forall|t: int|
        #![trigger usage(jobs1, t)]
        #![trigger usage(jobs2, t)]
        usage(jobs1, t) == usage(jobs2, t) by {
        lemma_usage_reorder(jobs1, jobs2, t);
    }
}

/// No jobs are always feasible, whatever the budget.
pub proof fn lemma_empty_feasible(memory_limit: u64)
    ensures
        feasible(memory_limit as int, Seq::<Job>::empty()),
{
    assert forall|t: int| #[trigger] usage(Seq::<Job>::empty(), t) <= memory_limit as int by {}
}

/// Memory in use by a single job is the job's own load.
pub proof fn lemma_usage_single(job: Job, t: int)
    ensures
        usage(seq![job], t) == job_load(job, t),
{
    assert(seq![job].drop_last() =~= Seq::<Job>::empty());
    assert(Seq::<Job>::empty().fold_left(0int, add_job_load(t)) == 0);
    assert(seq![job].last() == job);
}

/// A single job of positive duration is feasible exactly when its usage fits the budget.
pub proof fn lemma_single_job(memory_limit: u64, job: Job)
    requires
        job.duration > 0,
    ensures
        feasible(memory_limit as int, seq![job]) <==> job.mem_usage <= memory_limit,
{
    lemma_usage_single(job, job.start as int);
    assert forall|t: int| job.mem_usage <= memory_limit implies #[trigger] usage(seq![job], t)
        <= memory_limit as int by {
        lemma_usage_single(job, t);
    }
}

/// A budget that suffices stays sufficient when it grows.
pub proof fn lemma_feasible_monotone(memory_limit: u64, larger_limit: u64, jobs: Seq<Job>)
    requires
        feasible(memory_limit as int, jobs),
        memory_limit <= larger_limit,
    ensures
        feasible(larger_limit as int, jobs),
{
    assert forall|t: int| #[trigger] usage(jobs, t) <= larger_limit as int by {
        assert(usage(jobs, t) <= memory_limit as int);
    }
}

/// The jobs of positive duration, in their order.
pub open spec fn lasting_jobs(jobs: Seq<Job>) -> Seq<Job> {
    jobs.filter(|j: Job| j.duration > 0)
}

/// Jobs of zero duration hold no memory at any instant.
pub proof fn lemma_usage_without_empty_jobs(jobs: Seq<Job>, t: int)
    ensures
        usage(jobs, t) == usage(lasting_jobs(jobs), t),
    decreases jobs.len(),
{
    if jobs.len() > 0 {
        let rest = jobs.drop_last();
        lemma_usage_without_empty_jobs(rest, t);
        let kept = lasting_jobs(rest);
        let last = jobs.last();
        reveal(Seq::filter);
        assert(kept.push(last).drop_last() =~= kept);
        assert(kept.push(last).last() == last);
        assert(usage(kept.push(last), t) == usage(kept, t) + job_load(last, t));
        if last.duration > 0 {
            assert(lasting_jobs(jobs) == kept.push(last));
        } else {
            assert(lasting_jobs(jobs) == kept);
        }
    }
}

/// Jobs of zero duration never affect feasibility: removing them all leaves
/// the answer unchanged.
pub proof fn lemma_feasible_without_empty_jobs(memory_limit: u64, jobs: Seq<Job>)
    ensures
        feasible(memory_limit as int, jobs) == feasible(memory_limit as int, lasting_jobs(jobs)),
{
    assert forall|t: int|
        #![trigger usage(jobs, t)]
        #![trigger usage(lasting_jobs(jobs), t)]
        usage(jobs, t) == usage(lasting_jobs(jobs), t) by {
        lemma_usage_without_empty_jobs(jobs, t);
    }
}

} // verus!
