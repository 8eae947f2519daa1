//! The order and the place that locks give to the jobs of a tour.

use vstd::prelude::*;
use crate::construction::context::Activity;
use crate::models::problem::{Lock, LockOrder, LockView, Problem};
use crate::utils::search::{lemma_first_at, spec_first_at};

verus! {

/// For each job of a list, whether it is `job`.
pub open spec fn spec_same_job(jobs: Seq<usize>, job: usize) -> Seq<bool> {
    Seq::new(jobs.len(), |k: int| jobs[k] == job)
}

/// The place among the jobs of a list of the job that a stop serves: that of
/// its first occurrence, and none where the stop serves no job of the list.
pub open spec fn spec_stop_rank(jobs: Seq<usize>, stop: Activity) -> Option<int> {
    match stop.job {
        Some(job) => spec_first_at(spec_same_job(jobs, job), jobs.len() as int),
        None => None,
    }
}

/// Whether the stops of a tour that serve jobs of a list serve them in the
/// order of the list, and none of them twice.
pub open spec fn spec_in_order(jobs: Seq<usize>, tour: Seq<Activity>) -> bool {
    forall|p: int, q: int|
        0 <= p < q < tour.len() && (#[trigger] spec_stop_rank(jobs, tour[p])) is Some && (#[trigger] spec_stop_rank(
            jobs,
            tour[q],
        )) is Some ==> spec_stop_rank(jobs, tour[p])->0 < spec_stop_rank(jobs, tour[q])->0
}

/// Whether nothing stands between the stops of a tour that serve jobs of a
/// list.
pub open spec fn spec_together(jobs: Seq<usize>, tour: Seq<Activity>) -> bool {
    forall|p: int, m: int, q: int|
        0 <= p < m < q < tour.len() && (#[trigger] spec_stop_rank(jobs, tour[p])) is Some && (
        #[trigger] spec_stop_rank(jobs, tour[q])) is Some ==> (#[trigger] spec_stop_rank(jobs, tour[m])) is Some
}

/// Whether a tour holds the jobs of a lock as the lock asks: in any order,
/// in the order of the lock, or in that order with nothing between.
pub open spec fn spec_lock_kept(lock: LockView, tour: Seq<Activity>) -> bool {
    match lock.order {
        LockOrder::Any => true,
        LockOrder::Sequence => spec_in_order(lock.jobs, tour),
        LockOrder::Strict => spec_in_order(lock.jobs, tour) && spec_together(lock.jobs, tour),
    }
}

/// Whether a tour of an actor holds the jobs of every lock of that actor as
/// the lock asks.
pub open spec fn spec_locks_kept(problem: &Problem, actor: usize, tour: Seq<Activity>) -> bool {
    forall|l: int|
        0 <= l < problem.locks@.len() && (#[trigger] problem.locks@[l]).actor == actor ==> spec_lock_kept(
            problem.locks@[l]@,
            tour,
        )
}

/// Finds the place among the jobs of a list of the job that a stop serves.
pub fn rank_of(jobs: &Vec<usize>, stop: &Activity) -> (rank: Option<usize>)
    ensures
        match rank {
            Some(place) => spec_stop_rank(jobs@, *stop) == Some(place as int),
            None => spec_stop_rank(jobs@, *stop) is None,
        },
{
    match stop.job {
        Some(job) => {
            let ghost hits = spec_same_job(jobs@, job);
            let total: usize = jobs.len();
            let mut k: usize = 0;
            while k < total
                invariant
                    k <= total,
                    total == jobs@.len(),
                    stop.job == Some(job),
                    hits == spec_same_job(jobs@, job),
                    forall|i: int| 0 <= i < k ==> !hits[i],
                decreases total - k,
            {
                if jobs[k] == job {
                    proof {
                        assert(hits[k as int]);
                        lemma_first_at(hits, total as int);
                    }
                    return Some(k);
                }
                k = k + 1;
            }
            proof {
                lemma_first_at(hits, total as int);
            }
            None
        },
        None => None,
    }
}

/// Tells whether the stops of a tour that serve jobs of a list serve them
/// in the order of the list, none of them twice.
pub fn in_order(jobs: &Vec<usize>, tour: &Vec<Activity>) -> (kept: bool)
    ensures
        kept == spec_in_order(jobs@, tour@),
{
    let mut last: Option<usize> = None;
    let ghost mut at: int = 0;
    let mut p: usize = 0;
    while p < tour.len()
        invariant
            p <= tour@.len(),
            forall|a: int, b: int|
                0 <= a < b < p && (#[trigger] spec_stop_rank(jobs@, tour@[a])) is Some && (
                #[trigger] spec_stop_rank(jobs@, tour@[b])) is Some ==> spec_stop_rank(jobs@, tour@[a])->0
                    < spec_stop_rank(jobs@, tour@[b])->0,
            last is Some ==> 0 <= at < p && spec_stop_rank(jobs@, tour@[at]) == Some(last->0 as int),
            forall|a: int|
                0 <= a < p && (#[trigger] spec_stop_rank(jobs@, tour@[a])) is Some ==> last is Some
                    && spec_stop_rank(jobs@, tour@[a])->0 <= last->0,
        decreases tour@.len() - p,
    {
        match rank_of(jobs, &tour[p]) {
            Some(rank) => {
                let behind: bool = match last {
                    Some(before) => rank <= before,
                    None => false,
                };
                if behind {
                    assert(spec_stop_rank(jobs@, tour@[at]) is Some && spec_stop_rank(jobs@, tour@[p as int]) is Some);
                    return false;
                }
                last = Some(rank);
                proof {
                    at = p as int;
                }
            },
            None => {},
        }
        p = p + 1;
    }
    true
}

/// Tells whether nothing stands between the stops of a tour that serve jobs
/// of a list.
pub fn together(jobs: &Vec<usize>, tour: &Vec<Activity>) -> (kept: bool)
    ensures
        kept == spec_together(jobs@, tour@),
{
    let mut seen: bool = false;
    let mut open: bool = false;
    let ghost mut first: int = 0;
    let ghost mut gap: int = 0;
    let mut p: usize = 0;
    while p < tour.len()
        invariant
            p <= tour@.len(),
            forall|a: int, m: int, b: int|
                0 <= a < m < b < p && (#[trigger] spec_stop_rank(jobs@, tour@[a])) is Some && (
                #[trigger] spec_stop_rank(jobs@, tour@[b])) is Some ==> (#[trigger] spec_stop_rank(
                    jobs@,
                    tour@[m],
                )) is Some,
            seen ==> 0 <= first < p && spec_stop_rank(jobs@, tour@[first]) is Some,
            !seen ==> forall|a: int| 0 <= a < p ==> (#[trigger] spec_stop_rank(jobs@, tour@[a])) is None,
            open ==> seen && first < gap < p && spec_stop_rank(jobs@, tour@[gap]) is None,
            !open ==> forall|a: int, m: int|
                0 <= a < m < p && (#[trigger] spec_stop_rank(jobs@, tour@[a])) is Some ==> (
                #[trigger] spec_stop_rank(jobs@, tour@[m])) is Some,
        decreases tour@.len() - p,
    {
        match rank_of(jobs, &tour[p]) {
            Some(_) => {
                if open {
                    assert(spec_stop_rank(jobs@, tour@[first]) is Some && spec_stop_rank(jobs@, tour@[gap]) is None
                        && spec_stop_rank(jobs@, tour@[p as int]) is Some);
                    return false;
                }
                if !seen {
                    seen = true;
                    proof {
                        first = p as int;
                    }
                }
            },
            None => {
                if seen && !open {
                    open = true;
                    proof {
                        gap = p as int;
                    }
                }
            },
        }
        p = p + 1;
    }
    true
}

/// Tells whether a tour holds the jobs of a lock as the lock asks.
pub fn lock_kept(lock: &Lock, tour: &Vec<Activity>) -> (kept: bool)
    ensures
        kept == spec_lock_kept(lock@, tour@),
{
    match lock.order {
        LockOrder::Any => true,
        LockOrder::Sequence => in_order(&lock.jobs, tour),
        LockOrder::Strict => in_order(&lock.jobs, tour) && together(&lock.jobs, tour),
    }
}

impl Problem {
    /// Tells whether a tour of an actor holds the jobs of every lock of that
    /// actor as the lock asks.
    pub fn locks_kept(&self, actor: usize, tour: &Vec<Activity>) -> (kept: bool)
        ensures
            kept == spec_locks_kept(self, actor, tour@),
    {
        let mut l: usize = 0;
        while l < self.locks.len()
            invariant
                l <= self.locks@.len(),
                forall|i: int|
                    0 <= i < l && (#[trigger] self.locks@[i]).actor == actor ==> spec_lock_kept(
                        self.locks@[i]@,
                        tour@,
                    ),
            decreases self.locks@.len() - l,
        {
            if self.locks[l].actor == actor && !lock_kept(&self.locks[l], tour) {
                return false;
            }
            l = l + 1;
        }
        true
    }
}

} // verus!
