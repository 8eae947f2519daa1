//! The routes that locks fix hold the jobs of their locks as the locks ask,
//! and the insertion of jobs keeps it so where a module watches the locks.

use vstd::prelude::*;
use crate::construction::constraints::{lemma_accept_route_keeps_stops, spec_accept_route, spec_accept_solution};
use crate::construction::constraints::{spec_has_locking, spec_scheduled};
use crate::construction::context::{Activity, RouteView, SolutionView};
use crate::construction::evaluation::{lemma_accepted_tour, spec_candidate};
use crate::construction::heuristics::{spec_feasible, spec_found, spec_fresh_route, spec_insert_first};
use crate::construction::heuristics::{spec_insert_required, spec_inserted, spec_insertion_ctx, spec_is_best};
use crate::construction::heuristics::spec_opened;
use crate::construction::locking::{spec_in_order, spec_lock_kept, spec_locks_kept, spec_same_job};
use crate::construction::locking::{spec_stop_rank, spec_together};
use crate::construction::seeding::{spec_arrival_stop, spec_departure, spec_job_stop, spec_lock_applies};
use crate::construction::seeding::{spec_locked_routes, spec_locked_stops, spec_locked_tour, spec_seed, spec_serves};
use crate::models::problem::{Lock, Problem};
use crate::utils::search::{lemma_first_at, spec_first_at};

verus! {

/// Whether the stops behind the first serve jobs of the first `upto` of a
/// list, each at the place of its first occurrence, and in that order.
pub open spec fn spec_run(jobs: Seq<usize>, stops: Seq<Activity>, upto: int) -> bool {
    &&& stops.len() >= 1
    &&& stops[0].job is None
    &&& forall|p: int|
        1 <= p < stops.len() ==> (#[trigger] spec_stop_rank(jobs, stops[p])) is Some && spec_stop_rank(
            jobs,
            stops[p],
        )->0 < upto
    &&& forall|p: int, q: int|
        1 <= p < q < stops.len() ==> (#[trigger] spec_stop_rank(jobs, stops[p]))->0 < (#[trigger] spec_stop_rank(
            jobs,
            stops[q],
        ))->0
}

/// The stops that a lock adds to a tour that begins with a stop without a
/// job serve jobs of the lock, in the order of the lock.
pub proof fn lemma_locked_stops(problem: &Problem, first: Activity, jobs: Seq<usize>, placed: Set<usize>, upto: int)
    requires
        first.job is None,
        0 <= upto <= jobs.len(),
    ensures
        spec_run(jobs, spec_locked_stops(problem, seq![first], jobs, placed, upto), upto),
        forall|a: int|
            0 <= a < upto && jobs[a] < problem.jobs@.len() && !placed.contains(jobs[a]) ==> spec_serves(
                spec_locked_stops(problem, seq![first], jobs, placed, upto),
                #[trigger] jobs[a],
            ),
    decreases upto,
{
    let stops = spec_locked_stops(problem, seq![first], jobs, placed, upto);
    if upto > 0 {
        lemma_locked_stops(problem, first, jobs, placed, upto - 1);
        let before = spec_locked_stops(problem, seq![first], jobs, placed, upto - 1);
        let job = jobs[upto - 1];
        assert forall|p: int| 0 <= p < before.len() implies stops[p] == before[p] by {}
        if job < problem.jobs@.len() && !placed.contains(job) && !spec_serves(before, job) {
            let stop = spec_job_stop(problem.jobs@[job as int], job, before.last().location);
            assert(stops == before.push(stop));
            let hits = spec_same_job(jobs, job);
            lemma_first_at(hits, jobs.len() as int);
            assert(hits[upto - 1]);
            assert(spec_stop_rank(jobs, stop) == Some(upto - 1)) by {
                let rank = spec_first_at(hits, jobs.len() as int);
                if rank->0 < upto - 1 {
                    let a = rank->0;
                    assert(jobs[a] == job);
                    assert(spec_serves(before, jobs[a]));
                }
            }
            assert(stops[stops.len() - 1] == stop);
        }
        assert forall|a: int|
            0 <= a < upto && jobs[a] < problem.jobs@.len() && !placed.contains(jobs[a]) implies spec_serves(
            stops,
            #[trigger] jobs[a],
        ) by {
            if a < upto - 1 || spec_serves(before, jobs[a]) {
                assert(spec_serves(before, jobs[a]));
                let p = choose|p: int| 0 <= p < before.len() && (#[trigger] before[p]).job == Some(jobs[a]);
                assert(stops[p].job == Some(jobs[a]));
            } else {
                assert(stops[stops.len() - 1].job == Some(jobs[a]));
            }
        }
    }
}

/// The tour that a lock fixes holds the jobs of the lock as the lock asks.
pub proof fn lemma_locked_tour(problem: &Problem, lock: Lock, placed: Set<usize>)
    ensures
        spec_lock_kept(lock@, spec_locked_tour(problem, lock, placed)),
{
    let actor = problem.fleet.actors@[lock.actor as int];
    let jobs = lock.jobs@;
    let stops = spec_locked_stops(problem, seq![spec_departure(actor)], jobs, placed, jobs.len() as int);
    let tour = spec_locked_tour(problem, lock, placed);
    lemma_locked_stops(problem, spec_departure(actor), jobs, placed, jobs.len() as int);
    assert forall|p: int| 0 <= p < stops.len() implies tour[p] == stops[p] by {}
    assert forall|p: int| stops.len() <= p < tour.len() implies spec_stop_rank(jobs, #[trigger] tour[p]) is None by {
        assert(tour[p] == spec_arrival_stop(actor)->0);
    }
    assert(spec_stop_rank(jobs, tour[0]) is None);
    assert(spec_in_order(jobs, tour)) by {
        assert forall|p: int, q: int|
            0 <= p < q < tour.len() && (#[trigger] spec_stop_rank(jobs, tour[p])) is Some && (
            #[trigger] spec_stop_rank(jobs, tour[q])) is Some implies spec_stop_rank(jobs, tour[p])->0
            < spec_stop_rank(jobs, tour[q])->0 by {
            assert(1 <= p && q < stops.len());
            assert(spec_stop_rank(jobs, stops[p])->0 < spec_stop_rank(jobs, stops[q])->0);
        }
    }
    assert(spec_together(jobs, tour)) by {
        assert forall|p: int, m: int, q: int|
            0 <= p < m < q < tour.len() && (#[trigger] spec_stop_rank(jobs, tour[p])) is Some && (
            #[trigger] spec_stop_rank(jobs, tour[q])) is Some implies (#[trigger] spec_stop_rank(
            jobs,
            tour[m],
        )) is Some by {
            assert(1 <= p && q < stops.len());
            assert(spec_stop_rank(jobs, stops[m]) is Some);
        }
    }
}

/// Whether a route holds the jobs of a lock that fixed it as the lock asks:
/// a lock of its actor that no earlier lock of that actor comes before.
pub open spec fn spec_keeps_its_lock(problem: &Problem, route: RouteView) -> bool {
    exists|l: int|
        0 <= l < problem.locks@.len() && spec_lock_applies(problem, l) && (#[trigger] problem.locks@[l]).actor
            == route.actor && spec_lock_kept(problem.locks@[l]@, route.tour)
}

/// Every route that the first `upto` locks fix holds the jobs of its lock as
/// the lock asks.
pub proof fn lemma_locked_routes(problem: &Problem, upto: int)
    requires
        0 <= upto <= problem.locks@.len(),
    ensures
        forall|r: int|
            0 <= r < spec_locked_routes(problem, upto).len() ==> spec_keeps_its_lock(
                problem,
                #[trigger] spec_locked_routes(problem, upto)[r],
            ),
    decreases upto,
{
    if upto > 0 {
        lemma_locked_routes(problem, upto - 1);
        let before = spec_locked_routes(problem, upto - 1);
        let routes = spec_locked_routes(problem, upto);
        assert forall|r: int| 0 <= r < routes.len() implies spec_keeps_its_lock(problem, #[trigger] routes[r]) by {
            if r < before.len() {
                assert(routes[r] == before[r]);
            } else {
                let lock = problem.locks@[upto - 1];
                lemma_locked_tour(problem, lock, crate::construction::context::spec_jobs_of(before));
                assert(spec_lock_applies(problem, upto - 1));
                assert(problem.locks@[upto - 1].actor == routes[r].actor);
            }
        }
    }
}

/// A tour holds the jobs of a lock as another tour does that serves the
/// same jobs stop by stop.
pub proof fn lemma_lock_kept_alike(lock: Lock, a: Seq<Activity>, b: Seq<Activity>)
    requires
        a.len() == b.len(),
        forall|p: int| 0 <= p < a.len() ==> (#[trigger] a[p]).job == b[p].job,
    ensures
        spec_lock_kept(lock@, a) == spec_lock_kept(lock@, b),
{
    let jobs = lock.jobs@;
    assert forall|p: int| 0 <= p < a.len() implies spec_stop_rank(jobs, #[trigger] a[p]) == spec_stop_rank(
        jobs,
        b[p],
    ) by {}
    assert(spec_in_order(jobs, a) == spec_in_order(jobs, b)) by {
        if spec_in_order(jobs, a) {
            assert forall|p: int, q: int|
                0 <= p < q < b.len() && (#[trigger] spec_stop_rank(jobs, b[p])) is Some && (
                #[trigger] spec_stop_rank(jobs, b[q])) is Some implies spec_stop_rank(jobs, b[p])->0
                < spec_stop_rank(jobs, b[q])->0 by {
                assert(spec_stop_rank(jobs, a[p]) == spec_stop_rank(jobs, b[p]));
                assert(spec_stop_rank(jobs, a[q]) == spec_stop_rank(jobs, b[q]));
            }
        }
        if spec_in_order(jobs, b) {
            assert forall|p: int, q: int|
                0 <= p < q < a.len() && (#[trigger] spec_stop_rank(jobs, a[p])) is Some && (
                #[trigger] spec_stop_rank(jobs, a[q])) is Some implies spec_stop_rank(jobs, a[p])->0
                < spec_stop_rank(jobs, a[q])->0 by {
                assert(spec_stop_rank(jobs, a[p]) == spec_stop_rank(jobs, b[p]));
                assert(spec_stop_rank(jobs, a[q]) == spec_stop_rank(jobs, b[q]));
            }
        }
    }
    assert(spec_together(jobs, a) == spec_together(jobs, b)) by {
        if spec_together(jobs, a) {
            assert forall|p: int, m: int, q: int|
                0 <= p < m < q < b.len() && (#[trigger] spec_stop_rank(jobs, b[p])) is Some && (
                #[trigger] spec_stop_rank(jobs, b[q])) is Some implies (#[trigger] spec_stop_rank(
                jobs,
                b[m],
            )) is Some by {
                assert(spec_stop_rank(jobs, a[p]) == spec_stop_rank(jobs, b[p]));
                assert(spec_stop_rank(jobs, a[q]) == spec_stop_rank(jobs, b[q]));
                assert(spec_stop_rank(jobs, a[m]) == spec_stop_rank(jobs, b[m]));
            }
        }
        if spec_together(jobs, b) {
            assert forall|p: int, m: int, q: int|
                0 <= p < m < q < a.len() && (#[trigger] spec_stop_rank(jobs, a[p])) is Some && (
                #[trigger] spec_stop_rank(jobs, a[q])) is Some implies (#[trigger] spec_stop_rank(
                jobs,
                a[m],
            )) is Some by {
                assert(spec_stop_rank(jobs, a[p]) == spec_stop_rank(jobs, b[p]));
                assert(spec_stop_rank(jobs, a[q]) == spec_stop_rank(jobs, b[q]));
                assert(spec_stop_rank(jobs, a[m]) == spec_stop_rank(jobs, b[m]));
            }
        }
    }
}

/// Every route of the individual that a search starts from holds the jobs
/// of the lock that fixed it as the lock asks.
pub proof fn lemma_seed_keeps_locks(problem: &Problem)
    ensures
        forall|r: int|
            0 <= r < spec_accept_solution(problem, spec_seed(problem)).routes.len() ==> spec_keeps_its_lock(
                problem,
                #[trigger] spec_accept_solution(problem, spec_seed(problem)).routes[r],
            ),
{
    let seed = spec_seed(problem);
    let start = spec_accept_solution(problem, seed);
    lemma_locked_routes(problem, problem.locks@.len() as int);
    assert forall|r: int| 0 <= r < start.routes.len() implies spec_keeps_its_lock(
        problem,
        #[trigger] start.routes[r],
    ) by {
        let route = seed.routes[r];
        assert(spec_keeps_its_lock(problem, route));
        let l = choose|l: int|
            0 <= l < problem.locks@.len() && spec_lock_applies(problem, l) && (#[trigger] problem.locks@[l]).actor
                == route.actor && spec_lock_kept(problem.locks@[l]@, route.tour);
        lemma_accept_route_keeps_stops(problem, route);
        assert(start.routes[r] == spec_accept_route(problem, route));
        lemma_lock_kept_alike(problem.locks@[l], start.routes[r].tour, route.tour);
    }
}

/// Whether every route of a solution holds the jobs of every lock of its
/// actor as the lock asks.
pub open spec fn spec_all_locks_kept(problem: &Problem, solution: SolutionView) -> bool {
    forall|r: int|
        0 <= r < solution.routes.len() ==> spec_locks_kept(
            problem,
            (#[trigger] solution.routes[r]).actor,
            solution.routes[r].tour,
        )
}

/// Whether no two locks name the same actor.
pub open spec fn spec_one_lock_each(problem: &Problem) -> bool {
    forall|l1: int, l2: int|
        0 <= l1 < l2 < problem.locks@.len() ==> (#[trigger] problem.locks@[l1]).actor != (
        #[trigger] problem.locks@[l2]).actor
}

/// A tour holds the jobs of the locks of an actor as another tour does
/// that serves the same jobs stop by stop.
pub proof fn lemma_locks_kept_alike(problem: &Problem, actor: usize, a: Seq<Activity>, b: Seq<Activity>)
    requires
        a.len() == b.len(),
        forall|p: int| 0 <= p < a.len() ==> (#[trigger] a[p]).job == b[p].job,
    ensures
        spec_locks_kept(problem, actor, a) == spec_locks_kept(problem, actor, b),
{
    assert forall|l: int| 0 <= l < problem.locks@.len() implies spec_lock_kept(
        (#[trigger] problem.locks@[l])@,
        a,
    ) == spec_lock_kept(problem.locks@[l]@, b) by {
        lemma_lock_kept_alike(problem.locks@[l], a, b);
    }
}

/// Where no two locks name the same actor, every route of the individual
/// that a search starts from holds the jobs of every lock of its actor as
/// the lock asks.
pub proof fn lemma_seed_keeps_all_locks(problem: &Problem)
    requires
        spec_one_lock_each(problem),
    ensures
        spec_all_locks_kept(problem, spec_accept_solution(problem, spec_seed(problem))),
{
    let start = spec_accept_solution(problem, spec_seed(problem));
    lemma_seed_keeps_locks(problem);
    assert forall|r: int| 0 <= r < start.routes.len() implies spec_locks_kept(
        problem,
        (#[trigger] start.routes[r]).actor,
        start.routes[r].tour,
    ) by {
        let route = start.routes[r];
        assert(spec_keeps_its_lock(problem, route));
        let own = choose|l: int|
            0 <= l < problem.locks@.len() && spec_lock_applies(problem, l) && (#[trigger] problem.locks@[l]).actor
                == route.actor && spec_lock_kept(problem.locks@[l]@, route.tour);
        assert forall|l: int| 0 <= l < problem.locks@.len() && (#[trigger] problem.locks@[l]).actor
            == route.actor implies spec_lock_kept(problem.locks@[l]@, route.tour) by {
            if l < own {
                assert(problem.locks@[l].actor != problem.locks@[own].actor);
            } else if own < l {
                assert(problem.locks@[own].actor != problem.locks@[l].actor);
            }
        }
    }
}

/// With a module that watches the locks, a route with a job put where it
/// may go holds the jobs of every lock of its actor as the lock asks.
pub proof fn lemma_inserted_keeps_locks(problem: &Problem, route: RouteView, job: usize, index: usize)
    requires
        spec_has_locking(problem.constraint.modules@),
        job < problem.jobs@.len(),
        spec_feasible(problem, route, job, index as int),
    ensures
        spec_locks_kept(
            problem,
            spec_inserted(problem, route, job, index as int).actor,
            spec_inserted(problem, route, job, index as int).tour,
        ),
{
    let stop = spec_job_stop(problem.jobs@[job as int], job, route.tour[index - 1].location);
    let candidate = route.tour.insert(index as int, stop);
    let grown = RouteView {
        actor: route.actor,
        tour: candidate,
        route_states: Seq::empty(),
        activity_states: Seq::empty(),
    };
    let scheduled = spec_scheduled(&problem.transport, problem.spec_profile(route.actor), candidate);
    assert(candidate == spec_candidate(route.tour, spec_insertion_ctx(problem, route.tour, job, index as int)));
    lemma_accepted_tour(problem, route.actor, candidate);
    lemma_accept_route_keeps_stops(problem, grown);
    lemma_locks_kept_alike(problem, route.actor, spec_accept_route(problem, grown).tour, candidate);
    lemma_locks_kept_alike(problem, route.actor, scheduled, candidate);
}

/// With a module that watches the locks, a route that is opened for a job
/// holds the jobs of every lock of its actor as the lock asks.
pub proof fn lemma_opened_keeps_locks(problem: &Problem, available: Seq<usize>, job: usize, from: int)
    requires
        spec_has_locking(problem.constraint.modules@),
        job < problem.jobs@.len(),
        0 <= from,
    ensures
        match spec_opened(problem, available, job, from) {
            Some(route) => spec_locks_kept(problem, route.actor, route.tour),
            None => true,
        },
    decreases available.len() - from,
{
    if from < available.len() {
        if available[from] < problem.fleet.actors@.len() && spec_feasible(
            problem,
            spec_fresh_route(problem, available[from]),
            job,
            1,
        ) {
            lemma_inserted_keeps_locks(problem, spec_fresh_route(problem, available[from]), job, 1);
        } else {
            lemma_opened_keeps_locks(problem, available, job, from + 1);
        }
    }
}

/// With a module that watches the locks, a solution whose routes hold the
/// jobs of the locks as the locks ask is still one when its first required
/// job has been inserted or noted as unassigned.
pub proof fn lemma_insert_first_keeps_locks(problem: &Problem, solution: SolutionView)
    requires
        spec_has_locking(problem.constraint.modules@),
        solution.required.len() > 0,
        spec_all_locks_kept(problem, solution),
    ensures
        spec_all_locks_kept(problem, spec_insert_first(problem, solution)),
{
    let job = solution.required[0];
    let after = spec_insert_first(problem, solution);
    if job < problem.jobs@.len() {
        match spec_found(problem, solution.routes, job) {
            Some(found) => {
                let r = found.route as int;
                assert(spec_is_best(problem, solution.routes, job, Some(found), solution.routes.len() as int, 0));
                lemma_inserted_keeps_locks(problem, solution.routes[r], job, found.index);
                assert forall|k: int| 0 <= k < after.routes.len() implies spec_locks_kept(
                    problem,
                    (#[trigger] after.routes[k]).actor,
                    after.routes[k].tour,
                ) by {
                    if k != r {
                        assert(after.routes[k] == solution.routes[k]);
                    }
                }
            },
            None => {
                lemma_opened_keeps_locks(problem, solution.registry.available, job, 0);
                match spec_opened(problem, solution.registry.available, job, 0) {
                    Some(route) => {
                        assert forall|k: int| 0 <= k < after.routes.len() implies spec_locks_kept(
                            problem,
                            (#[trigger] after.routes[k]).actor,
                            after.routes[k].tour,
                        ) by {
                            if k < solution.routes.len() {
                                assert(after.routes[k] == solution.routes[k]);
                            }
                        }
                    },
                    None => {},
                }
            },
        }
    }
}

/// With a module that watches the locks, a solution whose routes hold the
/// jobs of the locks as the locks ask is still one when all its required
/// jobs have been inserted or noted as unassigned.
pub proof fn lemma_insert_required_keeps_locks(problem: &Problem, solution: SolutionView)
    requires
        spec_has_locking(problem.constraint.modules@),
        spec_all_locks_kept(problem, solution),
    ensures
        spec_all_locks_kept(problem, spec_insert_required(problem, solution)),
    decreases solution.required.len(),
{
    if solution.required.len() > 0 {
        lemma_insert_first_keeps_locks(problem, solution);
        let next = spec_insert_first(problem, solution);
        assert(next.required.len() < solution.required.len());
        lemma_insert_required_keeps_locks(problem, next);
    }
}

} // verus!
