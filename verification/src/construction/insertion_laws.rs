//! What the insertion of required jobs keeps: no job comes to stand twice,
//! none is lost, and routes to which no module objected stay such routes.

use vstd::prelude::*;
use crate::construction::context::{RouteView, SolutionView};
use crate::construction::evaluation::{spec_candidate, spec_hard_route};
use crate::construction::feasibility::{lemma_accept_route_feasible, spec_jobs_admitted, spec_route_feasible};
use crate::construction::feasibility::spec_solution_feasible;
use crate::construction::heuristics::{lemma_inserted, lemma_move_to_new_route, lemma_move_to_route};
use crate::construction::heuristics::{lemma_move_to_unassigned, spec_feasible, spec_found, spec_fresh_route};
use crate::construction::heuristics::{spec_insert_first, spec_insert_required, spec_inserted, spec_insertion_ctx};
use crate::construction::heuristics::{spec_is_best, spec_last_position, spec_opened, NO_ROUTE_CODE};
use crate::construction::heuristics::spec_objection;
use crate::construction::seeding::spec_job_stop;
use crate::models::problem::Problem;

verus! {

/// A route that is opened for a job serves that job and no other, once.
pub proof fn lemma_opened_serves(problem: &Problem, available: Seq<usize>, job: usize, from: int)
    requires
        job < problem.jobs@.len(),
        0 <= from,
    ensures
        match spec_opened(problem, available, job, from) {
            Some(route) => route.tour_unique() && forall|x: usize| #[trigger] route.serves(x) <==> x == job,
            None => true,
        },
    decreases available.len() - from,
{
    if from < available.len() {
        if available[from] < problem.fleet.actors@.len() && spec_feasible(
            problem,
            spec_fresh_route(problem, available[from]),
            job,
            1,
        ) {
            let fresh = spec_fresh_route(problem, available[from]);
            let stop = spec_job_stop(problem.jobs@[job as int], job, fresh.tour[0].location);
            let grown = RouteView {
                actor: fresh.actor,
                tour: fresh.tour.insert(1, stop),
                route_states: Seq::empty(),
                activity_states: Seq::empty(),
            };
            assert forall|x: usize| !fresh.serves(x) by {
                if fresh.serves(x) {
                    let p = choose|p: int| 0 <= p < fresh.tour.len() && (#[trigger] fresh.tour[p]).job == Some(x);
                    assert(fresh.tour[p].job is None);
                }
            }
            assert(fresh.tour_unique());
            lemma_inserted(problem, fresh, grown, 1, stop, job);
        } else {
            lemma_opened_serves(problem, available, job, from + 1);
        }
    }
}

/// A solution that holds no job twice still holds none twice when its first
/// required job has been inserted or noted as unassigned; it serves,
/// requires or leaves unassigned the same jobs, and ignores the same.
pub proof fn lemma_insert_first_sound(problem: &Problem, solution: SolutionView)
    requires
        solution.required.len() > 0,
        solution.unique(),
    ensures
        spec_insert_first(problem, solution).unique(),
        forall|job: usize|
            #[trigger] spec_insert_first(problem, solution).is_active(job) <==> solution.is_active(job),
        spec_insert_first(problem, solution).ignored == solution.ignored,
{
    let job = solution.required[0];
    let after = spec_insert_first(problem, solution);
    assert(solution.required.contains(job));
    assert(solution.in_one_group(job));
    if job >= problem.jobs@.len() {
        lemma_move_to_unassigned(solution, after, NO_ROUTE_CODE);
    } else {
        match spec_found(problem, solution.routes, job) {
            Some(found) => {
                let r = found.route as int;
                let index = found.index as int;
                let route = solution.routes[r];
                assert(spec_is_best(problem, solution.routes, job, Some(found), solution.routes.len() as int, 0));
                assert(1 <= index <= spec_last_position(route.tour));
                let stop = spec_job_stop(problem.jobs@[job as int], job, route.tour[index - 1].location);
                let grown = RouteView {
                    actor: route.actor,
                    tour: route.tour.insert(index, stop),
                    route_states: Seq::empty(),
                    activity_states: Seq::empty(),
                };
                assert(!route.serves(job)) by {
                    if route.serves(job) {
                        assert(solution.serves(job));
                    }
                }
                assert(route.tour_unique());
                lemma_inserted(problem, route, grown, index, stop, job);
                assert forall|k: int| 0 <= k < solution.routes.len() && k != r implies #[trigger] after.routes[k]
                    == solution.routes[k] by {}
                lemma_move_to_route(solution, after, r);
            },
            None => {
                lemma_opened_serves(problem, solution.registry.available, job, 0);
                match spec_opened(problem, solution.registry.available, job, 0) {
                    Some(route) => {
                        lemma_move_to_new_route(solution, after, route);
                    },
                    None => {
                        lemma_move_to_unassigned(
                            solution,
                            after,
                            spec_objection(problem, solution.routes, job, solution.routes.len() as int),
                        );
                    },
                }
            },
        }
    }
}

/// A solution that holds no job twice still holds none twice when all its
/// required jobs have been inserted or noted as unassigned; it serves or
/// leaves unassigned what it served, required or left unassigned before, and
/// ignores the same.
pub proof fn lemma_insert_required_sound(problem: &Problem, solution: SolutionView)
    requires
        solution.unique(),
    ensures
        spec_insert_required(problem, solution).unique(),
        forall|job: usize|
            #[trigger] spec_insert_required(problem, solution).is_active(job) <==> solution.is_active(job),
        spec_insert_required(problem, solution).ignored == solution.ignored,
        spec_insert_required(problem, solution).required.len() == 0,
    decreases solution.required.len(),
{
    if solution.required.len() > 0 {
        lemma_insert_first_sound(problem, solution);
        let next = spec_insert_first(problem, solution);
        assert(next.required.len() < solution.required.len());
        lemma_insert_required_sound(problem, next);
        let last = spec_insert_required(problem, solution);
        assert forall|job: usize| #[trigger] last.is_active(job) <==> solution.is_active(job) by {
            assert(last.is_active(job) <==> next.is_active(job));
            assert(next.is_active(job) <==> solution.is_active(job));
        }
    }
}

/// A route with a job put where it may go is a route to which no module
/// objects, if none objected to the jobs that the route served before.
pub proof fn lemma_inserted_feasible(problem: &Problem, route: RouteView, job: usize, index: usize)
    requires
        spec_jobs_admitted(problem, route),
        job < problem.jobs@.len(),
        spec_feasible(problem, route, job, index as int),
    ensures
        spec_route_feasible(problem, spec_inserted(problem, route, job, index as int)),
{
    let stop = spec_job_stop(problem.jobs@[job as int], job, route.tour[index - 1].location);
    let candidate = RouteView {
        actor: route.actor,
        tour: route.tour.insert(index as int, stop),
        route_states: Seq::empty(),
        activity_states: Seq::empty(),
    };
    lemma_accept_route_feasible(problem, candidate);
    assert(candidate.tour == spec_candidate(
        route.tour,
        spec_insertion_ctx(problem, route.tour, job, index as int),
    ));
    assert forall|p: int|
        0 <= p < candidate.tour.len() && (#[trigger] candidate.tour[p]).job is Some && candidate.tour[p].job->0
            < problem.jobs@.len() implies spec_hard_route(
        problem,
        candidate.actor,
        candidate.tour[p].job->0,
        problem.constraint.modules@.len() as int,
    ) is None by {
        if p < index {
            assert(candidate.tour[p] == route.tour[p]);
        } else if p > index {
            assert(candidate.tour[p] == route.tour[p - 1]);
        }
    }
}

/// No module objects to a route that is opened for a job.
pub proof fn lemma_opened_feasible(problem: &Problem, available: Seq<usize>, job: usize, from: int)
    requires
        job < problem.jobs@.len(),
        0 <= from,
    ensures
        match spec_opened(problem, available, job, from) {
            Some(route) => spec_route_feasible(problem, route),
            None => true,
        },
    decreases available.len() - from,
{
    if from < available.len() {
        if available[from] < problem.fleet.actors@.len() && spec_feasible(
            problem,
            spec_fresh_route(problem, available[from]),
            job,
            1,
        ) {
            lemma_inserted_feasible(problem, spec_fresh_route(problem, available[from]), job, 1);
        } else {
            lemma_opened_feasible(problem, available, job, from + 1);
        }
    }
}

/// A solution to whose routes no module objects is still one when its
/// first required job has been inserted or noted as unassigned.
pub proof fn lemma_insert_first_feasible(problem: &Problem, solution: SolutionView)
    requires
        solution.required.len() > 0,
        spec_solution_feasible(problem, solution),
    ensures
        spec_solution_feasible(problem, spec_insert_first(problem, solution)),
{
    let job = solution.required[0];
    let after = spec_insert_first(problem, solution);
    if job < problem.jobs@.len() {
        match spec_found(problem, solution.routes, job) {
            Some(found) => {
                let r = found.route as int;
                assert(spec_is_best(problem, solution.routes, job, Some(found), solution.routes.len() as int, 0));
                assert(spec_route_feasible(problem, solution.routes[r]));
                lemma_inserted_feasible(problem, solution.routes[r], job, found.index);
                assert forall|k: int| 0 <= k < after.routes.len() implies spec_route_feasible(
                    problem,
                    #[trigger] after.routes[k],
                ) by {
                    if k != r {
                        assert(after.routes[k] == solution.routes[k]);
                    }
                }
            },
            None => {
                lemma_opened_feasible(problem, solution.registry.available, job, 0);
                match spec_opened(problem, solution.registry.available, job, 0) {
                    Some(route) => {
                        assert forall|k: int| 0 <= k < after.routes.len() implies spec_route_feasible(
                            problem,
                            #[trigger] after.routes[k],
                        ) by {
                            if k < solution.routes.len() {
                                assert(after.routes[k] == solution.routes[k]);
                            }
                        }
                    },
                    None => {},
                }
            },
        }
    }
}

/// A solution to whose routes no module objects is still one when all its
/// required jobs have been inserted or noted as unassigned.
pub proof fn lemma_insert_required_feasible(problem: &Problem, solution: SolutionView)
    requires
        spec_solution_feasible(problem, solution),
    ensures
        spec_solution_feasible(problem, spec_insert_required(problem, solution)),
    decreases solution.required.len(),
{
    if solution.required.len() > 0 {
        lemma_insert_first_feasible(problem, solution);
        let next = spec_insert_first(problem, solution);
        assert(next.required.len() < solution.required.len());
        lemma_insert_required_feasible(problem, next);
    }
}

/// Whether the registry of a solution is right: no actor runs two routes,
/// and exactly those actors of the fleet that run no route are available.
pub open spec fn spec_registry_sound(problem: &Problem, solution: SolutionView) -> bool {
    &&& solution.distinct_actors()
    &&& forall|actor: usize|
        #[trigger] solution.registry.available.contains(actor) <==> (actor < problem.fleet.actors@.len()
            && !solution.uses_actor(actor))
}

/// A route that is opened for a job is run by an actor of the fleet that
/// was available.
pub proof fn lemma_opened_actor(problem: &Problem, available: Seq<usize>, job: usize, from: int)
    requires
        0 <= from,
    ensures
        match spec_opened(problem, available, job, from) {
            Some(route) => available.contains(route.actor) && route.actor < problem.fleet.actors@.len(),
            None => true,
        },
    decreases available.len() - from,
{
    if from < available.len() {
        if available[from] < problem.fleet.actors@.len() && spec_feasible(
            problem,
            spec_fresh_route(problem, available[from]),
            job,
            1,
        ) {
            let fresh = spec_fresh_route(problem, available[from]);
            let stop = spec_job_stop(problem.jobs@[job as int], job, fresh.tour[0].location);
            let grown = RouteView {
                actor: fresh.actor,
                tour: fresh.tour.insert(1, stop),
                route_states: Seq::empty(),
                activity_states: Seq::empty(),
            };
            lemma_inserted(problem, fresh, grown, 1, stop, job);
            assert(available[from] == fresh.actor);
        } else {
            lemma_opened_actor(problem, available, job, from + 1);
        }
    }
}

/// The registry of a solution is still right when the first required job
/// of the solution has been inserted or noted as unassigned.
pub proof fn lemma_insert_first_registry(problem: &Problem, solution: SolutionView)
    requires
        solution.required.len() > 0,
        spec_registry_sound(problem, solution),
    ensures
        spec_registry_sound(problem, spec_insert_first(problem, solution)),
{
    let job = solution.required[0];
    let after = spec_insert_first(problem, solution);
    if job < problem.jobs@.len() {
        match spec_found(problem, solution.routes, job) {
            Some(found) => {
                let r = found.route as int;
                let index = found.index as int;
                let route = solution.routes[r];
                assert(spec_is_best(problem, solution.routes, job, Some(found), solution.routes.len() as int, 0));
                assert(1 <= index <= spec_last_position(route.tour));
                let stop = spec_job_stop(problem.jobs@[job as int], job, route.tour[index - 1].location);
                let grown = RouteView {
                    actor: route.actor,
                    tour: route.tour.insert(index, stop),
                    route_states: Seq::empty(),
                    activity_states: Seq::empty(),
                };
                lemma_inserted(problem, route, grown, index, stop, job);
                assert forall|k: int| 0 <= k < after.routes.len() implies (#[trigger] after.routes[k]).actor
                    == solution.routes[k].actor by {}
                assert forall|actor: usize| after.uses_actor(actor) == solution.uses_actor(actor) by {
                    if after.uses_actor(actor) {
                        let k = choose|k: int| 0 <= k < after.routes.len() && (#[trigger] after.routes[k]).actor == actor;
                        assert(solution.routes[k].actor == actor);
                    }
                    if solution.uses_actor(actor) {
                        let k = choose|k: int|
                            0 <= k < solution.routes.len() && (#[trigger] solution.routes[k]).actor == actor;
                        assert(after.routes[k].actor == actor);
                    }
                }
                assert forall|r1: int, r2: int| 0 <= r1 < r2 < after.routes.len() implies (
                #[trigger] after.routes[r1]).actor != (#[trigger] after.routes[r2]).actor by {
                    assert(solution.routes[r1].actor != solution.routes[r2].actor);
                }
            },
            None => {
                lemma_opened_actor(problem, solution.registry.available, job, 0);
                match spec_opened(problem, solution.registry.available, job, 0) {
                    Some(route) => {
                        let n = solution.routes.len() as int;
                        crate::construction::context::lemma_without(solution.registry.available, route.actor);
                        assert(!solution.uses_actor(route.actor));
                        assert forall|actor: usize| after.uses_actor(actor) == (solution.uses_actor(actor)
                            || actor == route.actor) by {
                            if after.uses_actor(actor) {
                                let k = choose|k: int|
                                    0 <= k < after.routes.len() && (#[trigger] after.routes[k]).actor == actor;
                                if k < n {
                                    assert(solution.routes[k].actor == actor);
                                }
                            }
                            if solution.uses_actor(actor) {
                                let k = choose|k: int|
                                    0 <= k < solution.routes.len() && (#[trigger] solution.routes[k]).actor == actor;
                                assert(after.routes[k].actor == actor);
                            }
                            if actor == route.actor {
                                assert(after.routes[n].actor == actor);
                            }
                        }
                        assert forall|r1: int, r2: int| 0 <= r1 < r2 < after.routes.len() implies (
                        #[trigger] after.routes[r1]).actor != (#[trigger] after.routes[r2]).actor by {
                            if r2 < n {
                                assert(solution.routes[r1].actor != solution.routes[r2].actor);
                            } else {
                                assert(solution.routes[r1].actor == after.routes[r1].actor);
                                if after.routes[r1].actor == route.actor {
                                    assert(solution.uses_actor(route.actor));
                                }
                            }
                        }
                    },
                    None => {},
                }
            },
        }
    }
}

/// The registry of a solution is still right when all its required jobs
/// have been inserted or noted as unassigned.
pub proof fn lemma_insert_required_registry(problem: &Problem, solution: SolutionView)
    requires
        spec_registry_sound(problem, solution),
    ensures
        spec_registry_sound(problem, spec_insert_required(problem, solution)),
    decreases solution.required.len(),
{
    if solution.required.len() > 0 {
        lemma_insert_first_registry(problem, solution);
        let next = spec_insert_first(problem, solution);
        assert(next.required.len() < solution.required.len());
        lemma_insert_required_registry(problem, next);
    }
}

/// The insertion of the required jobs leaves the ignored jobs as they are.
pub proof fn lemma_insert_required_ignored(problem: &Problem, solution: SolutionView)
    ensures
        spec_insert_required(problem, solution).ignored == solution.ignored,
    decreases solution.required.len(),
{
    if solution.required.len() > 0 {
        let next = spec_insert_first(problem, solution);
        assert(next.required.len() < solution.required.len());
        assert(next.ignored == solution.ignored);
        lemma_insert_required_ignored(problem, next);
    }
}

} // verus!
