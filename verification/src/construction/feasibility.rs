//! When the pipeline has no objection to a route or a solution.

use vstd::prelude::*;
use crate::construction::constraints::{spec_accept_route, spec_accept_solution, spec_arrival, spec_scheduled};
use crate::construction::constraints::{spec_has_capacity, spec_has_transport, spec_times_in_order};
use crate::construction::evaluation::{lemma_accepted_tour, spec_in_time, spec_within_capacity};
use crate::construction::context::{Activity, RouteContext, RouteView, SolutionContext, SolutionView};
use crate::construction::evaluation::{spec_hard_route, spec_hard_tour};
use crate::models::common::Profile;
use crate::models::problem::{Problem, TransportCost};

verus! {

/// Whether no module objects to a job of the problem that a route serves
/// being on the route of the actor.
pub open spec fn spec_jobs_admitted(problem: &Problem, route: RouteView) -> bool {
    forall|p: int|
        0 <= p < route.tour.len() && (#[trigger] route.tour[p]).job is Some && route.tour[p].job->0
            < problem.jobs@.len() ==> spec_hard_route(
            problem,
            route.actor,
            route.tour[p].job->0,
            problem.constraint.modules@.len() as int,
        ) is None
}

/// Whether no module objects to a route: not to a job of the problem that
/// it serves on the route of its actor, and not to its tour as the pipeline
/// schedules it.
pub open spec fn spec_route_feasible(problem: &Problem, route: RouteView) -> bool {
    &&& spec_jobs_admitted(problem, route)
    &&& spec_hard_tour(
        problem,
        route.actor,
        spec_scheduled(&problem.transport, problem.spec_profile(route.actor), route.tour),
        problem.constraint.modules@.len() as int,
    ) is None
}

/// Whether no module objects to a route of the solution.
pub open spec fn spec_solution_feasible(problem: &Problem, solution: SolutionView) -> bool {
    forall|r: int| 0 <= r < solution.routes.len() ==> spec_route_feasible(problem, #[trigger] solution.routes[r])
}

/// A stop of a tour that was scheduled is reached when the schedule says.
pub proof fn lemma_arrival_of_scheduled(
    transport: &TransportCost,
    profile: Profile,
    tour: Seq<Activity>,
    position: int,
)
    requires
        0 <= position < tour.len(),
    ensures
        spec_arrival(transport, profile, spec_scheduled(transport, profile, tour), position) == spec_arrival(
            transport,
            profile,
            tour,
            position,
        ),
    decreases position,
{
    if position > 0 {
        lemma_arrival_of_scheduled(transport, profile, tour, position - 1);
    }
}

/// To schedule a tour a second time changes nothing.
pub proof fn lemma_scheduled_twice(transport: &TransportCost, profile: Profile, tour: Seq<Activity>)
    ensures
        spec_scheduled(transport, profile, spec_scheduled(transport, profile, tour)) == spec_scheduled(
            transport,
            profile,
            tour,
        ),
{
    let once = spec_scheduled(transport, profile, tour);
    let twice = spec_scheduled(transport, profile, once);
    assert forall|p: int| 0 <= p < once.len() implies twice[p] == once[p] by {
        lemma_arrival_of_scheduled(transport, profile, tour, p);
    }
    assert(twice =~= once);
}

/// The pipeline objects to a route whose derived state was brought up to
/// date exactly if it objected before.
pub proof fn lemma_accept_route_feasible(problem: &Problem, route: RouteView)
    ensures
        spec_route_feasible(problem, spec_accept_route(problem, route)) == spec_route_feasible(problem, route),
{
    lemma_scheduled_twice(&problem.transport, problem.spec_profile(route.actor), route.tour);
    let after = spec_accept_route(problem, route);
    assert(after.tour.len() == route.tour.len());
    assert forall|p: int| 0 <= p < route.tour.len() implies (#[trigger] after.tour[p]).job == route.tour[p].job by {}
    if spec_route_feasible(problem, route) {
        assert forall|p: int|
            0 <= p < after.tour.len() && (#[trigger] after.tour[p]).job is Some && after.tour[p].job->0
                < problem.jobs@.len() implies spec_hard_route(
            problem,
            after.actor,
            after.tour[p].job->0,
            problem.constraint.modules@.len() as int,
        ) is None by {
            assert(route.tour[p].job == after.tour[p].job);
        }
    }
    if spec_route_feasible(problem, after) {
        assert forall|p: int|
            0 <= p < route.tour.len() && (#[trigger] route.tour[p]).job is Some && route.tour[p].job->0
                < problem.jobs@.len() implies spec_hard_route(
            problem,
            route.actor,
            route.tour[p].job->0,
            problem.constraint.modules@.len() as int,
        ) is None by {
            assert(after.tour[p].job == route.tour[p].job);
        }
    }
}

/// The pipeline objects to a route of a solution whose derived state was
/// brought up to date exactly if it objected to one before.
pub proof fn lemma_accept_solution_feasible(problem: &Problem, solution: SolutionView)
    ensures
        spec_solution_feasible(problem, spec_accept_solution(problem, solution)) == spec_solution_feasible(
            problem,
            solution,
        ),
{
    let after = spec_accept_solution(problem, solution);
    assert forall|r: int| 0 <= r < solution.routes.len() implies spec_route_feasible(
        problem,
        #[trigger] after.routes[r],
    ) == spec_route_feasible(problem, solution.routes[r]) by {
        lemma_accept_route_feasible(problem, solution.routes[r]);
    }
    if spec_solution_feasible(problem, solution) {
        assert forall|r: int| 0 <= r < after.routes.len() implies spec_route_feasible(
            problem,
            #[trigger] after.routes[r],
        ) by {
            assert(spec_route_feasible(problem, solution.routes[r]));
        }
    }
    if spec_solution_feasible(problem, after) {
        assert forall|r: int| 0 <= r < solution.routes.len() implies spec_route_feasible(
            problem,
            #[trigger] solution.routes[r],
        ) by {
            assert(spec_route_feasible(problem, after.routes[r]));
        }
    }
}

/// With a transport module, a route to which no module objects and whose
/// derived state was brought up to date keeps the rules: its times never
/// run backwards, service nowhere begins before the time window opens, every
/// stop is reached before its time window closes, and with a module that
/// watches the load the load never exceeds the capacity of the vehicle.
pub proof fn lemma_accept_route_keeps_rules(problem: &Problem, route: RouteView)
    requires
        spec_has_transport(problem.constraint.modules@),
        spec_route_feasible(problem, route),
    ensures
        spec_times_in_order(spec_accept_route(problem, route).tour),
        spec_in_time(spec_accept_route(problem, route).tour),
        spec_has_capacity(problem.constraint.modules@) ==> spec_within_capacity(
            problem,
            route.actor,
            spec_accept_route(problem, route).tour,
        ),
{
    lemma_accepted_tour(problem, route.actor, route.tour);
}

impl Problem {
    /// Tells whether no module objects to a route.
    pub fn is_route_feasible(&self, route_ctx: &RouteContext) -> (feasible: bool)
        ensures
            feasible == spec_route_feasible(self, route_ctx@),
    {
        let mut p: usize = 0;
        while p < route_ctx.tour.len()
            invariant
                p <= route_ctx.tour@.len(),
                forall|q: int|
                    0 <= q < p && (#[trigger] route_ctx.tour@[q]).job is Some && route_ctx.tour@[q].job->0
                        < self.jobs@.len() ==> spec_hard_route(
                        self,
                        route_ctx.actor,
                        route_ctx.tour@[q].job->0,
                        self.constraint.modules@.len() as int,
                    ) is None,
            decreases route_ctx.tour@.len() - p,
        {
            match route_ctx.tour[p].job {
                Some(job) => {
                    if job < self.jobs.len() {
                        match self.evaluate_hard_route(route_ctx, job) {
                            Ok(_) => {},
                            Err(_) => {
                                assert(route_ctx@.tour[p as int].job is Some);
                                return false;
                            },
                        }
                    }
                },
                None => {},
            }
            p = p + 1;
        }
        let (scheduled, _, _) = self.schedule_tour(self.profile(route_ctx.actor), &route_ctx.tour);
        match self.evaluate_tour(route_ctx.actor, &scheduled) {
            Ok(_) => true,
            Err(_) => false,
        }
    }

    /// Tells whether no module objects to a route of a solution.
    pub fn is_feasible(&self, solution: &SolutionContext) -> (feasible: bool)
        ensures
            feasible == spec_solution_feasible(self, solution@),
    {
        let mut r: usize = 0;
        while r < solution.routes.len()
            invariant
                r <= solution.routes@.len(),
                forall|k: int| 0 <= k < r ==> spec_route_feasible(self, #[trigger] solution@.routes[k]),
            decreases solution.routes@.len() - r,
        {
            if !self.is_route_feasible(&solution.routes[r]) {
                assert(solution@.routes[r as int] == solution.routes@[r as int]@);
                return false;
            }
            assert(solution@.routes[r as int] == solution.routes@[r as int]@);
            r = r + 1;
        }
        true
    }
}

} // verus!
