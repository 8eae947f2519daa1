//! Insertion of jobs into a solution at the place where it costs the least.

use vstd::prelude::*;
use crate::construction::constraints::{lemma_accept_route_keeps_stops, spec_accept_route, spec_has_locking};
use crate::construction::constraints::spec_scheduled;
use crate::construction::context::{Activity, InsertionContext, RouteContext, RouteState, RouteView};
use crate::construction::context::{SolutionView, Unassigned};
use crate::construction::context::{spec_route_views, spec_routes_unique, spec_without};
use crate::construction::evaluation::{spec_candidate, spec_hard_route, spec_hard_tour, spec_soft_activity};
use crate::construction::evaluation::ActivityContext;
use crate::construction::feasibility::spec_solution_feasible;
use crate::construction::insertion_laws::{lemma_insert_required_feasible, lemma_insert_required_registry};
use crate::construction::insertion_laws::{lemma_insert_required_sound, spec_registry_sound};
use crate::construction::lock_laws::{lemma_insert_required_keeps_locks, spec_all_locks_kept};
use crate::construction::seeding::{spec_arrival_stop, spec_departure, spec_job_stop};
use crate::models::common::Cost;
use crate::models::problem::Problem;

verus! {

/// The code with which a job is left unassigned that is not a job of the
/// problem, or for which there is neither a route nor a free actor.
pub const NO_ROUTE_CODE: i32 = -1;

/// A place for a job: in front of the stop at `index` of the route at
/// `route`, at the cost `cost`.
#[derive(Clone, Copy, Debug)]
pub struct Insertion {
    pub route: usize,
    pub index: usize,
    pub cost: Cost,
}

/// The last place of a tour at which a job may go: in front of the arrival,
/// or at the end of a tour without one.
pub open spec fn spec_last_position(tour: Seq<Activity>) -> int {
    if tour.len() > 1 && tour.last().job is None {
        tour.len() - 1
    } else {
        tour.len() as int
    }
}

/// The stop and the place of the insertion of a job in front of the stop at
/// `index`.
pub open spec fn spec_insertion_ctx(problem: &Problem, tour: Seq<Activity>, job: usize, index: int) -> ActivityContext {
    ActivityContext {
        index: index as usize,
        target: spec_job_stop(problem.jobs@[job as int], job, tour[index - 1].location),
    }
}

/// Whether a job may go in front of the stop at `index` of a route: the
/// place lies behind the departure and not behind the arrival, and no module
/// objects to the tour with the job.
pub open spec fn spec_place_fits(problem: &Problem, route: RouteView, job: usize, index: int) -> bool {
    &&& 1 <= index <= spec_last_position(route.tour)
    &&& spec_hard_tour(
        problem,
        route.actor,
        spec_scheduled(
            &problem.transport,
            problem.spec_profile(route.actor),
            spec_candidate(route.tour, spec_insertion_ctx(problem, route.tour, job, index)),
        ),
        problem.constraint.modules@.len() as int,
    ) is None
}

/// Whether a job may go to a route in front of the stop at `index`: no
/// module objects to the job on the route, and the place fits.
pub open spec fn spec_feasible(problem: &Problem, route: RouteView, job: usize, index: int) -> bool {
    &&& spec_hard_route(problem, route.actor, job, problem.constraint.modules@.len() as int) is None
    &&& spec_place_fits(problem, route, job, index)
}

/// What the insertion of a job in front of the stop at `index` of a route
/// adds to the cost.
pub open spec fn spec_insertion_cost(problem: &Problem, route: RouteView, job: usize, index: int) -> Cost {
    spec_soft_activity(problem, route, spec_insertion_ctx(problem, route.tour, job, index))
}

/// Whether the place `(r1, i1)` comes before the place `(r2, i2)`.
pub open spec fn spec_before(r1: int, i1: int, r2: int, i2: int) -> bool {
    r1 < r2 || (r1 == r2 && i1 < i2)
}

/// Whether `best` is the best place for a job among the places before
/// `(route, index)`: the cheapest of those that fit, and of several that
/// cost the same the first.
pub open spec fn spec_is_best(
    problem: &Problem,
    routes: Seq<RouteView>,
    job: usize,
    best: Option<Insertion>,
    route: int,
    index: int,
) -> bool {
    match best {
        Some(found) => {
            &&& found.route < routes.len()
            &&& spec_before(found.route as int, found.index as int, route, index)
            &&& spec_feasible(problem, routes[found.route as int], job, found.index as int)
            &&& found.cost == spec_insertion_cost(
                problem,
                routes[found.route as int],
                job,
                found.index as int,
            )
            &&& forall|r: int, i: int|
                0 <= r < routes.len() && spec_before(r, i, route, index) && #[trigger] spec_feasible(
                    problem,
                    routes[r],
                    job,
                    i,
                ) ==> found.cost <= spec_insertion_cost(problem, routes[r], job, i) && (spec_before(
                    r,
                    i,
                    found.route as int,
                    found.index as int,
                ) ==> found.cost < spec_insertion_cost(problem, routes[r], job, i))
        },
        None => forall|r: int, i: int|
            0 <= r < routes.len() && spec_before(r, i, route, index) ==> !#[trigger] spec_feasible(
                problem,
                routes[r],
                job,
                i,
            ),
    }
}

/// The best place for a job in the routes: the cheapest of the places that
/// fit, of several that cost the same the first, and none where no place
/// fits.
pub open spec fn spec_found(problem: &Problem, routes: Seq<RouteView>, job: usize) -> Option<Insertion> {
    if exists|found: Insertion| spec_is_best(problem, routes, job, Some(found), routes.len() as int, 0) {
        Some(choose|found: Insertion| spec_is_best(problem, routes, job, Some(found), routes.len() as int, 0))
    } else {
        None
    }
}

/// There is only one best place.
pub proof fn lemma_best_unique(
    problem: &Problem,
    routes: Seq<RouteView>,
    job: usize,
    a: Option<Insertion>,
    b: Option<Insertion>,
    route: int,
    index: int,
)
    requires
        spec_is_best(problem, routes, job, a, route, index),
        spec_is_best(problem, routes, job, b, route, index),
    ensures
        a == b,
{
    match (a, b) {
        (Some(x), Some(y)) => {
            assert(spec_feasible(problem, routes[x.route as int], job, x.index as int));
            assert(spec_feasible(problem, routes[y.route as int], job, y.index as int));
            assert(x.cost <= y.cost && y.cost <= x.cost);
        },
        (Some(x), None) => {
            assert(spec_feasible(problem, routes[x.route as int], job, x.index as int));
        },
        (None, Some(y)) => {
            assert(spec_feasible(problem, routes[y.route as int], job, y.index as int));
        },
        (None, None) => {},
    }
}

/// What the modules say to a job in front of the stop at `index` of a
/// route.
pub open spec fn spec_place_objection(problem: &Problem, route: RouteView, job: usize, index: int) -> Option<i32> {
    spec_hard_tour(
        problem,
        route.actor,
        spec_scheduled(
            &problem.transport,
            problem.spec_profile(route.actor),
            spec_candidate(route.tour, spec_insertion_ctx(problem, route.tour, job, index)),
        ),
        problem.constraint.modules@.len() as int,
    )
}

/// The code of the last objection among the first `upto` places of a route,
/// and `code` where none objects.
pub open spec fn spec_route_objection(problem: &Problem, route: RouteView, job: usize, upto: int, code: i32) -> i32
    decreases upto,
{
    if upto <= 0 {
        code
    } else {
        match spec_place_objection(problem, route, job, upto) {
            Some(objection) => objection,
            None => spec_route_objection(problem, route, job, upto - 1, code),
        }
    }
}

/// The code of the last objection to a job in the first `upto` routes: that
/// of a route to the job, or that to the last place of the route to which
/// there was one; `NO_ROUTE_CODE` where nothing objected.
pub open spec fn spec_objection(problem: &Problem, routes: Seq<RouteView>, job: usize, upto: int) -> i32
    decreases upto,
{
    if upto <= 0 {
        NO_ROUTE_CODE
    } else {
        spec_objection_in(problem, routes[upto - 1], job, spec_objection(problem, routes, job, upto - 1))
    }
}

/// The code of the last objection after one more route was asked.
pub open spec fn spec_objection_in(problem: &Problem, route: RouteView, job: usize, code: i32) -> i32 {
    match spec_hard_route(problem, route.actor, job, problem.constraint.modules@.len() as int) {
        Some(objection) => objection,
        None => spec_route_objection(problem, route, job, spec_last_position(route.tour), code),
    }
}

/// A route with a job put in front of the stop at `index`, brought up to
/// date.
pub open spec fn spec_inserted(problem: &Problem, route: RouteView, job: usize, index: int) -> RouteView {
    spec_accept_route(
        problem,
        RouteView {
            actor: route.actor,
            tour: route.tour.insert(
                index,
                spec_job_stop(problem.jobs@[job as int], job, route.tour[index - 1].location),
            ),
            route_states: Seq::empty(),
            activity_states: Seq::empty(),
        },
    )
}

/// The route that is opened for a job: that of the first of the available
/// actors, from `from` on, that the fleet has and to whose fresh route no
/// module objects, with the job in it.
pub open spec fn spec_opened(problem: &Problem, available: Seq<usize>, job: usize, from: int) -> Option<RouteView>
    decreases available.len() - from,
{
    if from < 0 || from >= available.len() {
        None
    } else if available[from] < problem.fleet.actors@.len() && spec_feasible(
        problem,
        spec_fresh_route(problem, available[from]),
        job,
        1,
    ) {
        Some(spec_inserted(problem, spec_fresh_route(problem, available[from]), job, 1))
    } else {
        spec_opened(problem, available, job, from + 1)
    }
}

/// A solution with its first required job inserted: at the best place in
/// the routes; failing that, in a route opened for it; and failing that,
/// noted as unassigned with the code of the last objection. A job that the
/// problem does not have is noted as unassigned with `NO_ROUTE_CODE`.
pub open spec fn spec_insert_first(problem: &Problem, solution: SolutionView) -> SolutionView {
    let job = solution.required[0];
    let rest = SolutionView {
        required: solution.required.drop_first(),
        ignored: solution.ignored,
        unassigned: solution.unassigned,
        locked: solution.locked,
        routes: solution.routes,
        registry: solution.registry,
        state: solution.state,
    };
    if job >= problem.jobs@.len() {
        SolutionView { unassigned: solution.unassigned.push(Unassigned { job, code: NO_ROUTE_CODE }), ..rest }
    } else {
        match spec_found(problem, solution.routes, job) {
            Some(found) => SolutionView {
                routes: solution.routes.update(
                    found.route as int,
                    spec_inserted(problem, solution.routes[found.route as int], job, found.index as int),
                ),
                ..rest
            },
            None => match spec_opened(problem, solution.registry.available, job, 0) {
                Some(route) => SolutionView {
                    routes: solution.routes.push(route),
                    registry: crate::construction::context::RegistryView {
                        all: solution.registry.all,
                        available: spec_without(solution.registry.available, route.actor),
                    },
                    ..rest
                },
                None => SolutionView {
                    unassigned: solution.unassigned.push(
                        Unassigned {
                            job,
                            code: spec_objection(problem, solution.routes, job, solution.routes.len() as int),
                        },
                    ),
                    ..rest
                },
            },
        }
    }
}

/// A solution with its required jobs inserted, one after the other in
/// their order.
pub open spec fn spec_insert_required(problem: &Problem, solution: SolutionView) -> SolutionView
    decreases solution.required.len(),
{
    if solution.required.len() == 0 {
        solution
    } else {
        spec_insert_required(problem, spec_insert_first(problem, solution))
    }
}

/// The route of an actor without jobs: the departure and, if the actor
/// returns, the arrival.
pub open spec fn spec_fresh_route(problem: &Problem, actor: usize) -> RouteView {
    let who = problem.fleet.actors@[actor as int];
    RouteView {
        actor,
        tour: match spec_arrival_stop(who) {
            Some(arrival) => seq![spec_departure(who), arrival],
            None => seq![spec_departure(who)],
        },
        route_states: Seq::empty(),
        activity_states: Seq::empty(),
    }
}

impl Problem {
    /// The route of an actor without jobs.
    pub fn fresh_route(&self, actor: usize) -> (route: RouteContext)
        requires
            actor < self.fleet.actors@.len(),
        ensures
            route@ == spec_fresh_route(self, actor),
    {
        let who = self.fleet.actors[actor];
        let mut tour: Vec<Activity> = Vec::new();
        tour.push(Problem::departure_of(&who));
        match Problem::arrival_of(&who) {
            Some(arrival) => {
                tour.push(arrival);
            },
            None => {},
        }
        let route = RouteContext::new(actor, tour);
        assert(route@.tour =~= spec_fresh_route(self, actor).tour);
        route
    }

    /// Looks for the best place for a job in one route, given the best place
    /// in the routes before it. Where the route takes the job nowhere, the
    /// code of the last objection is handed back with it.
    pub fn best_in_route(
        &self,
        routes: &Vec<RouteContext>,
        r: usize,
        job: usize,
        best: Option<Insertion>,
        code: i32,
    ) -> (result: (Option<Insertion>, i32))
        requires
            r < routes@.len(),
            job < self.jobs@.len(),
            spec_is_best(self, spec_route_views(routes@), job, best, r as int, 0),
        ensures
            spec_is_best(self, spec_route_views(routes@), job, result.0, r as int + 1, 0),
            result.1 == spec_objection_in(self, spec_route_views(routes@)[r as int], job, code),
    {
        let ghost views = spec_route_views(routes@);
        let count: usize = routes.len();
        let route = &routes[r];
        let mut best = best;
        let ghost start = code;
        let mut code = code;
        match self.evaluate_hard_route(route, job) {
            Ok(_) => {},
            Err(objection) => {
                assert forall|i: int| !spec_feasible(self, views[r as int], job, i) by {}
                assert(spec_is_best(self, views, job, best, r as int + 1, 0)) by {
                    lemma_best_extends(self, views, job, best, r as int, 0, r as int + 1, 0);
                }
                return (best, objection);
            },
        }
        let n: usize = route.tour.len();
        let last: usize = if n > 1 && route.tour[n - 1].job.is_none() {
            n - 1
        } else {
            n
        };
        let mut k: usize = 0;
        proof {
            lemma_best_extends(self, views, job, best, r as int, 0, r as int, 1);
        }
        while k < last
            invariant
                k <= last,
                last <= n,
                views.len() == count,
                n == route.tour@.len(),
                last == spec_last_position(route.tour@),
                r < routes@.len(),
                *route == routes@[r as int],
                views == spec_route_views(routes@),
                job < self.jobs@.len(),
                spec_hard_route(self, route.actor, job, self.constraint.modules@.len() as int) is None,
                spec_is_best(self, views, job, best, r as int, k as int + 1),
                code == spec_route_objection(self, views[r as int], job, k as int, start),
            decreases last - k,
        {
            let i: usize = k + 1;
            let target = self.stop_of(job, route.tour[i - 1].location);
            let activity_ctx = ActivityContext { index: i, target };
            assert(activity_ctx == spec_insertion_ctx(self, route.tour@, job, i as int));
            let ghost before = best;
            match self.evaluate_hard_activity(route, &activity_ctx) {
                Ok(_) => {
                    let cost: Cost = self.evaluate_soft_activity(route, &activity_ctx);
                    assert(spec_feasible(self, views[r as int], job, i as int));
                    assert(cost == spec_insertion_cost(self, views[r as int], job, i as int));
                    let better: bool = match best {
                        Some(found) => cost < found.cost,
                        None => true,
                    };
                    if better {
                        best = Some(Insertion { route: r, index: i, cost });
                    }
                },
                Err(objection) => {
                    assert(!spec_feasible(self, views[r as int], job, i as int));
                    code = objection;
                },
            }
            proof {
                lemma_best_step(self, views, job, before, best, r as int, i as int);
            }
            k = k + 1;
        }
        proof {
            assert forall|k: int| k > last implies !spec_feasible(self, views[r as int], job, k) by {}
            lemma_best_extends(self, views, job, best, r as int, last as int + 1, r as int + 1, 0);
        }
        (best, code)
    }

    /// Looks for the best place for a job in the routes of a solution: the
    /// cheapest of the places that fit, and of several that cost the same the
    /// first. Where no route takes the job, the code of the last objection
    /// is handed back, or `NO_ROUTE_CODE` where nothing objected.
    pub fn find_insertion(&self, routes: &Vec<RouteContext>, job: usize) -> (result: Result<Insertion, i32>)
        requires
            job < self.jobs@.len(),
        ensures
            spec_is_best(
                self,
                spec_route_views(routes@),
                job,
                match result {
                    Ok(found) => Some(found),
                    Err(_) => None,
                },
                routes@.len() as int,
                0,
            ),
            match result {
                Ok(found) => Some(found) == spec_found(self, spec_route_views(routes@), job),
                Err(code) => spec_found(self, spec_route_views(routes@), job) is None && code
                    == spec_objection(self, spec_route_views(routes@), job, routes@.len() as int),
            },
    {
        let mut best: Option<Insertion> = None;
        let mut code: i32 = NO_ROUTE_CODE;
        let mut r: usize = 0;
        while r < routes.len()
            invariant
                r <= routes@.len(),
                job < self.jobs@.len(),
                spec_is_best(self, spec_route_views(routes@), job, best, r as int, 0),
                code == spec_objection(self, spec_route_views(routes@), job, r as int),
            decreases routes@.len() - r,
        {
            let (found, objection) = self.best_in_route(routes, r, job, best, code);
            best = found;
            code = objection;
            r = r + 1;
        }
        proof {
            let views = spec_route_views(routes@);
            match spec_found(self, views, job) {
                Some(other) => {
                    lemma_best_unique(self, views, job, best, Some(other), views.len() as int, 0);
                },
                None => {
                    if best is Some {
                        assert(spec_is_best(self, views, job, Some(best->0), views.len() as int, 0));
                    }
                },
            }
        }
        match best {
            Some(found) => Ok(found),
            None => Err(code),
        }
    }
}

/// What is best among the places before one place is best among the places
/// before a later place, if none of the places between fits.
pub proof fn lemma_best_extends(
    problem: &Problem,
    routes: Seq<RouteView>,
    job: usize,
    best: Option<Insertion>,
    r1: int,
    i1: int,
    r2: int,
    i2: int,
)
    requires
        spec_is_best(problem, routes, job, best, r1, i1),
        spec_before(r1, i1, r2, i2) || (r1 == r2 && i1 == i2),
        forall|r: int, i: int|
            0 <= r < routes.len() && !spec_before(r, i, r1, i1) && spec_before(r, i, r2, i2)
                ==> !#[trigger] spec_feasible(problem, routes[r], job, i),
    ensures
        spec_is_best(problem, routes, job, best, r2, i2),
{
}

/// The best place after one more place was looked at: the place itself if
/// it fits and is cheaper than the best before, and the best before
/// otherwise.
pub proof fn lemma_best_step(
    problem: &Problem,
    routes: Seq<RouteView>,
    job: usize,
    before: Option<Insertion>,
    after: Option<Insertion>,
    r: int,
    i: int,
)
    requires
        0 <= r < routes.len(),
        routes.len() <= usize::MAX,
        0 <= i <= usize::MAX,
        spec_is_best(problem, routes, job, before, r, i),
        if spec_feasible(problem, routes[r], job, i) && (before is None || spec_insertion_cost(
            problem,
            routes[r],
            job,
            i,
        ) < before->0.cost) {
            after == Some(
                Insertion {
                    route: r as usize,
                    index: i as usize,
                    cost: spec_insertion_cost(problem, routes[r], job, i),
                },
            )
        } else {
            after == before
        },
    ensures
        spec_is_best(problem, routes, job, after, r, i + 1),
{
    let here = spec_insertion_cost(problem, routes[r], job, i);
    let takes = spec_feasible(problem, routes[r], job, i) && (before is None || here < before->0.cost);
    match after {
        Some(found) => {
            assert forall|r0: int, i0: int|
                0 <= r0 < routes.len() && spec_before(r0, i0, r, i + 1) && #[trigger] spec_feasible(
                    problem,
                    routes[r0],
                    job,
                    i0,
                ) implies found.cost <= spec_insertion_cost(problem, routes[r0], job, i0) && (spec_before(
                r0,
                i0,
                found.route as int,
                found.index as int,
            ) ==> found.cost < spec_insertion_cost(problem, routes[r0], job, i0)) by {
                if spec_before(r0, i0, r, i) {
                    match before {
                        Some(old) => {
                            assert(old.cost <= spec_insertion_cost(problem, routes[r0], job, i0));
                            if takes {
                                assert(found.cost < old.cost);
                            } else {
                                assert(found == old);
                            }
                        },
                        None => {
                            assert(!spec_feasible(problem, routes[r0], job, i0));
                        },
                    }
                } else {
                    assert(r0 == r && i0 == i);
                    if !takes {
                        assert(before == Some(found));
                        assert(found.cost <= here);
                        assert(spec_before(found.route as int, found.index as int, r, i));
                    }
                }
            }
            if !takes {
                assert(before == Some(found));
            }
        },
        None => {
            assert(!takes);
            assert(before is None);
            assert forall|r0: int, i0: int|
                0 <= r0 < routes.len() && spec_before(r0, i0, r, i + 1) implies !#[trigger] spec_feasible(
                problem,
                routes[r0],
                job,
                i0,
            ) by {
                if !spec_before(r0, i0, r, i) {
                    assert(r0 == r && i0 == i);
                }
            }
        },
    }
}

/// Whether `after` is `before` with its first required job taken away.
pub open spec fn spec_took_first(before: SolutionView, after: SolutionView) -> bool {
    &&& before.required.len() > 0
    &&& after.required == before.required.drop_first()
    &&& after.ignored == before.ignored
    &&& after.locked == before.locked
    &&& after.state == before.state
}

/// A solution that holds no job twice still holds none twice when its
/// first required job is noted as unassigned instead, and it serves,
/// requires or leaves unassigned the same jobs.
pub proof fn lemma_move_to_unassigned(before: SolutionView, after: SolutionView, code: i32)
    requires
        before.unique(),
        spec_took_first(before, after),
        after.routes == before.routes,
        after.unassigned == before.unassigned.push(Unassigned { job: before.required[0], code }),
    ensures
        after.unique(),
        forall|job: usize| #[trigger] after.is_active(job) <==> before.is_active(job),
{
    let moved = before.required[0];
    assert(before.required.contains(moved));
    assert(before.in_one_group(moved));
    lemma_drop_first(before.required);
    assert forall|job: usize| #[trigger] after.leaves_out(job) <==> (before.leaves_out(job) || job
        == moved) by {
        if after.leaves_out(job) {
            let i = choose|i: int|
                0 <= i < after.unassigned.len() && (#[trigger] after.unassigned[i]).job == job;
            if i < before.unassigned.len() {
                assert(before.unassigned[i].job == job);
            }
        }
        if before.leaves_out(job) {
            let i = choose|i: int|
                0 <= i < before.unassigned.len() && (#[trigger] before.unassigned[i]).job == job;
            assert(after.unassigned[i].job == job);
        }
        if job == moved {
            assert(after.unassigned[before.unassigned.len() as int].job == job);
        }
    }
    assert forall|i: int, j: int| 0 <= i < j < after.unassigned.len() implies (
    #[trigger] after.unassigned[i]).job != (#[trigger] after.unassigned[j]).job by {
        if j < before.unassigned.len() {
            assert(before.unassigned[i].job != before.unassigned[j].job);
        } else {
            assert(before.unassigned[i].job == after.unassigned[i].job);
            assert(before.leaves_out(after.unassigned[i].job));
        }
    }
    assert forall|job: usize| #[trigger] after.in_one_group(job) by {
        assert(before.in_one_group(job));
    }
    assert forall|job: usize| #[trigger] after.is_active(job) <==> before.is_active(job) by {}
}

/// What is left of a list without repetition when its first item is taken
/// away: the other items, still without repetition.
pub proof fn lemma_drop_first(items: Seq<usize>)
    requires
        items.len() > 0,
        items.no_duplicates(),
    ensures
        items.drop_first().no_duplicates(),
        !items.drop_first().contains(items[0]),
        forall|x: usize| #[trigger] items.contains(x) <==> (items.drop_first().contains(x) || x == items[0]),
{
    let rest = items.drop_first();
    assert forall|x: usize| #[trigger] items.contains(x) <==> (rest.contains(x) || x == items[0]) by {
        if items.contains(x) {
            let i = choose|i: int| 0 <= i < items.len() && items[i] == x;
            if i > 0 {
                assert(rest[i - 1] == x);
            }
        }
        if rest.contains(x) {
            let i = choose|i: int| 0 <= i < rest.len() && rest[i] == x;
            assert(items[i + 1] == x);
        }
    }
    if rest.contains(items[0]) {
        let i = choose|i: int| 0 <= i < rest.len() && rest[i] == items[0];
        assert(items[i + 1] == items[0]);
    }
    assert forall|i: int, j: int| 0 <= i < rest.len() && 0 <= j < rest.len() && i != j implies rest[i]
        != rest[j] by {
        assert(items[i + 1] != items[j + 1]);
    }
}

/// A solution that holds no job twice still holds none twice when its
/// first required job is served instead by one of its routes, which serves
/// what it did before besides; and it serves, requires or leaves unassigned
/// the same jobs.
pub proof fn lemma_move_to_route(before: SolutionView, after: SolutionView, r: int)
    requires
        before.unique(),
        spec_took_first(before, after),
        after.unassigned == before.unassigned,
        0 <= r < before.routes.len(),
        after.routes.len() == before.routes.len(),
        forall|k: int| 0 <= k < before.routes.len() && k != r ==> #[trigger] after.routes[k] == before.routes[k],
        after.routes[r].tour_unique(),
        forall|job: usize|
            #[trigger] after.routes[r].serves(job) <==> (before.routes[r].serves(job) || job
                == before.required[0]),
    ensures
        after.unique(),
        forall|job: usize| #[trigger] after.is_active(job) <==> before.is_active(job),
{
    let moved = before.required[0];
    assert(before.required.contains(moved));
    assert(before.in_one_group(moved));
    lemma_drop_first(before.required);
    assert forall|job: usize| #[trigger] after.serves(job) <==> (before.serves(job) || job == moved) by {
        if after.serves(job) {
            let k = choose|k: int| 0 <= k < after.routes.len() && (#[trigger] after.routes[k]).serves(job);
            if k != r {
                assert(before.routes[k].serves(job));
            } else if job != moved {
                assert(before.routes[r].serves(job));
            }
        }
        if before.serves(job) {
            let k = choose|k: int| 0 <= k < before.routes.len() && (#[trigger] before.routes[k]).serves(job);
            if k != r {
                assert(after.routes[k].serves(job));
            } else {
                assert(after.routes[r].serves(job));
            }
        }
        if job == moved {
            assert(after.routes[r].serves(job));
        }
    }
    assert(spec_routes_unique(after.routes)) by {
        assert forall|k: int| 0 <= k < after.routes.len() implies (#[trigger] after.routes[k]).tour_unique() by {
            if k != r {
                assert(before.routes[k].tour_unique());
            }
        }
        assert forall|r1: int, r2: int, job: usize|
            0 <= r1 < after.routes.len() && 0 <= r2 < after.routes.len() && r1 != r2 && (
            #[trigger] after.routes[r1]).serves(job) implies !(#[trigger] after.routes[r2].serves(job)) by {
            if after.routes[r2].serves(job) {
                if r1 != r && r2 != r {
                    assert(before.routes[r1].serves(job) && before.routes[r2].serves(job));
                } else {
                    let other = if r1 == r {
                        r2
                    } else {
                        r1
                    };
                    assert(before.routes[other].serves(job));
                    assert(before.serves(job));
                    assert(job != moved);
                    assert(before.routes[r].serves(job));
                }
            }
        }
    }
    assert forall|job: usize| after.leaves_out(job) <==> before.leaves_out(job) by {}
    assert forall|job: usize| #[trigger] after.in_one_group(job) by {
        assert(before.in_one_group(job));
    }
    assert forall|job: usize| #[trigger] after.is_active(job) <==> before.is_active(job) by {}
}

/// A solution that holds no job twice still holds none twice when its
/// first required job is served instead by one more route, which serves
/// nothing else; and it serves, requires or leaves unassigned the same
/// jobs.
pub proof fn lemma_move_to_new_route(before: SolutionView, after: SolutionView, route: RouteView)
    requires
        before.unique(),
        spec_took_first(before, after),
        after.unassigned == before.unassigned,
        after.routes == before.routes.push(route),
        route.tour_unique(),
        forall|job: usize| #[trigger] route.serves(job) <==> job == before.required[0],
    ensures
        after.unique(),
        forall|job: usize| #[trigger] after.is_active(job) <==> before.is_active(job),
{
    let moved = before.required[0];
    let n = before.routes.len() as int;
    assert(before.required.contains(moved));
    assert(before.in_one_group(moved));
    lemma_drop_first(before.required);
    assert forall|job: usize| #[trigger] after.serves(job) <==> (before.serves(job) || job == moved) by {
        if after.serves(job) {
            let k = choose|k: int| 0 <= k < after.routes.len() && (#[trigger] after.routes[k]).serves(job);
            if k < n {
                assert(before.routes[k].serves(job));
            }
        }
        if before.serves(job) {
            let k = choose|k: int| 0 <= k < before.routes.len() && (#[trigger] before.routes[k]).serves(job);
            assert(after.routes[k].serves(job));
        }
        if job == moved {
            assert(after.routes[n].serves(job));
        }
    }
    assert(spec_routes_unique(after.routes)) by {
        assert forall|k: int| 0 <= k < after.routes.len() implies (#[trigger] after.routes[k]).tour_unique() by {
            if k < n {
                assert(before.routes[k].tour_unique());
            }
        }
        assert forall|r1: int, r2: int, job: usize|
            0 <= r1 < after.routes.len() && 0 <= r2 < after.routes.len() && r1 != r2 && (
            #[trigger] after.routes[r1]).serves(job) implies !(#[trigger] after.routes[r2].serves(job)) by {
            if after.routes[r2].serves(job) {
                if r1 < n && r2 < n {
                    assert(before.routes[r1].serves(job) && before.routes[r2].serves(job));
                } else {
                    let other = if r1 == n {
                        r2
                    } else {
                        r1
                    };
                    assert(before.routes[other].serves(job));
                    assert(before.serves(job));
                }
            }
        }
    }
    assert forall|job: usize| after.leaves_out(job) <==> before.leaves_out(job) by {}
    assert forall|job: usize| #[trigger] after.in_one_group(job) by {
        assert(before.in_one_group(job));
    }
    assert forall|job: usize| #[trigger] after.is_active(job) <==> before.is_active(job) by {}
}

/// A tour with one more stop serves what it served and the job of the
/// stop; if it served no job twice and did not serve that job, it still
/// serves none twice.
pub proof fn lemma_insert_stop(route: RouteView, index: int, stop: Activity, job: usize)
    requires
        0 <= index <= route.tour.len(),
        stop.job == Some(job),
    ensures
        ({
            let longer = RouteView {
                actor: route.actor,
                tour: route.tour.insert(index, stop),
                route_states: route.route_states,
                activity_states: route.activity_states,
            };
            &&& forall|x: usize| #[trigger] longer.serves(x) <==> (route.serves(x) || x == job)
            &&& route.tour_unique() && !route.serves(job) ==> longer.tour_unique()
        }),
{
    let tour = route.tour;
    let grown = tour.insert(index, stop);
    let longer = RouteView {
        actor: route.actor,
        tour: grown,
        route_states: route.route_states,
        activity_states: route.activity_states,
    };
    assert forall|x: usize| #[trigger] longer.serves(x) <==> (route.serves(x) || x == job) by {
        if longer.serves(x) {
            let p = choose|p: int| 0 <= p < grown.len() && (#[trigger] grown[p]).job == Some(x);
            if p < index {
                assert(tour[p].job == Some(x));
            } else if p > index {
                assert(tour[p - 1].job == Some(x));
            }
        }
        if route.serves(x) {
            let p = choose|p: int| 0 <= p < tour.len() && (#[trigger] tour[p]).job == Some(x);
            if p < index {
                assert(grown[p].job == Some(x));
            } else {
                assert(grown[p + 1].job == Some(x));
            }
        }
        if x == job {
            assert(grown[index].job == Some(x));
        }
    }
    if route.tour_unique() && !route.serves(job) {
        assert forall|p: int, q: int|
            0 <= p < q < grown.len() && (#[trigger] grown[p]).job is Some implies grown[p].job != (
        #[trigger] grown[q]).job by {
            let a = if p < index {
                p
            } else {
                p - 1
            };
            let b = if q < index {
                q
            } else {
                q - 1
            };
            if p == index {
                assert(grown[q] == tour[b]);
                if tour[b].job == Some(job) {
                    assert(route.serves(job));
                }
            } else if q == index {
                assert(grown[p] == tour[a]);
                if tour[a].job == Some(job) {
                    assert(route.serves(job));
                }
            } else {
                assert(grown[p] == tour[a] && grown[q] == tour[b]);
            }
        }
    }
}

/// A route with one more stop, brought up to date, serves what the route
/// served and the job of the stop; if the route served no job twice and did
/// not serve that job, the new route serves none twice either.
pub proof fn lemma_inserted(
    problem: &Problem,
    route: RouteView,
    grown: RouteView,
    index: int,
    stop: Activity,
    job: usize,
)
    requires
        0 <= index <= route.tour.len(),
        stop.job == Some(job),
        grown.actor == route.actor,
        grown.tour == route.tour.insert(index, stop),
    ensures
        spec_accept_route(problem, grown).actor == route.actor,
        forall|x: usize| #[trigger] spec_accept_route(problem, grown).serves(x) <==> (route.serves(x) || x == job),
        route.tour_unique() && !route.serves(job) ==> spec_accept_route(problem, grown).tour_unique(),
{
    let like = RouteView {
        actor: route.actor,
        tour: route.tour.insert(index, stop),
        route_states: route.route_states,
        activity_states: route.activity_states,
    };
    let accepted = spec_accept_route(problem, grown);
    assert(forall|x: usize| #[trigger] like.serves(x) <==> (route.serves(x) || x == job)) by {
        lemma_insert_stop(route, index, stop, job);
    }
    assert(route.tour_unique() && !route.serves(job) ==> like.tour_unique()) by {
        lemma_insert_stop(route, index, stop, job);
    }
    assert(forall|x: usize| #[trigger] accepted.serves(x) <==> grown.serves(x)) by {
        lemma_accept_route_keeps_stops(problem, grown);
    }
    assert(accepted.tour_unique() <==> grown.tour_unique()) by {
        lemma_accept_route_keeps_stops(problem, grown);
    }
    assert(accepted.actor == route.actor) by {
        lemma_accept_route_keeps_stops(problem, grown);
    }
    assert(grown.tour_unique() <==> like.tour_unique());
    assert forall|x: usize| #[trigger] accepted.serves(x) <==> (route.serves(x) || x == job) by {
        assert(grown.serves(x) <==> like.serves(x));
    }
}

/// The builder that inserts every required job at the place where it costs
/// the least.
pub struct CheapestInsertion {}

impl CheapestInsertion {
    /// The builder.
    pub fn new() -> CheapestInsertion {
        CheapestInsertion {  }
    }

    /// Puts a job into a route in front of the stop at `index` and brings
    /// the route up to date.
    pub fn insert_into(problem: &Problem, route: &RouteContext, job: usize, index: usize) -> (longer: RouteContext)
        requires
            job < problem.jobs@.len(),
            1 <= index <= route.tour@.len(),
        ensures
            longer@ == spec_inserted(problem, route@, job, index as int),
            longer.actor == route.actor,
            forall|x: usize| #[trigger] longer@.serves(x) <==> (route@.serves(x) || x == job),
            route@.tour_unique() && !route@.serves(job) ==> longer@.tour_unique(),
    {
        let target = problem.stop_of(job, route.tour[index - 1].location);
        let mut tour = route.tour.clone();
        assert(tour@ =~= route.tour@);
        tour.insert(index, target);
        let mut longer = RouteContext { actor: route.actor, tour, state: RouteState::new() };
        proof {
            lemma_inserted(problem, route@, longer@, index as int, target, job);
        }
        problem.accept_route_state(&mut longer);
        longer
    }

    /// Looks for an actor that runs no route yet and can take the job, and
    /// hands back its route with the job: the first of the available actors
    /// of the fleet to whose fresh route no module objects.
    pub fn open_route(problem: &Problem, available: &Vec<usize>, job: usize) -> (route: Option<RouteContext>)
        requires
            job < problem.jobs@.len(),
        ensures
            match route {
                Some(route) => {
                    &&& Some(route@) == spec_opened(problem, available@, job, 0)
                    &&& available@.contains(route.actor)
                    &&& route.actor < problem.fleet.actors@.len()
                    &&& spec_feasible(problem, spec_fresh_route(problem, route.actor), job, 1)
                    &&& route@.tour_unique()
                    &&& forall|x: usize| #[trigger] route@.serves(x) <==> x == job
                },
                None => spec_opened(problem, available@, job, 0) is None && forall|a: int|
                    0 <= a < available@.len() && (#[trigger] available@[a]) < problem.fleet.actors@.len()
                        ==> !spec_feasible(problem, spec_fresh_route(problem, available@[a]), job, 1),
            },
    {
        let mut a: usize = 0;
        while a < available.len()
            invariant
                a <= available@.len(),
                job < problem.jobs@.len(),
                spec_opened(problem, available@, job, 0) == spec_opened(problem, available@, job, a as int),
                forall|k: int|
                    0 <= k < a && (#[trigger] available@[k]) < problem.fleet.actors@.len() ==> !spec_feasible(
                        problem,
                        spec_fresh_route(problem, available@[k]),
                        job,
                        1,
                    ),
            decreases available@.len() - a,
        {
            let actor: usize = available[a];
            if actor < problem.fleet.actors.len() {
                let fresh = problem.fresh_route(actor);
                let admitted: bool = match problem.evaluate_hard_route(&fresh, job) {
                    Ok(_) => true,
                    Err(_) => false,
                };
                if admitted {
                    let target = problem.stop_of(job, fresh.tour[0].location);
                    let activity_ctx = ActivityContext { index: 1, target };
                    assert(activity_ctx == spec_insertion_ctx(problem, fresh.tour@, job, 1));
                    let fits: bool = match problem.evaluate_hard_activity(&fresh, &activity_ctx) {
                        Ok(_) => true,
                        Err(_) => false,
                    };
                    if fits {
                        assert(spec_feasible(problem, fresh@, job, 1));
                        assert forall|x: usize| !fresh@.serves(x) by {
                            if fresh@.serves(x) {
                                let p = choose|p: int|
                                    0 <= p < fresh@.tour.len() && (#[trigger] fresh@.tour[p]).job == Some(x);
                            }
                        }
                        assert(fresh@.tour_unique());
                        let route = Self::insert_into(problem, &fresh, job, 1);
                        assert(available@[a as int] == route.actor);
                        return Some(route);
                    }
                }
            }
            a = a + 1;
        }
        None
    }

    /// Inserts the required jobs of an individual, one after the other in
    /// their order: each goes to the place in the routes where it costs the
    /// least; if no route takes it, to a route of its own for the first
    /// available actor that can take it; and if there is none, it is noted
    /// as unassigned with the code of the last objection. Afterwards no job
    /// is required. Where the individual held no job twice, it still holds
    /// none twice, and it serves or leaves unassigned what it served, required
    /// or left unassigned before. Where no module objected to a route of the
    /// individual, none objects to a route of the result. Where no actor ran
    /// two routes and the actors without a route were the available ones,
    /// that is still so. Where a module watches the locks and every route
    /// held the jobs of the locks of its actor as the locks ask, every route
    /// still does.
    pub fn insert_required(problem: &Problem, insertion_ctx: InsertionContext) -> (result: InsertionContext)
        ensures
            result@.solution == spec_insert_required(problem, insertion_ctx@.solution),
            insertion_ctx@.solution.unique() ==> result@.solution.unique(),
            insertion_ctx@.solution.unique() ==> forall|job: usize|
                #[trigger] result@.solution.is_active(job) <==> insertion_ctx@.solution.is_active(job),
            spec_solution_feasible(problem, insertion_ctx@.solution) ==> spec_solution_feasible(
                problem,
                result@.solution,
            ),
            spec_registry_sound(problem, insertion_ctx@.solution) ==> spec_registry_sound(problem, result@.solution),
            spec_has_locking(problem.constraint.modules@) && spec_all_locks_kept(problem, insertion_ctx@.solution)
                ==> spec_all_locks_kept(problem, result@.solution),
            result@.solution.required.len() == 0,
            result@.solution.ignored == insertion_ctx@.solution.ignored,
            result@.solution.locked == insertion_ctx@.solution.locked,
            result@.random == insertion_ctx@.random,
    {
        let mut ctx = insertion_ctx;
        while ctx.solution.required.len() > 0
            invariant
                spec_insert_required(problem, ctx@.solution) == spec_insert_required(
                    problem,
                    insertion_ctx@.solution,
                ),
                ctx@.solution.ignored == insertion_ctx@.solution.ignored,
                ctx@.solution.locked == insertion_ctx@.solution.locked,
                ctx@.random == insertion_ctx@.random,
            decreases ctx@.solution.required.len(),
        {
            insert_first(problem, &mut ctx);
        }
        proof {
            if insertion_ctx@.solution.unique() {
                lemma_insert_required_sound(problem, insertion_ctx@.solution);
            }
            if spec_solution_feasible(problem, insertion_ctx@.solution) {
                lemma_insert_required_feasible(problem, insertion_ctx@.solution);
            }
            if spec_registry_sound(problem, insertion_ctx@.solution) {
                lemma_insert_required_registry(problem, insertion_ctx@.solution);
            }
            if spec_has_locking(problem.constraint.modules@) && spec_all_locks_kept(
                problem,
                insertion_ctx@.solution,
            ) {
                lemma_insert_required_keeps_locks(problem, insertion_ctx@.solution);
            }
        }
        ctx
    }
}

/// Takes the first required job of the individual and inserts it, or notes
/// it as unassigned.
fn insert_first(problem: &Problem, ctx: &mut InsertionContext)
    requires
        old(ctx)@.solution.required.len() > 0,
    ensures
        final(ctx)@.solution == spec_insert_first(problem, old(ctx)@.solution),
        final(ctx)@.random == old(ctx)@.random,
{
    let ghost before = ctx@.solution;
    let job: usize = ctx.solution.required.remove(0);
    assert(ctx.solution.required@ =~= before.required.drop_first());
    if job >= problem.jobs.len() {
        ctx.solution.unassigned.push(Unassigned { job, code: NO_ROUTE_CODE });
    } else {
        match problem.find_insertion(&ctx.solution.routes, job) {
            Ok(found) => {
                let r: usize = found.route;
                let longer = CheapestInsertion::insert_into(problem, &ctx.solution.routes[r], job, found.index);
                ctx.solution.routes.set(r, longer);
                assert(ctx@.solution.routes =~= before.routes.update(
                    r as int,
                    spec_inserted(problem, before.routes[r as int], job, found.index as int),
                ));
            },
            Err(code) => {
                match CheapestInsertion::open_route(problem, &ctx.solution.registry.available, job) {
                    Some(route) => {
                        let ghost view = route@;
                        ctx.solution.registry.use_actor(route.actor);
                        ctx.solution.routes.push(route);
                        assert(ctx@.solution.routes =~= before.routes.push(view));
                    },
                    None => {
                        ctx.solution.unassigned.push(Unassigned { job, code });
                    },
                }
            },
        }
    }
}

} // verus!
