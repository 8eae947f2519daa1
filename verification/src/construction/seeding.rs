//! The individual that a search starts from: the routes that the locks of a
//! problem fix, and every other job still to be inserted.

use vstd::prelude::*;
use crate::construction::context::{Activity, InsertionContext, Registry, RegistryView, RouteContext};
use crate::construction::context::{RouteView, SolutionContext, SolutionView};
use crate::construction::context::{spec_route_views, spec_routes_serve, spec_routes_unique};
use crate::construction::context::spec_jobs_of;
use crate::construction::constraints::{lemma_accept_solution_keeps_jobs, spec_accept_solution};
use crate::construction::insertion_laws::spec_registry_sound;
use crate::construction::lock_laws::{lemma_seed_keeps_locks, spec_keeps_its_lock};
use crate::models::common::{Location, Schedule, TimeWindow};
use crate::models::problem::{Actor, Job, Lock, LockOrder, Problem};
use crate::utils::index_set::{index_set_contains, index_set_contents, index_set_insert, index_set_new};
use crate::utils::random::Random;

verus! {

/// The stop at which an actor departs.
pub open spec fn spec_departure(actor: Actor) -> Activity {
    match actor.detail.start {
        Some(start) => Activity {
            location: start.location,
            duration: 0,
            time: TimeWindow { start: start.time, end: i64::MAX },
            schedule: Schedule { arrival: start.time, departure: start.time },
            job: None,
            pause: false,
        },
        None => Activity {
            location: 0,
            duration: 0,
            time: TimeWindow { start: 0, end: i64::MAX },
            schedule: Schedule { arrival: 0, departure: 0 },
            job: None,
            pause: false,
        },
    }
}

/// The stop at which an actor arrives, if it has to return.
pub open spec fn spec_arrival_stop(actor: Actor) -> Option<Activity> {
    match actor.detail.end {
        Some(end) => Some(
            Activity {
                location: end.location,
                duration: 0,
                time: TimeWindow { start: 0, end: end.time },
                schedule: Schedule { arrival: 0, departure: 0 },
                job: None,
                pause: false,
            },
        ),
        None => None,
    }
}

/// The stop that serves a job: at the place of the job, or, for a job
/// without a place, where the vehicle was before.
pub open spec fn spec_job_stop(job: Job, index: usize, previous: Location) -> Activity {
    Activity {
        location: match job.location {
            Some(location) => location,
            None => previous,
        },
        duration: job.duration,
        time: job.time,
        schedule: Schedule { arrival: 0, departure: 0 },
        job: Some(index),
        pause: job.kind is Break,
    }
}

/// The stops of a tour that begins with `tour` and then serves those of the
/// first `upto` jobs of a lock that the problem has and that `placed` does
/// not hold, each once, in the order of the lock.
pub open spec fn spec_locked_stops(problem: &Problem, tour: Seq<Activity>, jobs: Seq<usize>, placed: Set<usize>, upto: int) -> Seq<Activity>
    decreases upto,
{
    if upto <= 0 {
        tour
    } else {
        let before = spec_locked_stops(problem, tour, jobs, placed, upto - 1);
        let job = jobs[upto - 1];
        if job < problem.jobs@.len() && !placed.contains(job) && !spec_serves(before, job) {
            before.push(spec_job_stop(problem.jobs@[job as int], job, before.last().location))
        } else {
            before
        }
    }
}

/// Whether a stop of the tour serves `job`.
pub open spec fn spec_serves(tour: Seq<Activity>, job: usize) -> bool {
    exists|p: int| 0 <= p < tour.len() && (#[trigger] tour[p]).job == Some(job)
}

/// The tour that a lock fixes for its actor: the departure, the jobs of the
/// lock that are still to be placed, and the arrival if the actor returns.
pub open spec fn spec_locked_tour(problem: &Problem, lock: Lock, placed: Set<usize>) -> Seq<Activity> {
    let actor = problem.fleet.actors@[lock.actor as int];
    let stops = spec_locked_stops(
        problem,
        seq![spec_departure(actor)],
        lock.jobs@,
        placed,
        lock.jobs@.len() as int,
    );
    match spec_arrival_stop(actor) {
        Some(arrival) => stops.push(arrival),
        None => stops,
    }
}

/// Whether the lock at `l` fixes a route: its actor is one of the fleet and
/// no earlier lock names it.
pub open spec fn spec_lock_applies(problem: &Problem, l: int) -> bool {
    &&& problem.locks@[l].actor < problem.fleet.actors@.len()
    &&& forall|e: int| 0 <= e < l ==> (#[trigger] problem.locks@[e]).actor != problem.locks@[l].actor
}

/// The routes that the first `upto` locks fix, one for each lock that
/// applies, in the order of the locks.
pub open spec fn spec_locked_routes(problem: &Problem, upto: int) -> Seq<RouteView>
    decreases upto,
{
    if upto <= 0 {
        Seq::empty()
    } else {
        let before = spec_locked_routes(problem, upto - 1);
        if spec_lock_applies(problem, upto - 1) {
            before.push(
                RouteView {
                    actor: problem.locks@[upto - 1].actor,
                    tour: spec_locked_tour(problem, problem.locks@[upto - 1], spec_jobs_of(before)),
                    route_states: Seq::empty(),
                    activity_states: Seq::empty(),
                },
            )
        } else {
            before
        }
    }
}

/// The jobs among the first `upto` that no route serves, in their order.
pub open spec fn spec_unplaced(routes: Seq<RouteView>, upto: int) -> Seq<usize>
    decreases upto,
{
    if upto <= 0 {
        Seq::empty()
    } else if spec_routes_serve(routes, (upto - 1) as usize) {
        spec_unplaced(routes, upto - 1)
    } else {
        spec_unplaced(routes, upto - 1).push((upto - 1) as usize)
    }
}

/// The jobs that locks hold in their tours for good: those that the first
/// `upto` stops of a tour serve, if the lock is not of the order `Any`.
pub open spec fn spec_held_jobs(locked: Seq<usize>, order: LockOrder, tour: Seq<Activity>, upto: int) -> Seq<usize>
    decreases upto,
{
    if upto <= 0 {
        locked
    } else {
        let before = spec_held_jobs(locked, order, tour, upto - 1);
        match tour[upto - 1].job {
            Some(job) => if order is Any {
                before
            } else {
                before.push(job)
            },
            None => before,
        }
    }
}

/// The locked jobs after the first `upto` locks.
pub open spec fn spec_locked_jobs(problem: &Problem, upto: int) -> Seq<usize>
    decreases upto,
{
    if upto <= 0 {
        Seq::empty()
    } else {
        let before = spec_locked_jobs(problem, upto - 1);
        if spec_lock_applies(problem, upto - 1) {
            let tour = spec_locked_tour(
                problem,
                problem.locks@[upto - 1],
                spec_jobs_of(spec_locked_routes(problem, upto - 1)),
            );
            spec_held_jobs(before, problem.locks@[upto - 1].order, tour, tour.len() as int)
        } else {
            before
        }
    }
}

/// The solution that a search on `problem` starts from, before its derived
/// state is brought up to date: the routes that the locks fix, every other
/// job required, and the actors of those routes in use.
pub open spec fn spec_seed(problem: &Problem) -> SolutionView {
    let routes = spec_locked_routes(problem, problem.locks@.len() as int);
    SolutionView {
        required: spec_unplaced(routes, problem.jobs@.len() as int),
        ignored: Seq::empty(),
        unassigned: Seq::empty(),
        locked: spec_locked_jobs(problem, problem.locks@.len() as int),
        routes,
        registry: RegistryView {
            all: Seq::new(problem.fleet.actors@.len(), |a: int| a as usize),
            available: crate::solver::merging::spec_use_routes(
                Seq::new(problem.fleet.actors@.len(), |a: int| a as usize),
                routes,
                routes.len() as int,
            ),
        },
        state: Seq::empty(),
    }
}

/// Whether a list of routes was built well: no job twice, only jobs of the
/// problem, no actor twice.
pub open spec fn spec_seeded_well(problem: &Problem, routes: Seq<RouteView>) -> bool {
    &&& spec_routes_unique(routes)
    &&& forall|job: usize| #[trigger] spec_routes_serve(routes, job) ==> job < problem.jobs@.len()
    &&& forall|r1: int, r2: int|
        0 <= r1 < r2 < routes.len() ==> (#[trigger] routes[r1]).actor != (#[trigger] routes[r2]).actor
}

/// The jobs among the first `upto` that no route serves are exactly those,
/// each once.
pub proof fn lemma_unplaced(routes: Seq<RouteView>, upto: int)
    requires
        0 <= upto <= usize::MAX,
    ensures
        spec_unplaced(routes, upto).no_duplicates(),
        forall|job: usize|
            #[trigger] spec_unplaced(routes, upto).contains(job) <==> (job < upto && !spec_routes_serve(
                routes,
                job,
            )),
    decreases upto,
{
    if upto > 0 {
        lemma_unplaced(routes, upto - 1);
        let before = spec_unplaced(routes, upto - 1);
        let list = spec_unplaced(routes, upto);
        let last = (upto - 1) as usize;
        assert forall|job: usize| #[trigger] list.contains(job) <==> (job < upto && !spec_routes_serve(
            routes,
            job,
        )) by {
            if list.contains(job) {
                let i = choose|i: int| 0 <= i < list.len() && list[i] == job;
                if i < before.len() {
                    assert(before[i] == job);
                    assert(before.contains(job));
                }
            }
            if job < upto && !spec_routes_serve(routes, job) {
                if job == last {
                    assert(list[list.len() - 1] == job);
                } else {
                    assert(before.contains(job));
                    let i = choose|i: int| 0 <= i < before.len() && before[i] == job;
                    assert(list[i] == job);
                }
            }
        }
        if !spec_routes_serve(routes, last) {
            assert forall|i: int, j: int| 0 <= i < list.len() && 0 <= j < list.len() && i != j implies list[i]
                != list[j] by {
                if i < before.len() {
                    assert(before[i] == list[i]);
                    assert(before.contains(list[i]));
                }
                if j < before.len() {
                    assert(before[j] == list[j]);
                    assert(before.contains(list[j]));
                }
            }
        }
    }
}

/// A solution whose routes were built well and that requires every job that
/// they do not serve, and ignores or leaves out none, holds every job of the
/// problem exactly once, served or required.
pub proof fn lemma_seed_partitions(problem: &Problem, seed: SolutionView)
    requires
        spec_seeded_well(problem, seed.routes),
        problem.jobs@.len() <= usize::MAX,
        seed.required == spec_unplaced(seed.routes, problem.jobs@.len() as int),
        seed.ignored.len() == 0,
        seed.unassigned.len() == 0,
    ensures
        seed.unique(),
        forall|job: usize| #[trigger] seed.is_active(job) <==> job < problem.jobs@.len(),
        forall|job: usize| !(#[trigger] seed.ignored.contains(job)),
{
    lemma_unplaced(seed.routes, problem.jobs@.len() as int);
    assert forall|job: usize| #[trigger] seed.in_one_group(job) by {
        assert(!seed.leaves_out(job));
        assert(!seed.ignored.contains(job));
        if seed.required.contains(job) {
            assert(!spec_routes_serve(seed.routes, job));
        }
    }
    assert forall|job: usize| #[trigger] seed.is_active(job) <==> job < problem.jobs@.len() by {
        assert(!seed.leaves_out(job));
        if job < problem.jobs@.len() && !seed.serves(job) {
            assert(seed.required.contains(job));
        }
    }
}

impl Problem {
    /// The stop at which an actor departs: at the start of its shift, or at
    /// location `0` and time `0` where the shift names no start.
    pub fn departure_of(actor: &Actor) -> (stop: Activity)
        ensures
            stop == spec_departure(*actor),
    {
        match actor.detail.start {
            Some(start) => Activity {
                location: start.location,
                duration: 0,
                time: TimeWindow { start: start.time, end: i64::MAX },
                schedule: Schedule { arrival: start.time, departure: start.time },
                job: None,
                pause: false,
            },
            None => Activity {
                location: 0,
                duration: 0,
                time: TimeWindow { start: 0, end: i64::MAX },
                schedule: Schedule { arrival: 0, departure: 0 },
                job: None,
                pause: false,
            },
        }
    }

    /// The stop at which an actor arrives, if its shift names an end.
    pub fn arrival_of(actor: &Actor) -> (stop: Option<Activity>)
        ensures
            stop == spec_arrival_stop(*actor),
    {
        match actor.detail.end {
            Some(end) => Some(
                Activity {
                    location: end.location,
                    duration: 0,
                    time: TimeWindow { start: 0, end: end.time },
                    schedule: Schedule { arrival: 0, departure: 0 },
                    job: None,
                    pause: false,
                },
            ),
            None => None,
        }
    }

    /// The stop that serves the job at `index`, reached from `previous`.
    pub fn stop_of(&self, index: usize, previous: Location) -> (stop: Activity)
        requires
            index < self.jobs@.len(),
        ensures
            stop == spec_job_stop(self.jobs@[index as int], index, previous),
    {
        let job = &self.jobs[index];
        Activity {
            location: match job.location {
                Some(location) => location,
                None => previous,
            },
            duration: job.duration,
            time: job.time,
            schedule: Schedule { arrival: 0, departure: 0 },
            job: Some(index),
            pause: match job.kind {
                crate::models::problem::JobKind::Break => true,
                _ => false,
            },
        }
    }
}

/// The actors that the first `upto` locks name.
pub open spec fn spec_named_actors(problem: &Problem, upto: int) -> Set<usize> {
    Set::new(|actor: usize| exists|e: int| 0 <= e < upto && (#[trigger] problem.locks@[e]).actor == actor)
}

impl InsertionContext {
    /// The individual that a search on `problem` starts from. Every lock
    /// whose actor is one of the fleet and is named by no earlier lock fixes a
    /// route of that actor, which serves the jobs of the lock in their order;
    /// a job that the problem does not have or that is already served is left
    /// out of it. Jobs of locks other than of the order `Any` are locked.
    /// Every job that no route serves is required. The result holds every job
    /// of the problem exactly once, no actor runs two routes, the actors
    /// that run no route are available, every route
    /// holds the jobs of the lock that fixed it as the lock asks, and the
    /// derived state is up to date.
    pub fn new(problem: &Problem, random: Random) -> (individual: InsertionContext)
        ensures
            individual@.solution == spec_accept_solution(problem, spec_seed(problem)),
            individual@.random == random,
            individual@.solution.unique(),
            forall|job: usize| #[trigger] individual@.solution.is_active(job) <==> job < problem.jobs@.len(),
            forall|job: usize| !(#[trigger] individual@.solution.ignored.contains(job)),
            individual@.solution.distinct_actors(),
            spec_registry_sound(problem, individual@.solution),
            forall|r: int|
                0 <= r < individual@.solution.routes.len() ==> spec_keeps_its_lock(
                    problem,
                    #[trigger] individual@.solution.routes[r],
                ),
    {
        let jobs: usize = problem.jobs.len();
        let actors: usize = problem.fleet.actors.len();
        let count: usize = problem.locks.len();
        let mut routes: Vec<RouteContext> = Vec::new();
        let mut registry = Registry::new(actors);
        let mut placed = index_set_new();
        let mut named = index_set_new();
        let mut locked: Vec<usize> = Vec::new();
        let ghost all = registry@.all;
        let mut l: usize = 0;
        assert(spec_route_views(routes@) =~= spec_locked_routes(problem, 0));
        while l < count
            invariant
                l <= count,
                count == problem.locks@.len(),
                jobs == problem.jobs@.len(),
                actors == problem.fleet.actors@.len(),
                all == Seq::new(actors as nat, |a: int| a as usize),
                spec_route_views(routes@) == spec_locked_routes(problem, l as int),
                locked@ == spec_locked_jobs(problem, l as int),
                index_set_contents(placed) == spec_jobs_of(spec_route_views(routes@)),
                index_set_contents(named) == spec_named_actors(problem, l as int),
                spec_seeded_well(problem, spec_route_views(routes@)),
                forall|r: int|
                    0 <= r < routes@.len() ==> spec_named_actors(problem, l as int).contains(
                        (#[trigger] spec_route_views(routes@)[r]).actor,
                    ),
                registry@.all == all,
                registry@.available == crate::solver::merging::spec_use_routes(
                    all,
                    spec_route_views(routes@),
                    routes@.len() as int,
                ),
            decreases count - l,
        {
            let lock = &problem.locks[l];
            let ghost views = spec_route_views(routes@);
            let ghost placed_before = index_set_contents(placed);
            let ghost named_before = index_set_contents(named);
            let applies: bool = lock.actor < actors && !index_set_contains(&named, lock.actor);
            proof {
                if lock.actor < actors {
                    if named_before.contains(lock.actor) {
                        let e = choose|e: int| 0 <= e < l && (#[trigger] problem.locks@[e]).actor == lock.actor;
                        assert(!spec_lock_applies(problem, l as int));
                    } else {
                        assert forall|e: int| 0 <= e < l implies (#[trigger] problem.locks@[e]).actor
                            != lock.actor by {
                            if problem.locks@[e].actor == lock.actor {
                                assert(named_before.contains(lock.actor));
                            }
                        }
                    }
                }
                assert(applies == spec_lock_applies(problem, l as int));
            }
            if applies {
                let actor = problem.fleet.actors[lock.actor];
                let mut tour: Vec<Activity> = Vec::new();
                tour.push(Problem::departure_of(&actor));
                let ghost start = seq![spec_departure(actor)];
                assert(tour@ =~= start);
                let mut k: usize = 0;
                while k < lock.jobs.len()
                    invariant
                        k <= lock.jobs@.len(),
                        jobs == problem.jobs@.len(),
                        start == seq![spec_departure(actor)],
                        tour@ == spec_locked_stops(problem, start, lock.jobs@, placed_before, k as int),
                        tour@.len() >= 1,
                        forall|job: usize|
                            #[trigger] index_set_contents(placed).contains(job) <==> (
                            placed_before.contains(job) || spec_serves(tour@, job)),
                        forall|p: int|
                            0 <= p < tour@.len() && (#[trigger] tour@[p]).job is Some ==> tour@[p].job->0
                                < jobs && !placed_before.contains(tour@[p].job->0),
                        forall|p: int, q: int|
                            0 <= p < q < tour@.len() && (#[trigger] tour@[p]).job is Some ==> tour@[p].job
                                != (#[trigger] tour@[q]).job,
                    decreases lock.jobs@.len() - k,
                {
                    let job: usize = lock.jobs[k];
                    let ghost stops = tour@;
                    let ghost set_before = index_set_contents(placed);
                    if job < jobs && !index_set_contains(&placed, job) {
                        let previous: Location = tour[tour.len() - 1].location;
                        let stop = problem.stop_of(job, previous);
                        tour.push(stop);
                        index_set_insert(&mut placed, job);
                        proof {
                            assert(!spec_serves(stops, job));
                            assert forall|other: usize|
                                #[trigger] index_set_contents(placed).contains(other) <==> (
                                placed_before.contains(other) || spec_serves(tour@, other)) by {
                                assert(set_before.contains(other) <==> (placed_before.contains(other)
                                    || spec_serves(stops, other)));
                                if spec_serves(tour@, other) {
                                    let p = choose|p: int|
                                        0 <= p < tour@.len() && (#[trigger] tour@[p]).job == Some(other);
                                    if p < stops.len() {
                                        assert(stops[p].job == Some(other));
                                    }
                                }
                                if spec_serves(stops, other) {
                                    let p = choose|p: int|
                                        0 <= p < stops.len() && (#[trigger] stops[p]).job == Some(other);
                                    assert(tour@[p].job == Some(other));
                                }
                                if other == job {
                                    assert(tour@[stops.len() as int].job == Some(other));
                                }
                            }
                            assert forall|p: int, q: int|
                                0 <= p < q < tour@.len() && (#[trigger] tour@[p]).job is Some implies tour@[p].job
                                != (#[trigger] tour@[q]).job by {
                                if q == stops.len() {
                                    assert(stops[p] == tour@[p]);
                                    if stops[p].job == Some(job) {
                                        assert(spec_serves(stops, job));
                                    }
                                } else {
                                    assert(stops[p] == tour@[p] && stops[q] == tour@[q]);
                                }
                            }
                        }
                    } else {
                        proof {
                            if job < jobs && !placed_before.contains(job) {
                                assert(set_before.contains(job));
                                assert(spec_serves(stops, job));
                            }
                        }
                    }
                    k = k + 1;
                }
                match Problem::arrival_of(&actor) {
                    Some(arrival) => {
                        let ghost stops = tour@;
                        tour.push(arrival);
                        proof {
                            assert forall|job: usize| spec_serves(tour@, job) <==> spec_serves(stops, job) by {
                                if spec_serves(tour@, job) {
                                    let p = choose|p: int|
                                        0 <= p < tour@.len() && (#[trigger] tour@[p]).job == Some(job);
                                    assert(stops[p].job == Some(job));
                                }
                                if spec_serves(stops, job) {
                                    let p = choose|p: int|
                                        0 <= p < stops.len() && (#[trigger] stops[p]).job == Some(job);
                                    assert(tour@[p].job == Some(job));
                                }
                            }
                            assert forall|p: int, q: int|
                                0 <= p < q < tour@.len() && (#[trigger] tour@[p]).job is Some implies tour@[p].job
                                != (#[trigger] tour@[q]).job by {
                                assert(stops[p] == tour@[p]);
                                if q < stops.len() {
                                    assert(stops[q] == tour@[q]);
                                }
                            }
                            assert forall|p: int|
                                0 <= p < tour@.len() && (#[trigger] tour@[p]).job is Some implies tour@[p].job->0
                                < jobs && !placed_before.contains(tour@[p].job->0) by {
                                assert(stops[p] == tour@[p]);
                            }
                        }
                    },
                    None => {},
                }
                assert(tour@ == spec_locked_tour(problem, *lock, placed_before));
                let mut p: usize = 0;
                let ghost locked_before = locked@;
                while p < tour.len()
                    invariant
                        p <= tour@.len(),
                        locked@ == spec_held_jobs(locked_before, lock.order, tour@, p as int),
                    decreases tour@.len() - p,
                {
                    match tour[p].job {
                        Some(job) => {
                            match lock.order {
                                LockOrder::Any => {},
                                _ => {
                                    locked.push(job);
                                },
                            }
                        },
                        None => {},
                    }
                    p = p + 1;
                }
                let route = RouteContext::new(lock.actor, tour);
                let ghost route_view = route@;
                registry.use_actor(lock.actor);
                routes.push(route);
                proof {
                    let after = spec_route_views(routes@);
                    assert(after =~= views.push(route_view));
                    assert(after == spec_locked_routes(problem, l as int + 1));
                    crate::solver::merging::lemma_use_routes_prefix(all, views, after, views.len() as int);
                    assert forall|job: usize| route_view.serves(job) <==> spec_serves(route_view.tour, job) by {}
                    assert forall|job: usize| #[trigger] spec_routes_serve(after, job) <==> (spec_routes_serve(
                        views,
                        job,
                    ) || route_view.serves(job)) by {
                        if spec_routes_serve(after, job) {
                            let r = choose|r: int| 0 <= r < after.len() && (#[trigger] after[r]).serves(job);
                            if r < views.len() {
                                assert(views[r].serves(job));
                            }
                        }
                        if spec_routes_serve(views, job) {
                            let r = choose|r: int| 0 <= r < views.len() && (#[trigger] views[r]).serves(job);
                            assert(after[r].serves(job));
                        }
                        if route_view.serves(job) {
                            assert(after[views.len() as int].serves(job));
                        }
                    }
                    assert(index_set_contents(placed) =~= spec_jobs_of(after));
                    assert(spec_routes_unique(after)) by {
                        assert forall|r: int| 0 <= r < after.len() implies (#[trigger] after[r]).tour_unique() by {
                            if r < views.len() {
                                assert(views[r].tour_unique());
                            }
                        }
                        assert forall|r1: int, r2: int, job: usize|
                            0 <= r1 < after.len() && 0 <= r2 < after.len() && r1 != r2 && (
                            #[trigger] after[r1]).serves(job) implies !(#[trigger] after[r2].serves(job)) by {
                            if after[r2].serves(job) {
                                if r1 < views.len() && r2 < views.len() {
                                    assert(views[r1].serves(job) && views[r2].serves(job));
                                } else {
                                    let old = if r1 < views.len() {
                                        r1
                                    } else {
                                        r2
                                    };
                                    assert(views[old].serves(job));
                                    assert(spec_routes_serve(views, job));
                                    assert(placed_before.contains(job));
                                    let p = choose|p: int|
                                        0 <= p < route_view.tour.len() && (#[trigger] route_view.tour[p]).job
                                            == Some(job);
                                    assert(!placed_before.contains(route_view.tour[p].job->0));
                                }
                            }
                        }
                    }
                    assert forall|job: usize| #[trigger] spec_routes_serve(after, job) implies job < jobs by {
                        if route_view.serves(job) {
                            let p = choose|p: int|
                                0 <= p < route_view.tour.len() && (#[trigger] route_view.tour[p]).job == Some(
                                    job,
                                );
                            assert(route_view.tour[p].job->0 < jobs);
                        } else {
                            assert(spec_routes_serve(views, job));
                        }
                    }
                    assert forall|r1: int, r2: int| 0 <= r1 < r2 < after.len() implies (
                    #[trigger] after[r1]).actor != (#[trigger] after[r2]).actor by {
                        if r2 < views.len() {
                            assert(views[r1].actor != views[r2].actor);
                        } else {
                            assert(named_before.contains(views[r1].actor));
                        }
                    }
                }
            } else {
                assert(spec_route_views(routes@) == spec_locked_routes(problem, l as int + 1));
            }
            index_set_insert(&mut named, lock.actor);
            l = l + 1;
            proof {
                let after = spec_route_views(routes@);
                assert forall|actor: usize| #[trigger] index_set_contents(named).contains(actor)
                    <==> spec_named_actors(problem, l as int).contains(actor) by {
                    assert(named_before.contains(actor) <==> spec_named_actors(problem, l - 1).contains(actor));
                    if spec_named_actors(problem, l as int).contains(actor) {
                        let e = choose|e: int| 0 <= e < l && (#[trigger] problem.locks@[e]).actor == actor;
                        if e < l - 1 {
                            assert(spec_named_actors(problem, l - 1).contains(actor));
                        }
                    }
                    if spec_named_actors(problem, l - 1).contains(actor) {
                        let e = choose|e: int| 0 <= e < l - 1 && (#[trigger] problem.locks@[e]).actor == actor;
                        assert(problem.locks@[e].actor == actor);
                    }
                    if actor == lock.actor {
                        assert(problem.locks@[l - 1].actor == actor);
                    }
                }
                assert(index_set_contents(named) =~= spec_named_actors(problem, l as int));
                assert forall|r: int| 0 <= r < routes@.len() implies spec_named_actors(
                    problem,
                    l as int,
                ).contains((#[trigger] after[r]).actor) by {
                    if r < views.len() {
                        assert(after[r] == views[r]);
                        assert(named_before.contains(views[r].actor));
                    } else {
                        assert(after[r].actor == lock.actor);
                    }
                    assert(index_set_contents(named).contains(after[r].actor));
                }
            }
        }
        let ghost views = spec_route_views(routes@);
        let mut required: Vec<usize> = Vec::new();
        let mut j: usize = 0;
        while j < jobs
            invariant
                j <= jobs,
                views == spec_route_views(routes@),
                index_set_contents(placed) == spec_jobs_of(views),
                required@ == spec_unplaced(views, j as int),
            decreases jobs - j,
        {
            if !index_set_contains(&placed, j) {
                required.push(j);
            }
            j = j + 1;
        }
        let mut individual = InsertionContext {
            solution: SolutionContext {
                required,
                ignored: Vec::new(),
                unassigned: Vec::new(),
                locked,
                routes,
                registry,
                state: Vec::new(),
            },
            random,
        };
        proof {
            let seed = individual@.solution;
            assert(seed == spec_seed(problem));
            lemma_seed_partitions(problem, seed);
            lemma_accept_solution_keeps_jobs(problem, seed);
            let after = spec_accept_solution(problem, seed);
            assert forall|job: usize| #[trigger] after.is_active(job) <==> job < problem.jobs@.len() by {
                assert(after.active().contains(job) == seed.active().contains(job));
            }
            assert forall|r1: int, r2: int| 0 <= r1 < r2 < after.routes.len() implies (
            #[trigger] after.routes[r1]).actor != (#[trigger] after.routes[r2]).actor by {
                assert(seed.routes[r1].actor != seed.routes[r2].actor);
            }
            lemma_seed_keeps_locks(problem);
            assert(spec_registry_sound(problem, after)) by {
                let all = Seq::new(problem.fleet.actors@.len(), |a: int| a as usize);
                crate::solver::merging::lemma_use_routes(all, seed.routes, seed.routes.len() as int);
                assert(seed.routes.take(seed.routes.len() as int) =~= seed.routes);
                assert forall|actor: usize| #[trigger] after.registry.available.contains(actor) <==> (actor
                    < problem.fleet.actors@.len() && !after.uses_actor(actor)) by {
                    assert(after.uses_actor(actor) <==> seed.uses_actor(actor));
                    if actor < problem.fleet.actors@.len() {
                        assert(all[actor as int] == actor);
                    }
                }
            }
        }
        problem.accept_solution_state(&mut individual.solution);
        individual
    }
}

} // verus!
