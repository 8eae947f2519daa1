//! The constraint pipeline: an ordered list of modules that keep the derived
//! state of routes.
//!
//! After a tour has changed, `accept_route_state` brings the schedule of its
//! stops and the values kept for the route up to date; after a set of such
//! changes `accept_solution_state` does so for every route of a solution.

use vstd::prelude::*;
use crate::construction::context::{Activity, ActivityValue, RouteContext, RouteState, RouteValue, RouteView};
use crate::construction::context::{SolutionContext, SolutionView};
use crate::models::common::{Cost, Profile, Schedule, Timestamp};
use crate::construction::evaluation::spec_max_load;
use crate::models::problem::{Problem, TransportCost};
use crate::utils::numeric::{add_amounts, advance, clamp, elapsed};
use crate::utils::numeric::{spec_add_amounts, spec_advance, spec_clamp, spec_elapsed};

verus! {

/// The key of the time that the vehicle waits at a stop.
pub const WAITING_KEY: i32 = 2;

/// The key of the length of a route.
pub const TOTAL_DISTANCE_KEY: i32 = 3;

/// The key of the time from the departure to the arrival of a route.
pub const TOTAL_DURATION_KEY: i32 = 4;

/// The key of the largest load that the vehicle carries on a route.
pub const MAX_LOAD_KEY: i32 = 16;

/// One module of the pipeline, with what it was set up with. A `code` is what
/// the module answers when it turns an insertion down.
#[derive(Clone, Copy, Debug)]
pub enum ConstraintModule {
    /// Travel and service times, distances, and time windows.
    Transport { code: i32 },
    /// The load of a vehicle against its capacity.
    Capacity { code: i32, multi_dimensional: bool },
    /// Capacity with reloads: a vehicle may empty itself at a reload stop
    /// once its load has reached `threshold_tenths` tenths of its capacity.
    ReloadCapacity { code: i32, cost: Cost, threshold_tenths: u64, multi_dimensional: bool },
    /// A penalty on routes that are loaded unevenly.
    EvenDistribution { penalty: Cost, multi_dimensional: bool },
    /// The breaks of vehicles; `unassigned_penalty` is what a break that is
    /// left out adds to the cost.
    Break { code: i32, unassigned_penalty: Option<i64>, strict: bool },
    /// Skills that a job asks of its vehicle.
    Skills { code: i32 },
    /// Jobs that locks bind to actors, in an order or with nothing between.
    StrictLocking { code: i32 },
    /// Limits on the length and the duration of a tour.
    Travel { distance_code: i32, duration_code: i32 },
    /// Stops between which there is no route.
    Reachable { code: i32 },
    /// The fixed cost of a vehicle that is used.
    ExtraCost,
}

/// The modules in the order in which they are asked.
pub struct ConstraintPipeline {
    pub modules: Vec<ConstraintModule>,
}

/// When the vehicle reaches the stop at `position`: the first stop keeps its
/// time of arrival; every later stop is reached after the travel time from
/// the stop before it, a pair without a route counting as zero. The way to
/// a break is counted from the time at which the stop before it was
/// reached, so that it may be driven while that stop is served; but the
/// break is not reached before the stop before it is left.
pub open spec fn spec_arrival(
    transport: &TransportCost,
    profile: Profile,
    tour: Seq<Activity>,
    position: int,
) -> Timestamp
    decreases position,
{
    if position <= 0 {
        tour[0].schedule.arrival
    } else {
        let before = spec_arrival(transport, profile, tour, position - 1);
        let left = spec_leave(before, tour[position - 1]);
        let way = spec_clamp(
            transport.spec_duration(profile, tour[position - 1].location, tour[position].location),
        );
        if tour[position].pause {
            spec_later(left, spec_advance(before, way))
        } else {
            spec_advance(left, way)
        }
    }
}

/// The later of two points in time.
pub open spec fn spec_later(a: Timestamp, b: Timestamp) -> Timestamp {
    if a < b {
        b
    } else {
        a
    }
}

/// When service begins at a stop that the vehicle reaches at `arrival`: not
/// before the time window opens.
pub open spec fn spec_begin(arrival: Timestamp, activity: Activity) -> Timestamp {
    if arrival < activity.time.start {
        activity.time.start
    } else {
        arrival
    }
}

/// When the vehicle leaves a stop that it reaches at `arrival`: after the
/// service.
pub open spec fn spec_leave(arrival: Timestamp, activity: Activity) -> Timestamp {
    spec_advance(spec_begin(arrival, activity), activity.duration)
}

/// A tour with the schedule of every stop brought up to date.
pub open spec fn spec_scheduled(transport: &TransportCost, profile: Profile, tour: Seq<Activity>) -> Seq<Activity> {
    Seq::new(
        tour.len(),
        |p: int|
            Activity {
                location: tour[p].location,
                duration: tour[p].duration,
                time: tour[p].time,
                schedule: Schedule {
                    arrival: spec_arrival(transport, profile, tour, p),
                    departure: spec_leave(spec_arrival(transport, profile, tour, p), tour[p]),
                },
                job: tour[p].job,
                pause: tour[p].pause,
            },
    )
}

/// The length of the way over the first `upto` stops.
pub open spec fn spec_total_distance(
    transport: &TransportCost,
    profile: Profile,
    tour: Seq<Activity>,
    upto: int,
) -> u64
    decreases upto,
{
    if upto <= 1 {
        0
    } else {
        spec_add_amounts(
            spec_total_distance(transport, profile, tour, upto - 1),
            spec_clamp(
                transport.spec_distance(profile, tour[upto - 2].location, tour[upto - 1].location),
            ),
        )
    }
}

/// The time from leaving the first stop to leaving the last.
pub open spec fn spec_total_duration(scheduled: Seq<Activity>) -> u64 {
    if scheduled.len() == 0 {
        0
    } else {
        spec_elapsed(scheduled[0].schedule.departure, scheduled.last().schedule.departure)
    }
}

/// The time that the vehicle waits at a stop before service begins.
pub open spec fn spec_waiting(activity: Activity) -> u64 {
    spec_elapsed(activity.schedule.arrival, spec_begin(activity.schedule.arrival, activity))
}

/// The waiting times of the first `upto` stops, kept under `WAITING_KEY`.
pub open spec fn spec_waiting_values(scheduled: Seq<Activity>, upto: int) -> Seq<ActivityValue> {
    Seq::new(
        upto as nat,
        |p: int| ActivityValue { key: WAITING_KEY, index: p as usize, value: spec_waiting(scheduled[p]) },
    )
}

/// The values that the transport module keeps for a route.
pub open spec fn spec_transport_values(
    transport: &TransportCost,
    profile: Profile,
    scheduled: Seq<Activity>,
) -> Seq<RouteValue> {
    seq![
        RouteValue {
            key: TOTAL_DISTANCE_KEY,
            value: spec_total_distance(transport, profile, scheduled, scheduled.len() as int),
        },
        RouteValue { key: TOTAL_DURATION_KEY, value: spec_total_duration(scheduled) },
    ]
}

/// Whether a pipeline holds a transport module.
pub open spec fn spec_has_transport(modules: Seq<ConstraintModule>) -> bool {
    exists|m: int| 0 <= m < modules.len() && (#[trigger] modules[m]) is Transport
}

/// Whether a pipeline holds a module that watches the load.
pub open spec fn spec_has_capacity(modules: Seq<ConstraintModule>) -> bool {
    exists|m: int|
        0 <= m < modules.len() && ((#[trigger] modules[m]) is Capacity || modules[m] is ReloadCapacity)
}

/// Whether a module of the pipeline watches the locks.
pub open spec fn spec_has_locking(modules: Seq<ConstraintModule>) -> bool {
    exists|m: int| 0 <= m < modules.len() && (#[trigger] modules[m]) is StrictLocking
}

/// The tour of a route after the modules have brought it up to date: with a
/// transport module the stops are scheduled anew.
pub open spec fn spec_accept_tour(problem: &Problem, route: RouteView) -> Seq<Activity> {
    if spec_has_transport(problem.constraint.modules@) {
        spec_scheduled(&problem.transport, problem.spec_profile(route.actor), route.tour)
    } else {
        route.tour
    }
}

/// The value that the modules that watch the load keep for a tour: the
/// largest load on board, under `MAX_LOAD_KEY`.
pub open spec fn spec_capacity_values(problem: &Problem, actor: usize, tour: Seq<Activity>) -> Seq<RouteValue> {
    seq![RouteValue { key: MAX_LOAD_KEY, value: spec_max_load(problem, actor, tour) }]
}

/// A route with its derived state brought up to date by the modules. With
/// a transport module the stops are scheduled anew, and the route keeps its
/// length, its duration and the waiting time of every stop. With a module
/// that watches the load the route keeps the largest load on board. What
/// was kept before is dropped.
pub open spec fn spec_accept_route(problem: &Problem, route: RouteView) -> RouteView {
    let tour = spec_accept_tour(problem, route);
    RouteView {
        actor: route.actor,
        tour,
        route_states: (if spec_has_transport(problem.constraint.modules@) {
            spec_transport_values(&problem.transport, problem.spec_profile(route.actor), tour)
        } else {
            Seq::empty()
        }) + (if spec_has_capacity(problem.constraint.modules@) {
            spec_capacity_values(problem, route.actor, tour)
        } else {
            Seq::empty()
        }),
        activity_states: if spec_has_transport(problem.constraint.modules@) {
            spec_waiting_values(tour, tour.len() as int)
        } else {
            Seq::empty()
        },
    }
}

/// A solution with the derived state of every route brought up to date.
pub open spec fn spec_accept_solution(problem: &Problem, solution: SolutionView) -> SolutionView {
    SolutionView {
        required: solution.required,
        ignored: solution.ignored,
        unassigned: solution.unassigned,
        locked: solution.locked,
        routes: Seq::new(solution.routes.len(), |r: int| spec_accept_route(problem, solution.routes[r])),
        registry: solution.registry,
        state: solution.state,
    }
}

/// Whether the times of a tour never run backwards: no stop is left before
/// it is reached, none is reached before the stop in front of it is left, and
/// service at no stop begins before its time window opens.
pub open spec fn spec_times_in_order(tour: Seq<Activity>) -> bool {
    &&& forall|p: int|
        0 <= p < tour.len() ==> (#[trigger] tour[p]).schedule.arrival <= tour[p].schedule.departure
    &&& forall|p: int|
        0 < p < tour.len() ==> tour[p - 1].schedule.departure <= (#[trigger] tour[p]).schedule.arrival
    &&& forall|p: int|
        0 <= p < tour.len() ==> (#[trigger] tour[p]).time.start <= spec_begin(
            tour[p].schedule.arrival,
            tour[p],
        )
}

/// However a tour looks, once it is scheduled its times are in order.
pub proof fn lemma_scheduled_times_in_order(transport: &TransportCost, profile: Profile, tour: Seq<Activity>)
    ensures
        spec_times_in_order(spec_scheduled(transport, profile, tour)),
{
    let scheduled = spec_scheduled(transport, profile, tour);
    assert forall|p: int| 0 < p < scheduled.len() implies scheduled[p - 1].schedule.departure <= (
    #[trigger] scheduled[p]).schedule.arrival by {
        assert(scheduled[p - 1].schedule.departure == spec_leave(
            spec_arrival(transport, profile, tour, p - 1),
            tour[p - 1],
        ));
    }
}

/// Bringing a route up to date keeps its actor and, stop by stop, the place,
/// the service time, the time window and the job.
pub proof fn lemma_accept_route_keeps_stops(problem: &Problem, route: RouteView)
    ensures
        spec_accept_route(problem, route).actor == route.actor,
        spec_accept_route(problem, route).tour.len() == route.tour.len(),
        forall|p: int|
            0 <= p < route.tour.len() ==> (#[trigger] spec_accept_route(problem, route).tour[p]).job
                == route.tour[p].job && spec_accept_route(problem, route).tour[p].location
                == route.tour[p].location,
        forall|job: usize| #[trigger] spec_accept_route(problem, route).serves(job) <==> route.serves(job),
        spec_accept_route(problem, route).tour_unique() <==> route.tour_unique(),
{
    let after = spec_accept_route(problem, route);
    assert forall|job: usize| #[trigger] after.serves(job) <==> route.serves(job) by {
        if after.serves(job) {
            let p = choose|p: int| 0 <= p < after.tour.len() && (#[trigger] after.tour[p]).job == Some(job);
            assert(route.tour[p].job == Some(job));
        }
        if route.serves(job) {
            let p = choose|p: int| 0 <= p < route.tour.len() && (#[trigger] route.tour[p]).job == Some(job);
            assert(after.tour[p].job == Some(job));
        }
    }
    if route.tour_unique() {
        assert forall|p: int, q: int|
            0 <= p < q < after.tour.len() && (#[trigger] after.tour[p]).job is Some implies after.tour[p].job
            != (#[trigger] after.tour[q]).job by {
            assert(route.tour[p].job == after.tour[p].job);
            assert(route.tour[q].job == after.tour[q].job);
        }
    }
    if after.tour_unique() {
        assert forall|p: int, q: int|
            0 <= p < q < route.tour.len() && (#[trigger] route.tour[p]).job is Some implies route.tour[p].job
            != (#[trigger] route.tour[q]).job by {
            assert(route.tour[p].job == after.tour[p].job);
            assert(route.tour[q].job == after.tour[q].job);
        }
    }
}

/// Bringing a solution up to date changes no job: what is served, required,
/// ignored or unassigned stays so, a solution that holds no job twice still
/// holds none twice, and every route keeps its actor.
pub proof fn lemma_accept_solution_keeps_jobs(problem: &Problem, solution: SolutionView)
    ensures
        forall|job: usize|
            #[trigger] spec_accept_solution(problem, solution).serves(job) <==> solution.serves(job),
        spec_accept_solution(problem, solution).active() == solution.active(),
        spec_accept_solution(problem, solution).jobs() == solution.jobs(),
        spec_accept_solution(problem, solution).ignored_set() == solution.ignored_set(),
        solution.unique() ==> spec_accept_solution(problem, solution).unique(),
        spec_accept_solution(problem, solution).routes.len() == solution.routes.len(),
        forall|r: int|
            0 <= r < solution.routes.len() ==> (#[trigger] spec_accept_solution(
                problem,
                solution,
            ).routes[r]).actor == solution.routes[r].actor,
        forall|actor: usize|
            #[trigger] spec_accept_solution(problem, solution).uses_actor(actor)
                <==> solution.uses_actor(actor),
{
    let after = spec_accept_solution(problem, solution);
    assert forall|r: int| 0 <= r < solution.routes.len() implies (#[trigger] after.routes[r])
        == spec_accept_route(problem, solution.routes[r]) by {}
    assert forall|job: usize| #[trigger] after.serves(job) <==> solution.serves(job) by {
        if after.serves(job) {
            let r = choose|r: int| 0 <= r < after.routes.len() && (#[trigger] after.routes[r]).serves(job);
            lemma_accept_route_keeps_stops(problem, solution.routes[r]);
            assert(solution.routes[r].serves(job));
        }
        if solution.serves(job) {
            let r = choose|r: int|
                0 <= r < solution.routes.len() && (#[trigger] solution.routes[r]).serves(job);
            lemma_accept_route_keeps_stops(problem, solution.routes[r]);
            assert(after.routes[r].serves(job));
        }
    }
    assert forall|actor: usize| #[trigger] after.uses_actor(actor) <==> solution.uses_actor(actor) by {
        if after.uses_actor(actor) {
            let r = choose|r: int| 0 <= r < after.routes.len() && (#[trigger] after.routes[r]).actor == actor;
            assert(solution.routes[r].actor == actor);
        }
        if solution.uses_actor(actor) {
            let r = choose|r: int|
                0 <= r < solution.routes.len() && (#[trigger] solution.routes[r]).actor == actor;
            assert(after.routes[r].actor == actor);
        }
    }
    assert forall|job: usize| after.leaves_out(job) <==> solution.leaves_out(job) by {
        if after.leaves_out(job) {
            let i = choose|i: int|
                0 <= i < after.unassigned.len() && (#[trigger] after.unassigned[i]).job == job;
            assert(solution.unassigned[i].job == job);
        }
        if solution.leaves_out(job) {
            let i = choose|i: int|
                0 <= i < solution.unassigned.len() && (#[trigger] solution.unassigned[i]).job
                    == job;
            assert(after.unassigned[i].job == job);
        }
    }
    assert(after.active() =~= solution.active());
    assert(after.jobs() =~= solution.jobs());
    assert(after.ignored_set() =~= solution.ignored_set());
    if solution.unique() {
        assert forall|r: int| 0 <= r < after.routes.len() implies (#[trigger] after.routes[r]).tour_unique() by {
            lemma_accept_route_keeps_stops(problem, solution.routes[r]);
            assert(solution.routes[r].tour_unique());
        }
        assert forall|r1: int, r2: int, job: usize|
            0 <= r1 < after.routes.len() && 0 <= r2 < after.routes.len() && r1 != r2 && (
            #[trigger] after.routes[r1]).serves(job) implies !(#[trigger] after.routes[r2].serves(job)) by {
            lemma_accept_route_keeps_stops(problem, solution.routes[r1]);
            lemma_accept_route_keeps_stops(problem, solution.routes[r2]);
            assert(solution.routes[r1].serves(job));
            if after.routes[r2].serves(job) {
                assert(solution.routes[r2].serves(job));
            }
        }
        assert forall|job: usize| #[trigger] after.in_one_group(job) by {
            assert(solution.in_one_group(job));
        }
    }
}

/// Sets the schedule of a stop that the vehicle reaches at `arrival`, and
/// tells how long the vehicle waits there.
pub fn schedule_stop(activity: Activity, arrival: Timestamp) -> (result: (Activity, u64))
    ensures
        result.0 == (Activity {
            location: activity.location,
            duration: activity.duration,
            time: activity.time,
            schedule: Schedule { arrival, departure: spec_leave(arrival, activity) },
            job: activity.job,
            pause: activity.pause,
        }),
        result.1 == spec_waiting(result.0),
{
    let begin: Timestamp = if arrival < activity.time.start {
        activity.time.start
    } else {
        arrival
    };
    let departure: Timestamp = advance(begin, activity.duration);
    (
        Activity {
            location: activity.location,
            duration: activity.duration,
            time: activity.time,
            schedule: Schedule { arrival, departure },
            job: activity.job,
            pause: activity.pause,
        },
        elapsed(arrival, begin),
    )
}

impl ConstraintPipeline {
    /// A pipeline without modules.
    pub fn new() -> (pipeline: ConstraintPipeline)
        ensures
            pipeline.modules@ == Seq::<ConstraintModule>::empty(),
    {
        ConstraintPipeline { modules: Vec::new() }
    }

    /// Adds a module behind those that the pipeline holds.
    pub fn add_module(&mut self, module: ConstraintModule)
        ensures
            final(self).modules@ == old(self).modules@.push(module),
    {
        self.modules.push(module);
    }

    /// Tells whether the pipeline holds a module that watches the load.
    pub fn has_capacity(&self) -> (found: bool)
        ensures
            found == spec_has_capacity(self.modules@),
    {
        let mut m: usize = 0;
        while m < self.modules.len()
            invariant
                m <= self.modules@.len(),
                forall|k: int|
                    0 <= k < m ==> !((#[trigger] self.modules@[k]) is Capacity || self.modules@[k]
                        is ReloadCapacity),
            decreases self.modules@.len() - m,
        {
            match self.modules[m] {
                ConstraintModule::Capacity { .. } => {
                    return true;
                },
                ConstraintModule::ReloadCapacity { .. } => {
                    return true;
                },
                _ => {},
            }
            m = m + 1;
        }
        false
    }

    /// Tells whether the pipeline holds a transport module.
    pub fn has_transport(&self) -> (found: bool)
        ensures
            found == spec_has_transport(self.modules@),
    {
        let mut m: usize = 0;
        while m < self.modules.len()
            invariant
                m <= self.modules@.len(),
                forall|k: int| 0 <= k < m ==> !((#[trigger] self.modules@[k]) is Transport),
            decreases self.modules@.len() - m,
        {
            match self.modules[m] {
                ConstraintModule::Transport { .. } => {
                    return true;
                },
                _ => {},
            }
            m = m + 1;
        }
        false
    }
}

impl Default for ConstraintPipeline {
    fn default() -> (pipeline: ConstraintPipeline)
        ensures
            pipeline.modules@ == Seq::<ConstraintModule>::empty(),
    {
        ConstraintPipeline::new()
    }
}

impl Problem {
    /// Schedules the stops of a tour anew for vehicles of the given
    /// profile, and tells how long the vehicle waits at each stop and how
    /// long the way is.
    pub fn schedule_tour(&self, profile: Profile, tour: &Vec<Activity>) -> (result: (
        Vec<Activity>,
        Vec<ActivityValue>,
        u64,
    ))
        ensures
            result.0@ == spec_scheduled(&self.transport, profile, tour@),
            result.1@ == spec_waiting_values(result.0@, tour@.len() as int),
            result.2 == spec_total_distance(&self.transport, profile, tour@, tour@.len() as int),
    {
        let ghost before = tour@;
        let ghost target = spec_scheduled(&self.transport, profile, before);
        let n: usize = tour.len();
        let mut scheduled: Vec<Activity> = Vec::new();
        let mut waiting: Vec<ActivityValue> = Vec::new();
        let mut distance: u64 = 0;
        let mut p: usize = 0;
        while p < n
            invariant
                n == before.len(),
                p <= n,
                before == tour@,
                target == spec_scheduled(&self.transport, profile, before),
                scheduled@.len() == p,
                forall|k: int| 0 <= k < p ==> #[trigger] scheduled@[k] == target[k],
                distance == spec_total_distance(&self.transport, profile, before, p as int),
                waiting@.len() == p,
                forall|k: int|
                    0 <= k < p ==> #[trigger] waiting@[k] == (ActivityValue {
                        key: WAITING_KEY,
                        index: k as usize,
                        value: spec_waiting(target[k]),
                    }),
            decreases n - p,
        {
            let activity: Activity = tour[p];
            let arrival: Timestamp = if p == 0 {
                activity.schedule.arrival
            } else {
                let previous: Activity = scheduled[p - 1];
                assert(previous == target[p - 1]);
                distance = add_amounts(
                    distance,
                    clamp(self.transport.distance(profile, previous.location, activity.location, 0)),
                );
                let way: u64 = clamp(
                    self.transport.duration(
                        profile,
                        previous.location,
                        activity.location,
                        previous.schedule.departure,
                    ),
                );
                if activity.pause {
                    let early: Timestamp = advance(previous.schedule.arrival, way);
                    if previous.schedule.departure < early {
                        early
                    } else {
                        previous.schedule.departure
                    }
                } else {
                    advance(previous.schedule.departure, way)
                }
            };
            assert(arrival == spec_arrival(&self.transport, profile, before, p as int));
            let (updated, pause) = schedule_stop(activity, arrival);
            assert(updated == target[p as int]);
            scheduled.push(updated);
            waiting.push(ActivityValue { key: WAITING_KEY, index: p, value: pause });
            p = p + 1;
        }
        assert(scheduled@ =~= target);
        assert(waiting@ =~= spec_waiting_values(target, n as int));
        (scheduled, waiting, distance)
    }

    /// Brings the derived state of a route up to date. To be called after
    /// every change of the tour. Afterwards the times of the tour are in
    /// order.
    pub fn accept_route_state(&self, route_ctx: &mut RouteContext)
        ensures
            final(route_ctx)@ == spec_accept_route(self, old(route_ctx)@),
            spec_has_transport(self.constraint.modules@) ==> spec_times_in_order(final(route_ctx).tour@),
    {
        let mut route_states: Vec<RouteValue> = Vec::new();
        let mut activity_states: Vec<ActivityValue> = Vec::new();
        let ghost start = route_ctx@;
        if self.constraint.has_transport() {
            let profile: Profile = self.profile(route_ctx.actor);
            let ghost before = route_ctx.tour@;
            let n: usize = route_ctx.tour.len();
            let (scheduled, waiting, distance) = self.schedule_tour(profile, &route_ctx.tour);
            proof {
                lemma_scheduled_times_in_order(&self.transport, profile, before);
                lemma_total_distance_of_scheduled(&self.transport, profile, before, n as int);
            }
            let duration: u64 = if n == 0 {
                0
            } else {
                elapsed(scheduled[0].schedule.departure, scheduled[n - 1].schedule.departure)
            };
            route_states.push(RouteValue { key: TOTAL_DISTANCE_KEY, value: distance });
            route_states.push(RouteValue { key: TOTAL_DURATION_KEY, value: duration });
            assert(route_states@ =~= spec_transport_values(&self.transport, profile, scheduled@));
            route_ctx.tour = scheduled;
            activity_states = waiting;
        }
        assert(route_ctx.tour@ == spec_accept_tour(self, start));
        let ghost kept = route_states@;
        if self.constraint.has_capacity() {
            let most: u64 = self.max_load(route_ctx.actor, &route_ctx.tour);
            route_states.push(RouteValue { key: MAX_LOAD_KEY, value: most });
            assert(route_states@ =~= kept + spec_capacity_values(self, route_ctx.actor, route_ctx.tour@));
        } else {
            assert(route_states@ =~= kept + Seq::<RouteValue>::empty());
        }
        route_ctx.state = RouteState { route_states, activity_states };
    }

    /// Brings the derived state of every route of a solution up to date. To
    /// be called after a set of changes to routes. Jobs, locks and the
    /// registry stay as they are.
    pub fn accept_solution_state(&self, solution_ctx: &mut SolutionContext)
        ensures
            final(solution_ctx)@ == spec_accept_solution(self, old(solution_ctx)@),
    {
        let n: usize = solution_ctx.routes.len();
        let ghost before = solution_ctx@;
        let mut r: usize = 0;
        while r < n
            invariant
                n == before.routes.len(),
                r <= n,
                solution_ctx.routes@.len() == n,
                solution_ctx.required@ == before.required,
                solution_ctx.ignored@ == before.ignored,
                solution_ctx.unassigned@ == before.unassigned,
                solution_ctx.locked@ == before.locked,
                solution_ctx.registry@ == before.registry,
                solution_ctx.state@ == before.state,
                forall|k: int|
                    0 <= k < r ==> (#[trigger] solution_ctx.routes@[k])@ == spec_accept_route(
                        self,
                        before.routes[k],
                    ),
                forall|k: int| r <= k < n ==> (#[trigger] solution_ctx.routes@[k])@ == before.routes[k],
            decreases n - r,
        {
            let mut route = solution_ctx.routes[r].deep_copy();
            self.accept_route_state(&mut route);
            solution_ctx.routes.set(r, route);
            r = r + 1;
        }
        assert(solution_ctx@.routes =~= spec_accept_solution(self, before).routes);
    }
}

/// The length of a tour does not depend on its schedule.
pub proof fn lemma_total_distance_of_scheduled(
    transport: &TransportCost,
    profile: Profile,
    tour: Seq<Activity>,
    upto: int,
)
    requires
        upto <= tour.len(),
    ensures
        spec_total_distance(transport, profile, spec_scheduled(transport, profile, tour), upto)
            == spec_total_distance(transport, profile, tour, upto),
    decreases upto,
{
    if upto > 1 {
        lemma_total_distance_of_scheduled(transport, profile, tour, upto - 1);
    }
}

} // verus!
