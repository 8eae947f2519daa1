//! What the modules of the constraint pipeline decide: whether a job may go
//! to a route at all, whether a tour keeps to time windows, reachability and capacity, and
//! what an insertion adds to the cost.
//!
//! The modules are asked in their order, and the first one that objects
//! decides with its code.

use vstd::prelude::*;
use crate::construction::constraints::{spec_scheduled, ConstraintModule};
use crate::construction::constraints::{lemma_scheduled_times_in_order, spec_has_transport, spec_times_in_order};
use crate::construction::constraints::{spec_has_capacity, spec_has_locking, spec_total_distance};
use crate::construction::constraints::spec_total_duration;
use crate::models::problem::TravelLimits;
use crate::utils::numeric::{add_amounts, clamp, elapsed};
use crate::construction::context::{Activity, RouteContext, RouteView};
use crate::format::reader::{contains_text, spec_texts};
use crate::models::common::{Cost, Profile};
use crate::models::problem::{Job, JobKind, Problem, Vehicle};
use crate::construction::context::RouteState;
use crate::construction::locking::spec_locks_kept;
use crate::solver::objective::{spec_route_statistic, Statistic};

verus! {

/// A place in a tour at which a stop is to be inserted: the stop goes in
/// front of the stop that stands at `index`, or to the end.
#[derive(Clone, Copy, Debug)]
pub struct ActivityContext {
    pub index: usize,
    pub target: Activity,
}

/// The tour with the stop inserted.
pub open spec fn spec_candidate(tour: Seq<Activity>, activity_ctx: ActivityContext) -> Seq<Activity> {
    tour.insert(activity_ctx.index as int, activity_ctx.target)
}

/// The amount of the kind of load `d` in a list of amounts; nothing where
/// the list is shorter.
pub open spec fn spec_amount(amounts: Seq<u64>, d: int) -> int {
    if 0 <= d < amounts.len() {
        amounts[d] as int
    } else {
        0
    }
}

/// The vehicle of an actor, if the fleet has both.
pub open spec fn spec_vehicle_of(problem: &Problem, actor: usize) -> Option<Vehicle> {
    if actor < problem.fleet.actors@.len() && problem.fleet.actors@[actor as int].vehicle
        < problem.fleet.vehicles@.len() {
        Some(problem.fleet.vehicles@[problem.fleet.actors@[actor as int].vehicle as int])
    } else {
        None
    }
}

/// Whether the vehicle has every skill that the job asks for.
pub open spec fn spec_skills_fit(problem: &Problem, actor: usize, job: Job) -> bool {
    match job.dimens.skills {
        Some(asked) => match spec_vehicle_of(problem, actor) {
            Some(vehicle) => match vehicle.dimens.skills {
                Some(offered) => forall|s: int|
                    0 <= s < asked@.len() ==> spec_texts(offered@).contains(#[trigger] spec_texts(asked@)[s]),
                None => asked@.len() == 0,
            },
            None => asked@.len() == 0,
        },
        None => true,
    }
}

/// Whether no lock binds the job to another actor.
pub open spec fn spec_lock_fits(problem: &Problem, actor: usize, job: usize) -> bool {
    forall|l: int, k: int|
        0 <= l < problem.locks@.len() && 0 <= k < problem.locks@[l].jobs@.len()
            && #[trigger] problem.locks@[l].jobs@[k] == job ==> problem.locks@[l].actor == actor
}

/// Whether a job that is bound to a vehicle is bound to the vehicle of the
/// actor.
pub open spec fn spec_binding_fits(problem: &Problem, actor: usize, job: Job) -> bool {
    match job.vehicle {
        Some(vehicle) => actor < problem.fleet.actors@.len() && problem.fleet.actors@[actor as int].vehicle
            == vehicle,
        None => true,
    }
}

/// Whether the vehicle can carry what the job asks for, kind of load by
/// kind of load.
pub open spec fn spec_demand_fits(problem: &Problem, actor: usize, job: Job) -> bool {
    match spec_vehicle_of(problem, actor) {
        Some(vehicle) => forall|d: int|
            0 <= d < job.demand@.len() ==> (#[trigger] job.demand@[d]) <= spec_amount(vehicle.capacity@, d),
        None => forall|d: int| 0 <= d < job.demand@.len() ==> (#[trigger] job.demand@[d]) == 0,
    }
}

/// What a module says to a job on the route of an actor: its code where it
/// objects.
pub open spec fn spec_module_on_route(module: ConstraintModule, problem: &Problem, actor: usize, job: usize) -> Option<
    i32,
> {
    let asked = problem.jobs@[job as int];
    match module {
        ConstraintModule::Skills { code } => if spec_skills_fit(problem, actor, asked) {
            None
        } else {
            Some(code)
        },
        ConstraintModule::StrictLocking { code } => if spec_lock_fits(problem, actor, job) {
            None
        } else {
            Some(code)
        },
        ConstraintModule::Break { code, .. } => if spec_binding_fits(problem, actor, asked) {
            None
        } else {
            Some(code)
        },
        ConstraintModule::Capacity { code, .. } => if spec_demand_fits(problem, actor, asked) {
            None
        } else {
            Some(code)
        },
        ConstraintModule::ReloadCapacity { code, .. } => if spec_demand_fits(problem, actor, asked) {
            None
        } else {
            Some(code)
        },
        _ => None,
    }
}

/// What the first `upto` modules say to a job on the route of an actor: the
/// code of the first one that objects.
pub open spec fn spec_hard_route(problem: &Problem, actor: usize, job: usize, upto: int) -> Option<i32>
    decreases upto,
{
    if upto <= 0 {
        None
    } else {
        match spec_hard_route(problem, actor, job, upto - 1) {
            Some(code) => Some(code),
            None => spec_module_on_route(problem.constraint.modules@[upto - 1], problem, actor, job),
        }
    }
}

/// Whether every stop of a scheduled tour is reached before its time window
/// closes.
pub open spec fn spec_in_time(scheduled: Seq<Activity>) -> bool {
    forall|p: int| 0 <= p < scheduled.len() ==> (#[trigger] scheduled[p]).schedule.arrival <= scheduled[p].time.end
}

/// Whether there is a route from every stop to the next.
pub open spec fn spec_reachable(problem: &Problem, profile: Profile, tour: Seq<Activity>) -> bool {
    forall|p: int|
        0 < p < tour.len() ==> problem.transport.spec_distance(
            profile,
            tour[p - 1].location,
            (#[trigger] tour[p]).location,
        ) >= 0 && problem.transport.spec_duration(profile, tour[p - 1].location, tour[p].location) >= 0
}

/// What a stop brings on board, of the kind of load `d`: the demand of a
/// pickup.
pub open spec fn spec_picked(problem: &Problem, stop: Activity, d: int) -> int {
    match stop.job {
        Some(job) => if job < problem.jobs@.len() && problem.jobs@[job as int].kind is Pickup {
            spec_amount(problem.jobs@[job as int].demand@, d)
        } else {
            0
        },
        None => 0,
    }
}

/// What a stop takes off board, of the kind of load `d`: the demand of a
/// delivery.
pub open spec fn spec_dropped(problem: &Problem, stop: Activity, d: int) -> int {
    match stop.job {
        Some(job) => if job < problem.jobs@.len() && problem.jobs@[job as int].kind is Delivery {
            spec_amount(problem.jobs@[job as int].demand@, d)
        } else {
            0
        },
        None => 0,
    }
}

/// What the first `upto` stops bring on board together.
pub open spec fn spec_picked_upto(problem: &Problem, tour: Seq<Activity>, d: int, upto: int) -> int
    decreases upto,
{
    if upto <= 0 {
        0
    } else {
        spec_picked_upto(problem, tour, d, upto - 1) + spec_picked(problem, tour[upto - 1], d)
    }
}

/// What the first `upto` stops take off board together.
pub open spec fn spec_dropped_upto(problem: &Problem, tour: Seq<Activity>, d: int, upto: int) -> int
    decreases upto,
{
    if upto <= 0 {
        0
    } else {
        spec_dropped_upto(problem, tour, d, upto - 1) + spec_dropped(problem, tour[upto - 1], d)
    }
}

/// The load of the kind `d` on board after the first `upto` stops: what is
/// to be delivered at later stops, and what was picked up so far.
pub open spec fn spec_load(problem: &Problem, tour: Seq<Activity>, d: int, upto: int) -> int {
    spec_dropped_upto(problem, tour, d, tour.len() as int) - spec_dropped_upto(problem, tour, d, upto)
        + spec_picked_upto(problem, tour, d, upto)
}

/// Whether the load never exceeds the capacity of the vehicle: for every
/// kind of load, at the start and after every stop.
pub open spec fn spec_within_capacity(problem: &Problem, actor: usize, tour: Seq<Activity>) -> bool {
    forall|d: int, upto: int|
        0 <= d && 0 <= upto <= tour.len() ==> #[trigger] spec_load(problem, tour, d, upto) <= spec_capacity(
            problem,
            actor,
            d,
        )
}

/// The capacity of the vehicle of an actor for the kind of load `d`.
pub open spec fn spec_capacity(problem: &Problem, actor: usize, d: int) -> int {
    match spec_vehicle_of(problem, actor) {
        Some(vehicle) => spec_amount(vehicle.capacity@, d),
        None => 0,
    }
}

/// The number of the kinds of load that the jobs of a tour ask for or the
/// vehicle can carry: beyond it every load and every capacity is nothing.
pub open spec fn spec_kinds(problem: &Problem, actor: usize, tour: Seq<Activity>, upto: int) -> int
    decreases upto,
{
    if upto <= 0 {
        match spec_vehicle_of(problem, actor) {
            Some(vehicle) => vehicle.capacity@.len() as int,
            None => 0,
        }
    } else {
        let before = spec_kinds(problem, actor, tour, upto - 1);
        let asked = match tour[upto - 1].job {
            Some(job) => if job < problem.jobs@.len() {
                problem.jobs@[job as int].demand@.len() as int
            } else {
                0
            },
            None => 0,
        };
        if asked > before {
            asked
        } else {
            before
        }
    }
}

/// The largest load of the kind `d` that is on board at the start or after
/// one of the first `upto` stops.
pub open spec fn spec_max_load_of_kind(problem: &Problem, tour: Seq<Activity>, d: int, upto: int) -> int
    decreases upto,
{
    if upto <= 0 {
        spec_load(problem, tour, d, 0)
    } else {
        let before = spec_max_load_of_kind(problem, tour, d, upto - 1);
        let here = spec_load(problem, tour, d, upto);
        if here > before {
            here
        } else {
            before
        }
    }
}

/// The largest load of one of the first `kinds` kinds that is on board at
/// any time of a tour.
pub open spec fn spec_max_load_upto(problem: &Problem, tour: Seq<Activity>, kinds: int) -> int
    decreases kinds,
{
    if kinds <= 0 {
        0
    } else {
        let before = spec_max_load_upto(problem, tour, kinds - 1);
        let here = spec_max_load_of_kind(problem, tour, kinds - 1, tour.len() as int);
        if here > before {
            here
        } else {
            before
        }
    }
}

/// The largest load of any kind that the vehicle carries on a tour, held
/// at `u64::MAX`.
pub open spec fn spec_max_load(problem: &Problem, actor: usize, tour: Seq<Activity>) -> u64 {
    let most = spec_max_load_upto(problem, tour, spec_kinds(problem, actor, tour, tour.len() as int));
    if most > u64::MAX {
        u64::MAX
    } else if most < 0 {
        0
    } else {
        most as u64
    }
}

/// What a module says to a tour of an actor, scheduled as `scheduled`: its
/// code where the tour breaks its rule.
pub open spec fn spec_module_on_tour(
    module: ConstraintModule,
    problem: &Problem,
    actor: usize,
    scheduled: Seq<Activity>,
) -> Option<i32> {
    match module {
        ConstraintModule::Transport { code } => if spec_in_time(scheduled) {
            None
        } else {
            Some(code)
        },
        ConstraintModule::Reachable { code } => if spec_reachable(
            problem,
            problem.spec_profile(actor),
            scheduled,
        ) {
            None
        } else {
            Some(code)
        },
        ConstraintModule::Capacity { code, .. } => if spec_within_capacity(problem, actor, scheduled) {
            None
        } else {
            Some(code)
        },
        ConstraintModule::ReloadCapacity { code, .. } => if spec_within_capacity(problem, actor, scheduled) {
            None
        } else {
            Some(code)
        },
        ConstraintModule::Travel { distance_code, duration_code } => if spec_too_long(
            problem,
            actor,
            scheduled,
        ) {
            Some(distance_code)
        } else if spec_too_late(problem, actor, scheduled) {
            Some(duration_code)
        } else {
            None
        },
        ConstraintModule::StrictLocking { code } => if spec_locks_kept(problem, actor, scheduled) {
            None
        } else {
            Some(code)
        },
        _ => None,
    }
}

/// The limits of the vehicle of an actor; none where the fleet lacks it.
pub open spec fn spec_limits_of(problem: &Problem, actor: usize) -> TravelLimits {
    match spec_vehicle_of(problem, actor) {
        Some(vehicle) => vehicle.limits,
        None => TravelLimits::spec_none(),
    }
}

/// Whether a tour is longer than its vehicle may go.
pub open spec fn spec_too_long(problem: &Problem, actor: usize, scheduled: Seq<Activity>) -> bool {
    match spec_limits_of(problem, actor).max_distance {
        Some(most) => spec_total_distance(
            &problem.transport,
            problem.spec_profile(actor),
            scheduled,
            scheduled.len() as int,
        ) > most,
        None => false,
    }
}

/// Whether a tour lasts longer than the shift of its vehicle may.
pub open spec fn spec_too_late(problem: &Problem, actor: usize, scheduled: Seq<Activity>) -> bool {
    match spec_limits_of(problem, actor).shift_time {
        Some(most) => spec_total_duration(scheduled) > most,
        None => false,
    }
}

/// What the first `upto` modules say to a scheduled tour: the code of the
/// first one that objects.
pub open spec fn spec_hard_tour(problem: &Problem, actor: usize, scheduled: Seq<Activity>, upto: int) -> Option<i32>
    decreases upto,
{
    if upto <= 0 {
        None
    } else {
        match spec_hard_tour(problem, actor, scheduled, upto - 1) {
            Some(code) => Some(code),
            None => spec_module_on_tour(problem.constraint.modules@[upto - 1], problem, actor, scheduled),
        }
    }
}

/// A tour to which no module objects keeps the rules of all modules: with
/// a transport module every stop is reached in time, with a reachability
/// module there is a route from every stop to the next, and with a capacity
/// module the load stays within the capacity.
pub proof fn lemma_hard_tour_passes(problem: &Problem, actor: usize, scheduled: Seq<Activity>, upto: int)
    requires
        0 <= upto <= problem.constraint.modules@.len(),
        spec_hard_tour(problem, actor, scheduled, upto) is None,
    ensures
        forall|m: int|
            0 <= m < upto ==> spec_module_on_tour(
                #[trigger] problem.constraint.modules@[m],
                problem,
                actor,
                scheduled,
            ) is None,
    decreases upto,
{
    if upto > 0 {
        lemma_hard_tour_passes(problem, actor, scheduled, upto - 1);
    }
}

/// Tells whether a list of strings holds every string of another.
pub fn contains_all(offered: &Vec<String>, asked: &Vec<String>) -> (all: bool)
    ensures
        all == forall|s: int|
            0 <= s < asked@.len() ==> spec_texts(offered@).contains(#[trigger] spec_texts(asked@)[s]),
{
    let mut s: usize = 0;
    while s < asked.len()
        invariant
            s <= asked@.len(),
            forall|k: int| 0 <= k < s ==> spec_texts(offered@).contains(#[trigger] spec_texts(asked@)[k]),
        decreases asked@.len() - s,
    {
        if !contains_text(offered, &asked[s]) {
            assert(!spec_texts(offered@).contains(spec_texts(asked@)[s as int]));
            return false;
        }
        s = s + 1;
    }
    true
}

/// Reads the amount of the kind of load `d`.
pub fn amount(amounts: &Vec<u64>, d: usize) -> (value: u64)
    ensures
        value == spec_amount(amounts@, d as int),
{
    if d < amounts.len() {
        amounts[d]
    } else {
        0
    }
}

impl Problem {
    /// The vehicle of an actor, if the fleet has both.
    pub fn vehicle_of(&self, actor: usize) -> (vehicle: Option<&Vehicle>)
        ensures
            match vehicle {
                Some(vehicle) => spec_vehicle_of(self, actor) == Some(*vehicle),
                None => spec_vehicle_of(self, actor) is None,
            },
    {
        if actor < self.fleet.actors.len() {
            let v: usize = self.fleet.actors[actor].vehicle;
            if v < self.fleet.vehicles.len() {
                return Some(&self.fleet.vehicles[v]);
            }
        }
        None
    }

    /// Tells whether the vehicle of an actor has the skills that a job asks
    /// for.
    pub fn skills_fit(&self, actor: usize, job: &Job) -> (fits: bool)
        ensures
            fits == spec_skills_fit(self, actor, *job),
    {
        match &job.dimens.skills {
            Some(asked) => match self.vehicle_of(actor) {
                Some(vehicle) => match &vehicle.dimens.skills {
                    Some(offered) => contains_all(offered, asked),
                    None => asked.len() == 0,
                },
                None => asked.len() == 0,
            },
            None => true,
        }
    }

    /// Tells whether no lock binds a job to another actor.
    pub fn lock_fits(&self, actor: usize, job: usize) -> (fits: bool)
        ensures
            fits == spec_lock_fits(self, actor, job),
    {
        let mut l: usize = 0;
        while l < self.locks.len()
            invariant
                l <= self.locks@.len(),
                forall|i: int, k: int|
                    0 <= i < l && 0 <= k < self.locks@[i].jobs@.len() && #[trigger] self.locks@[i].jobs@[k]
                        == job ==> self.locks@[i].actor == actor,
            decreases self.locks@.len() - l,
        {
            if self.locks[l].actor != actor {
                let mut k: usize = 0;
                while k < self.locks[l].jobs.len()
                    invariant
                        l < self.locks@.len(),
                        self.locks@[l as int].actor != actor,
                        k <= self.locks@[l as int].jobs@.len(),
                        forall|i: int| 0 <= i < k ==> self.locks@[l as int].jobs@[i] != job,
                    decreases self.locks@[l as int].jobs@.len() - k,
                {
                    if self.locks[l].jobs[k] == job {
                        assert(self.locks@[l as int].jobs@[k as int] == job);
                        return false;
                    }
                    k = k + 1;
                }
            }
            l = l + 1;
        }
        true
    }

    /// Tells whether a job that is bound to a vehicle is bound to the
    /// vehicle of the actor.
    pub fn binding_fits(&self, actor: usize, job: &Job) -> (fits: bool)
        ensures
            fits == spec_binding_fits(self, actor, *job),
    {
        match job.vehicle {
            Some(vehicle) => actor < self.fleet.actors.len() && self.fleet.actors[actor].vehicle == vehicle,
            None => true,
        }
    }

    /// Tells whether the vehicle of an actor can carry what a job asks for.
    pub fn demand_fits(&self, actor: usize, job: &Job) -> (fits: bool)
        ensures
            fits == spec_demand_fits(self, actor, *job),
    {
        let vehicle = self.vehicle_of(actor);
        let mut d: usize = 0;
        while d < job.demand.len()
            invariant
                d <= job.demand@.len(),
                match vehicle {
                    Some(vehicle) => spec_vehicle_of(self, actor) == Some(*vehicle),
                    None => spec_vehicle_of(self, actor) is None,
                },
                match vehicle {
                    Some(vehicle) => forall|k: int|
                        0 <= k < d ==> (#[trigger] job.demand@[k]) <= spec_amount(vehicle.capacity@, k),
                    None => forall|k: int| 0 <= k < d ==> (#[trigger] job.demand@[k]) == 0,
                },
            decreases job.demand@.len() - d,
        {
            let limit: u64 = match vehicle {
                Some(vehicle) => amount(&vehicle.capacity, d),
                None => 0,
            };
            if job.demand[d] > limit {
                assert(job.demand@[d as int] > limit);
                return false;
            }
            d = d + 1;
        }
        true
    }

    /// Asks the modules whether a job may go to the route of an actor at
    /// all: the vehicle has the skills, no lock binds the job to another
    /// actor, a job bound to a vehicle goes to that vehicle, and the vehicle
    /// can carry the demand. The answer is the code of the first module that
    /// objects.
    pub fn evaluate_hard_route(&self, route_ctx: &RouteContext, job: usize) -> (result: Result<(), i32>)
        requires
            job < self.jobs@.len(),
        ensures
            match result {
                Ok(_) => spec_hard_route(
                    self,
                    route_ctx.actor,
                    job,
                    self.constraint.modules@.len() as int,
                ) is None,
                Err(code) => spec_hard_route(
                    self,
                    route_ctx.actor,
                    job,
                    self.constraint.modules@.len() as int,
                ) == Some(code),
            },
    {
        let actor: usize = route_ctx.actor;
        let asked = &self.jobs[job];
        let mut m: usize = 0;
        while m < self.constraint.modules.len()
            invariant
                m <= self.constraint.modules@.len(),
                job < self.jobs@.len(),
                actor == route_ctx.actor,
                *asked == self.jobs@[job as int],
                spec_hard_route(self, actor, job, m as int) is None,
            decreases self.constraint.modules@.len() - m,
        {
            let verdict: Option<i32> = match self.constraint.modules[m] {
                ConstraintModule::Skills { code } => if self.skills_fit(actor, asked) {
                    None
                } else {
                    Some(code)
                },
                ConstraintModule::StrictLocking { code } => if self.lock_fits(actor, job) {
                    None
                } else {
                    Some(code)
                },
                ConstraintModule::Break { code, .. } => if self.binding_fits(actor, asked) {
                    None
                } else {
                    Some(code)
                },
                ConstraintModule::Capacity { code, .. } => if self.demand_fits(actor, asked) {
                    None
                } else {
                    Some(code)
                },
                ConstraintModule::ReloadCapacity { code, .. } => if self.demand_fits(actor, asked) {
                    None
                } else {
                    Some(code)
                },
                _ => None,
            };
            assert(verdict == spec_module_on_route(self.constraint.modules@[m as int], self, actor, job));
            match verdict {
                Some(code) => {
                    proof {
                        assert(spec_hard_route(self, actor, job, m as int + 1) == Some(code));
                        lemma_hard_route_stays(self, actor, job, m as int + 1, self.constraint.modules@.len() as int);
                    }
                    return Err(code);
                },
                None => {},
            }
            m = m + 1;
        }
        Ok(())
    }
}

/// Once a module has objected to a job, the answer of the pipeline is its
/// code, whatever later modules say.
pub proof fn lemma_hard_route_stays(problem: &Problem, actor: usize, job: usize, upto: int, more: int)
    requires
        0 <= upto <= more,
        spec_hard_route(problem, actor, job, upto) is Some,
    ensures
        spec_hard_route(problem, actor, job, more) == spec_hard_route(problem, actor, job, upto),
    decreases more - upto,
{
    if upto < more {
        lemma_hard_route_stays(problem, actor, job, upto, more - 1);
    }
}

/// Once a module has objected to a tour, the answer of the pipeline is its
/// code, whatever later modules say.
pub proof fn lemma_hard_tour_stays(problem: &Problem, actor: usize, scheduled: Seq<Activity>, upto: int, more: int)
    requires
        0 <= upto <= more,
        spec_hard_tour(problem, actor, scheduled, upto) is Some,
    ensures
        spec_hard_tour(problem, actor, scheduled, more) == spec_hard_tour(problem, actor, scheduled, upto),
    decreases more - upto,
{
    if upto < more {
        lemma_hard_tour_stays(problem, actor, scheduled, upto, more - 1);
    }
}

/// Sums of what stops bring on board and take off board are not negative,
/// grow with the number of stops, and stay below what so many stops can
/// carry at most.
pub proof fn lemma_sums_bounded(problem: &Problem, tour: Seq<Activity>, d: int, upto: int, more: int)
    requires
        0 <= upto <= more,
    ensures
        0 <= spec_picked_upto(problem, tour, d, upto) <= upto * u64::MAX,
        0 <= spec_dropped_upto(problem, tour, d, more) - spec_dropped_upto(problem, tour, d, upto) <= (more
            - upto) * u64::MAX,
    decreases more,
{
    if upto > 0 {
        lemma_sums_bounded(problem, tour, d, upto - 1, upto - 1);
        assert((upto - 1) * u64::MAX + u64::MAX == upto * u64::MAX) by (nonlinear_arith);
    }
    if upto < more {
        lemma_sums_bounded(problem, tour, d, upto, more - 1);
        assert((more - 1 - upto) * u64::MAX + u64::MAX == (more - upto) * u64::MAX) by (nonlinear_arith);
    } else {
        assert((more - upto) * u64::MAX == 0) by (nonlinear_arith)
            requires
                more == upto,
        ;
    }
}

/// Beyond the kinds of load that a tour and its vehicle know, nothing is on
/// board and nothing can be carried.
pub proof fn lemma_beyond_kinds(problem: &Problem, actor: usize, tour: Seq<Activity>, d: int, upto: int)
    requires
        0 <= upto <= tour.len(),
        d >= spec_kinds(problem, actor, tour, tour.len() as int),
    ensures
        spec_picked_upto(problem, tour, d, upto) == 0,
        spec_dropped_upto(problem, tour, d, upto) == 0,
        spec_capacity(problem, actor, d) == 0,
    decreases upto,
{
    lemma_kinds_grow(problem, actor, tour, 0, tour.len() as int);
    if upto > 0 {
        lemma_beyond_kinds(problem, actor, tour, d, upto - 1);
        lemma_kinds_grow(problem, actor, tour, upto, tour.len() as int);
    }
}

/// The number of the kinds of load does not fall with more stops.
pub proof fn lemma_kinds_grow(problem: &Problem, actor: usize, tour: Seq<Activity>, upto: int, more: int)
    requires
        0 <= upto <= more,
    ensures
        spec_kinds(problem, actor, tour, upto) <= spec_kinds(problem, actor, tour, more),
        spec_kinds(problem, actor, tour, 0) >= 0,
    decreases more - upto,
{
    if upto < more {
        lemma_kinds_grow(problem, actor, tour, upto, more - 1);
    }
}

/// Tells whether every stop of a tour is reached before its time window
/// closes.
pub fn in_time(scheduled: &Vec<Activity>) -> (ok: bool)
    ensures
        ok == spec_in_time(scheduled@),
{
    let mut p: usize = 0;
    while p < scheduled.len()
        invariant
            p <= scheduled@.len(),
            forall|k: int|
                0 <= k < p ==> (#[trigger] scheduled@[k]).schedule.arrival <= scheduled@[k].time.end,
        decreases scheduled@.len() - p,
    {
        if scheduled[p].schedule.arrival > scheduled[p].time.end {
            return false;
        }
        p = p + 1;
    }
    true
}

impl Problem {
    /// Tells whether there is a route from every stop of a tour to the next.
    pub fn reachable(&self, profile: Profile, tour: &Vec<Activity>) -> (ok: bool)
        ensures
            ok == spec_reachable(self, profile, tour@),
    {
        let mut p: usize = 1;
        while p < tour.len()
            invariant
                1 <= p,
                forall|k: int|
                    0 < k < p && k < tour@.len() ==> self.transport.spec_distance(
                        profile,
                        tour@[k - 1].location,
                        (#[trigger] tour@[k]).location,
                    ) >= 0 && self.transport.spec_duration(
                        profile,
                        tour@[k - 1].location,
                        tour@[k].location,
                    ) >= 0,
            decreases tour@.len() - p,
        {
            let from: usize = tour[p - 1].location;
            let to: usize = tour[p].location;
            if self.transport.distance(profile, from, to, 0) < 0 || self.transport.duration(
                profile,
                from,
                to,
                0,
            ) < 0 {
                return false;
            }
            p = p + 1;
        }
        true
    }

    /// What a stop brings on board and what it takes off board, of the kind
    /// of load `d`.
    pub fn stop_load(&self, stop: &Activity, d: usize) -> (result: (u64, u64))
        ensures
            result.0 == spec_picked(self, *stop, d as int),
            result.1 == spec_dropped(self, *stop, d as int),
    {
        match stop.job {
            Some(job) => {
                if job < self.jobs.len() {
                    match self.jobs[job].kind {
                        JobKind::Pickup => (amount(&self.jobs[job].demand, d), 0),
                        JobKind::Delivery => (0, amount(&self.jobs[job].demand, d)),
                        JobKind::Break => (0, 0),
                    }
                } else {
                    (0, 0)
                }
            },
            None => (0, 0),
        }
    }

    /// The capacity of the vehicle of an actor for the kind of load `d`.
    pub fn capacity_of(&self, actor: usize, d: usize) -> (capacity: u64)
        ensures
            capacity == spec_capacity(self, actor, d as int),
    {
        match self.vehicle_of(actor) {
            Some(vehicle) => amount(&vehicle.capacity, d),
            None => 0,
        }
    }

    /// The number of the kinds of load that a tour and its vehicle know.
    pub fn kinds_of(&self, actor: usize, tour: &Vec<Activity>) -> (kinds: usize)
        ensures
            kinds == spec_kinds(self, actor, tour@, tour@.len() as int),
    {
        let mut kinds: usize = match self.vehicle_of(actor) {
            Some(vehicle) => vehicle.capacity.len(),
            None => 0,
        };
        let mut p: usize = 0;
        while p < tour.len()
            invariant
                p <= tour@.len(),
                kinds == spec_kinds(self, actor, tour@, p as int),
            decreases tour@.len() - p,
        {
            let asked: usize = match tour[p].job {
                Some(job) => if job < self.jobs.len() {
                    self.jobs[job].demand.len()
                } else {
                    0
                },
                None => 0,
            };
            if asked > kinds {
                kinds = asked;
            }
            p = p + 1;
        }
        kinds
    }

    /// Tells whether the load of the kind `d` stays within the capacity of
    /// the vehicle along a tour.
    pub fn kind_within_capacity(&self, actor: usize, tour: &Vec<Activity>, d: usize) -> (ok: bool)
        ensures
            ok == forall|upto: int|
                0 <= upto <= tour@.len() ==> #[trigger] spec_load(self, tour@, d as int, upto)
                    <= spec_capacity(self, actor, d as int),
    {
        let n: usize = tour.len();
        let capacity: u128 = self.capacity_of(actor, d) as u128;
        let mut remaining: u128 = 0;
        let mut p: usize = 0;
        while p < n
            invariant
                n == tour@.len(),
                p <= n,
                remaining == spec_dropped_upto(self, tour@, d as int, p as int),
                remaining <= p * u64::MAX,
            decreases n - p,
        {
            let (_, dropped) = self.stop_load(&tour[p], d);
            proof {
                assert((p + 1) * u64::MAX == p * u64::MAX + u64::MAX) by (nonlinear_arith);
                assert(p * u64::MAX + u64::MAX <= u128::MAX) by (nonlinear_arith)
                    requires
                        p <= u64::MAX,
                ;
            }
            remaining = remaining + dropped as u128;
            p = p + 1;
        }
        let ghost total = remaining as int;
        let mut picked: u128 = 0;
        let mut upto: usize = 0;
        proof {
            lemma_sums_bounded(self, tour@, d as int, 0, n as int);
        }
        if remaining > capacity {
            assert(spec_load(self, tour@, d as int, 0) > spec_capacity(self, actor, d as int));
            return false;
        }
        while upto < n
            invariant
                n == tour@.len(),
                upto <= n,
                capacity == spec_capacity(self, actor, d as int),
                total == spec_dropped_upto(self, tour@, d as int, n as int),
                remaining == total - spec_dropped_upto(self, tour@, d as int, upto as int),
                picked == spec_picked_upto(self, tour@, d as int, upto as int),
                forall|k: int|
                    0 <= k <= upto ==> #[trigger] spec_load(self, tour@, d as int, k) <= capacity,
            decreases n - upto,
        {
            let (on, off) = self.stop_load(&tour[upto], d);
            proof {
                lemma_sums_bounded(self, tour@, d as int, upto as int + 1, n as int);
                lemma_sums_bounded(self, tour@, d as int, upto as int, n as int);
                assert((upto + 1) * u64::MAX + (n - (upto + 1)) * u64::MAX == n * u64::MAX) by (nonlinear_arith);
                assert(n * u64::MAX <= u128::MAX) by (nonlinear_arith)
                    requires
                        n <= u64::MAX,
                ;
            }
            remaining = remaining - off as u128;
            picked = picked + on as u128;
            upto = upto + 1;
            if picked + remaining > capacity {
                assert(spec_load(self, tour@, d as int, upto as int) > spec_capacity(self, actor, d as int));
                return false;
            }
        }
        true
    }

    /// The largest load of the kind `d` that is on board at any time of a
    /// tour.
    pub fn kind_max_load(&self, tour: &Vec<Activity>, d: usize) -> (most: u128)
        ensures
            most == spec_max_load_of_kind(self, tour@, d as int, tour@.len() as int),
    {
        let n: usize = tour.len();
        let mut remaining: u128 = 0;
        let mut p: usize = 0;
        while p < n
            invariant
                n == tour@.len(),
                p <= n,
                remaining == spec_dropped_upto(self, tour@, d as int, p as int),
                remaining <= p * u64::MAX,
            decreases n - p,
        {
            let (_, dropped) = self.stop_load(&tour[p], d);
            proof {
                assert((p + 1) * u64::MAX == p * u64::MAX + u64::MAX) by (nonlinear_arith);
                assert(p * u64::MAX + u64::MAX <= u128::MAX) by (nonlinear_arith)
                    requires
                        p <= u64::MAX,
                ;
            }
            remaining = remaining + dropped as u128;
            p = p + 1;
        }
        let ghost total = remaining as int;
        let mut picked: u128 = 0;
        let mut most: u128 = remaining;
        let mut upto: usize = 0;
        while upto < n
            invariant
                n == tour@.len(),
                upto <= n,
                total == spec_dropped_upto(self, tour@, d as int, n as int),
                remaining == total - spec_dropped_upto(self, tour@, d as int, upto as int),
                picked == spec_picked_upto(self, tour@, d as int, upto as int),
                most == spec_max_load_of_kind(self, tour@, d as int, upto as int),
            decreases n - upto,
        {
            let (on, off) = self.stop_load(&tour[upto], d);
            proof {
                lemma_sums_bounded(self, tour@, d as int, upto as int + 1, n as int);
                lemma_sums_bounded(self, tour@, d as int, upto as int, n as int);
                assert((upto + 1) * u64::MAX + (n - (upto + 1)) * u64::MAX == n * u64::MAX) by (nonlinear_arith);
                assert(n * u64::MAX <= u128::MAX) by (nonlinear_arith)
                    requires
                        n <= u64::MAX,
                ;
            }
            remaining = remaining - off as u128;
            picked = picked + on as u128;
            upto = upto + 1;
            assert(picked + remaining == spec_load(self, tour@, d as int, upto as int));
            if picked + remaining > most {
                most = picked + remaining;
            }
        }
        most
    }

    /// The largest load of any kind that the vehicle of an actor carries on
    /// a tour, held at `u64::MAX`.
    pub fn max_load(&self, actor: usize, tour: &Vec<Activity>) -> (most: u64)
        ensures
            most == spec_max_load(self, actor, tour@),
    {
        let kinds: usize = self.kinds_of(actor, tour);
        let mut most: u128 = 0;
        let mut d: usize = 0;
        while d < kinds
            invariant
                d <= kinds,
                most == spec_max_load_upto(self, tour@, d as int),
            decreases kinds - d,
        {
            let here: u128 = self.kind_max_load(tour, d);
            if here > most {
                most = here;
            }
            d = d + 1;
        }
        if most > u64::MAX as u128 {
            u64::MAX
        } else {
            most as u64
        }
    }

    /// Tells whether the load stays within the capacity of the vehicle
    /// along a tour, for every kind of load.
    pub fn within_capacity(&self, actor: usize, tour: &Vec<Activity>) -> (ok: bool)
        ensures
            ok == spec_within_capacity(self, actor, tour@),
    {
        let kinds: usize = self.kinds_of(actor, tour);
        let mut d: usize = 0;
        while d < kinds
            invariant
                d <= kinds,
                kinds == spec_kinds(self, actor, tour@, tour@.len() as int),
                forall|k: int, upto: int|
                    0 <= k < d && 0 <= upto <= tour@.len() ==> #[trigger] spec_load(self, tour@, k, upto)
                        <= spec_capacity(self, actor, k),
            decreases kinds - d,
        {
            if !self.kind_within_capacity(actor, tour, d) {
                return false;
            }
            d = d + 1;
        }
        assert forall|k: int, upto: int| 0 <= k && 0 <= upto <= tour@.len() implies #[trigger] spec_load(
            self,
            tour@,
            k,
            upto,
        ) <= spec_capacity(self, actor, k) by {
            if k >= kinds {
                lemma_beyond_kinds(self, actor, tour@, k, upto);
                lemma_beyond_kinds(self, actor, tour@, k, tour@.len() as int);
            }
        }
        true
    }

    /// The length of the way of a tour for vehicles of the given profile.
    pub fn tour_distance(&self, profile: Profile, tour: &Vec<Activity>) -> (distance: u64)
        ensures
            distance == spec_total_distance(&self.transport, profile, tour@, tour@.len() as int),
    {
        let mut distance: u64 = 0;
        let mut p: usize = 1;
        while p < tour.len()
            invariant
                1 <= p,
                p <= tour@.len() || (tour@.len() == 0 && p == 1),
                distance == spec_total_distance(&self.transport, profile, tour@, p as int),
            decreases tour@.len() - p,
        {
            distance = add_amounts(
                distance,
                clamp(self.transport.distance(profile, tour[p - 1].location, tour[p].location, 0)),
            );
            p = p + 1;
        }
        assert(spec_total_distance(&self.transport, profile, tour@, 0) == 0);
        assert(spec_total_distance(&self.transport, profile, tour@, 1) == 0);
        distance
    }

    /// The limits of the vehicle of an actor.
    pub fn limits_of(&self, actor: usize) -> (limits: TravelLimits)
        ensures
            limits == spec_limits_of(self, actor),
    {
        match self.vehicle_of(actor) {
            Some(vehicle) => vehicle.limits,
            None => TravelLimits::none(),
        }
    }

    /// Tells whether a tour is longer than its vehicle may go.
    pub fn too_long(&self, actor: usize, scheduled: &Vec<Activity>) -> (exceeds: bool)
        ensures
            exceeds == spec_too_long(self, actor, scheduled@),
    {
        match self.limits_of(actor).max_distance {
            Some(most) => self.tour_distance(self.profile(actor), scheduled) > most,
            None => false,
        }
    }

    /// Tells whether a tour lasts longer than the shift of its vehicle may.
    pub fn too_late(&self, actor: usize, scheduled: &Vec<Activity>) -> (exceeds: bool)
        ensures
            exceeds == spec_too_late(self, actor, scheduled@),
    {
        match self.limits_of(actor).shift_time {
            Some(most) => {
                let n: usize = scheduled.len();
                let duration: u64 = if n == 0 {
                    0
                } else {
                    elapsed(scheduled[0].schedule.departure, scheduled[n - 1].schedule.departure)
                };
                duration > most
            },
            None => false,
        }
    }

    /// Asks the modules whether a scheduled tour of an actor keeps their
    /// rules: every stop is reached before its time window closes, there is
    /// a route from every stop to the next, the load stays within the
    /// capacity, the tour is not longer and does not last longer than its
    /// vehicle may, and the jobs of every lock of the actor stand as the lock
    /// asks. The answer is the code of the first module that objects.
    pub fn evaluate_tour(&self, actor: usize, scheduled: &Vec<Activity>) -> (result: Result<(), i32>)
        ensures
            match result {
                Ok(_) => spec_hard_tour(self, actor, scheduled@, self.constraint.modules@.len() as int)
                    is None,
                Err(code) => spec_hard_tour(self, actor, scheduled@, self.constraint.modules@.len() as int)
                    == Some(code),
            },
    {
        let profile: Profile = self.profile(actor);
        let mut m: usize = 0;
        while m < self.constraint.modules.len()
            invariant
                m <= self.constraint.modules@.len(),
                profile == self.spec_profile(actor),
                spec_hard_tour(self, actor, scheduled@, m as int) is None,
            decreases self.constraint.modules@.len() - m,
        {
            let verdict: Option<i32> = match self.constraint.modules[m] {
                ConstraintModule::Transport { code } => if in_time(scheduled) {
                    None
                } else {
                    Some(code)
                },
                ConstraintModule::Reachable { code } => if self.reachable(profile, scheduled) {
                    None
                } else {
                    Some(code)
                },
                ConstraintModule::Capacity { code, .. } => if self.within_capacity(actor, scheduled) {
                    None
                } else {
                    Some(code)
                },
                ConstraintModule::ReloadCapacity { code, .. } => if self.within_capacity(actor, scheduled) {
                    None
                } else {
                    Some(code)
                },
                ConstraintModule::Travel { distance_code, duration_code } => if self.too_long(
                    actor,
                    scheduled,
                ) {
                    Some(distance_code)
                } else if self.too_late(actor, scheduled) {
                    Some(duration_code)
                } else {
                    None
                },
                ConstraintModule::StrictLocking { code } => if self.locks_kept(actor, scheduled) {
                    None
                } else {
                    Some(code)
                },
                _ => None,
            };
            assert(verdict == spec_module_on_tour(self.constraint.modules@[m as int], self, actor, scheduled@));
            match verdict {
                Some(code) => {
                    proof {
                        assert(spec_hard_tour(self, actor, scheduled@, m as int + 1) == Some(code));
                        lemma_hard_tour_stays(
                            self,
                            actor,
                            scheduled@,
                            m as int + 1,
                            self.constraint.modules@.len() as int,
                        );
                    }
                    return Err(code);
                },
                None => {},
            }
            m = m + 1;
        }
        Ok(())
    }

    /// The tour of a route with a stop inserted, scheduled anew.
    pub fn candidate_tour(&self, route_ctx: &RouteContext, activity_ctx: &ActivityContext) -> (scheduled: Vec<
        Activity,
    >)
        requires
            activity_ctx.index <= route_ctx.tour@.len(),
        ensures
            scheduled@ == spec_scheduled(
                &self.transport,
                self.spec_profile(route_ctx.actor),
                spec_candidate(route_ctx.tour@, *activity_ctx),
            ),
    {
        let mut candidate = route_ctx.tour.clone();
        assert(candidate@ =~= route_ctx.tour@);
        candidate.insert(activity_ctx.index, activity_ctx.target);
        let (scheduled, _, _) = self.schedule_tour(self.profile(route_ctx.actor), &candidate);
        scheduled
    }

    /// Asks the modules whether a stop may be inserted at a place of a
    /// route: the tour with the stop is scheduled anew and has to keep the
    /// rules of the modules. The answer is the code of the first module that
    /// objects.
    pub fn evaluate_hard_activity(&self, route_ctx: &RouteContext, activity_ctx: &ActivityContext) -> (result:
        Result<(), i32>)
        requires
            activity_ctx.index <= route_ctx.tour@.len(),
        ensures
            match result {
                Ok(_) => spec_hard_tour(
                    self,
                    route_ctx.actor,
                    spec_scheduled(
                        &self.transport,
                        self.spec_profile(route_ctx.actor),
                        spec_candidate(route_ctx.tour@, *activity_ctx),
                    ),
                    self.constraint.modules@.len() as int,
                ) is None,
                Err(code) => spec_hard_tour(
                    self,
                    route_ctx.actor,
                    spec_scheduled(
                        &self.transport,
                        self.spec_profile(route_ctx.actor),
                        spec_candidate(route_ctx.tour@, *activity_ctx),
                    ),
                    self.constraint.modules@.len() as int,
                ) == Some(code),
            },
    {
        let scheduled = self.candidate_tour(route_ctx, activity_ctx);
        self.evaluate_tour(route_ctx.actor, &scheduled)
    }

    /// What the insertion of a stop at a place of a route adds to the cost
    /// of the route: the cost of the tour with the stop, scheduled anew, less
    /// the cost of the tour as it is; nothing where the tour gets cheaper.
    pub fn evaluate_soft_activity(&self, route_ctx: &RouteContext, activity_ctx: &ActivityContext) -> (cost: Cost)
        requires
            activity_ctx.index <= route_ctx.tour@.len(),
        ensures
            cost == spec_soft_activity(self, route_ctx@, *activity_ctx),
    {
        let scheduled = self.candidate_tour(route_ctx, activity_ctx);
        let candidate = RouteContext { actor: route_ctx.actor, tour: scheduled, state: RouteState::new() };
        let with: Statistic = self.route_statistic(&candidate);
        let without: Statistic = self.route_statistic(route_ctx);
        proof {
            lemma_statistic_of_tour(self, candidate@, spec_with_stop(self, route_ctx@, *activity_ctx));
        }
        if with.cost > without.cost {
            with.cost - without.cost
        } else {
            0
        }
    }
}

/// A route with a stop inserted and its tour scheduled anew.
pub open spec fn spec_with_stop(problem: &Problem, route: RouteView, activity_ctx: ActivityContext) -> RouteView {
    RouteView {
        actor: route.actor,
        tour: spec_scheduled(
            &problem.transport,
            problem.spec_profile(route.actor),
            spec_candidate(route.tour, activity_ctx),
        ),
        route_states: route.route_states,
        activity_states: route.activity_states,
    }
}

/// What the insertion of a stop adds to the cost of a route.
pub open spec fn spec_soft_activity(problem: &Problem, route: RouteView, activity_ctx: ActivityContext) -> Cost {
    let with = spec_route_statistic(problem, spec_with_stop(problem, route, activity_ctx)).cost;
    let without = spec_route_statistic(problem, route).cost;
    if with > without {
        (with - without) as u64
    } else {
        0
    }
}

/// The measures of a route are those of its actor and its tour; the state
/// that it keeps plays no part.
pub proof fn lemma_statistic_of_tour(problem: &Problem, a: RouteView, b: RouteView)
    requires
        a.actor == b.actor,
        a.tour == b.tour,
    ensures
        spec_route_statistic(problem, a) == spec_route_statistic(problem, b),
{
}

/// A tour that is scheduled anew and to which no module objects keeps the
/// rules: its times never run backwards and service nowhere begins before
/// the time window opens; with a transport module every stop is reached
/// before its time window closes; with a module that watches the load, the
/// load never exceeds the capacity of the vehicle; and with a module that
/// watches the locks, the jobs of every lock of the actor stand as the lock
/// asks.
pub proof fn lemma_accepted_tour(problem: &Problem, actor: usize, tour: Seq<Activity>)
    requires
        spec_hard_tour(
            problem,
            actor,
            spec_scheduled(&problem.transport, problem.spec_profile(actor), tour),
            problem.constraint.modules@.len() as int,
        ) is None,
    ensures
        spec_times_in_order(spec_scheduled(&problem.transport, problem.spec_profile(actor), tour)),
        spec_has_transport(problem.constraint.modules@) ==> spec_in_time(
            spec_scheduled(&problem.transport, problem.spec_profile(actor), tour),
        ),
        spec_has_capacity(problem.constraint.modules@) ==> spec_within_capacity(
            problem,
            actor,
            spec_scheduled(&problem.transport, problem.spec_profile(actor), tour),
        ),
        spec_has_locking(problem.constraint.modules@) ==> spec_locks_kept(
            problem,
            actor,
            spec_scheduled(&problem.transport, problem.spec_profile(actor), tour),
        ),
{
    let scheduled = spec_scheduled(&problem.transport, problem.spec_profile(actor), tour);
    let modules = problem.constraint.modules@;
    lemma_scheduled_times_in_order(&problem.transport, problem.spec_profile(actor), tour);
    lemma_hard_tour_passes(problem, actor, scheduled, modules.len() as int);
    if spec_has_transport(modules) {
        let m = choose|m: int| 0 <= m < modules.len() && (#[trigger] modules[m]) is Transport;
        assert(spec_module_on_tour(modules[m], problem, actor, scheduled) is None);
    }
    if spec_has_capacity(modules) {
        let m = choose|m: int|
            0 <= m < modules.len() && ((#[trigger] modules[m]) is Capacity || modules[m] is ReloadCapacity);
        assert(spec_module_on_tour(modules[m], problem, actor, scheduled) is None);
    }
    if spec_has_locking(modules) {
        let m = choose|m: int| 0 <= m < modules.len() && (#[trigger] modules[m]) is StrictLocking;
        assert(spec_module_on_tour(modules[m], problem, actor, scheduled) is None);
    }
}

} // verus!
