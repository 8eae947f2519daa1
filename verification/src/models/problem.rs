//! Fleet, jobs, routing matrices, locks and the problem that holds them.

use vstd::prelude::*;
use crate::construction::constraints::ConstraintPipeline;
use crate::models::common::{Cost, Duration, Location, Profile, TimeWindow, Timestamp};

verus! {

/// Travel times and distances between locations, row by row: the entry for
/// the way from `from` to `to` stands at `from * num_destinations + to`.
/// A negative distance or travel time, or an error code other than zero,
/// marks a pair without a route.
pub struct Matrix {
    pub num_origins: usize,
    pub num_destinations: usize,
    pub travel_times: Vec<i64>,
    pub distances: Vec<i64>,
    pub error_codes: Option<Vec<i64>>,
}

impl Matrix {
    /// Where the entry of a pair stands.
    pub open spec fn spec_index(&self, from: Location, to: Location) -> int {
        from * self.num_destinations + to
    }

    /// Whether the matrix has both entries of a pair.
    pub open spec fn covers(&self, from: Location, to: Location) -> bool {
        &&& from < self.num_origins
        &&& to < self.num_destinations
        &&& self.spec_index(from, to) < self.travel_times@.len()
        &&& self.spec_index(from, to) < self.distances@.len()
    }

    /// Whether an error code marks the pair as without a route.
    pub open spec fn has_error(&self, from: Location, to: Location) -> bool {
        match self.error_codes {
            Some(codes) => self.spec_index(from, to) < codes@.len()
                && codes@[self.spec_index(from, to)] != 0,
            None => false,
        }
    }

    /// The distance of a pair, `-1` where the matrix has no usable entry.
    pub open spec fn spec_distance(&self, from: Location, to: Location) -> i64 {
        if self.covers(from, to) && !self.has_error(from, to) {
            self.distances@[self.spec_index(from, to)]
        } else {
            -1i64
        }
    }

    /// The travel time of a pair, `-1` where the matrix has no usable entry.
    pub open spec fn spec_duration(&self, from: Location, to: Location) -> i64 {
        if self.covers(from, to) && !self.has_error(from, to) {
            self.travel_times@[self.spec_index(from, to)]
        } else {
            -1i64
        }
    }

    /// The position of a pair's entries, if the matrix has them and no error
    /// code marks the pair.
    fn usable_index(&self, from: Location, to: Location) -> (index: Option<usize>)
        ensures
            match index {
                Some(i) => self.covers(from, to) && !self.has_error(from, to) && i
                    == self.spec_index(from, to),
                None => !(self.covers(from, to) && !self.has_error(from, to)),
            },
    {
        if from >= self.num_origins || to >= self.num_destinations {
            return None;
        }
        let times: usize = self.travel_times.len();
        let row: usize = match from.checked_mul(self.num_destinations) {
            Some(row) => row,
            None => { return None; },
        };
        let index: usize = match row.checked_add(to) {
            Some(index) => index,
            None => { return None; },
        };
        if index >= times || index >= self.distances.len() {
            return None;
        }
        match &self.error_codes {
            Some(codes) => {
                if index < codes.len() && codes[index] != 0 {
                    return None;
                }
            },
            None => {},
        }
        Some(index)
    }

    /// The distance from `from` to `to`.
    pub fn distance(&self, from: Location, to: Location) -> (distance: i64)
        ensures
            distance == self.spec_distance(from, to),
    {
        match self.usable_index(from, to) {
            Some(index) => self.distances[index],
            None => -1,
        }
    }

    /// The travel time from `from` to `to`.
    pub fn duration(&self, from: Location, to: Location) -> (duration: i64)
        ensures
            duration == self.spec_duration(from, to),
    {
        match self.usable_index(from, to) {
            Some(index) => self.travel_times[index],
            None => -1,
        }
    }
}

/// The routing oracle: one matrix for each profile.
pub struct TransportCost {
    pub matrices: Vec<Matrix>,
}

impl TransportCost {
    /// The distance between two locations for a profile; negative where
    /// there is no route or no matrix.
    pub open spec fn spec_distance(&self, profile: Profile, from: Location, to: Location) -> i64 {
        if profile < self.matrices@.len() {
            self.matrices@[profile as int].spec_distance(from, to)
        } else {
            -1i64
        }
    }

    /// The travel time between two locations for a profile; negative where
    /// there is no route or no matrix.
    pub open spec fn spec_duration(&self, profile: Profile, from: Location, to: Location) -> i64 {
        if profile < self.matrices@.len() {
            self.matrices@[profile as int].spec_duration(from, to)
        } else {
            -1i64
        }
    }

    /// A routing oracle over the given matrices.
    pub fn new(matrices: Vec<Matrix>) -> (transport: TransportCost)
        ensures
            transport.matrices == matrices,
    {
        TransportCost { matrices }
    }

    /// The distance from `from` to `to` for a vehicle of the given profile.
    /// The matrices do not depend on the time of departure.
    pub fn distance(&self, profile: Profile, from: Location, to: Location, departure: Timestamp) -> (distance: i64)
        ensures
            distance == self.spec_distance(profile, from, to),
    {
        if profile < self.matrices.len() {
            self.matrices[profile].distance(from, to)
        } else {
            -1i64
        }
    }

    /// The travel time from `from` to `to` for a vehicle of the given profile.
    /// The matrices do not depend on the time of departure.
    pub fn duration(&self, profile: Profile, from: Location, to: Location, departure: Timestamp) -> (duration: i64)
        ensures
            duration == self.spec_duration(profile, from, to),
    {
        if profile < self.matrices.len() {
            self.matrices[profile].duration(from, to)
        } else {
            -1i64
        }
    }
}

/// What a vehicle or a driver costs.
#[derive(Clone, Copy, Debug)]
pub struct Costs {
    pub fixed: Cost,
    pub per_distance: Cost,
    pub per_driving_time: Cost,
    pub per_waiting_time: Cost,
    pub per_service_time: Cost,
}

/// Named properties of a job or a vehicle.
pub struct Dimensions {
    pub id: Option<String>,
    pub skills: Option<Vec<String>>,
}

impl Dimensions {
    /// Properties with nothing set.
    pub fn new() -> (dimens: Dimensions)
        ensures
            dimens.id is None,
            dimens.skills is None,
    {
        Dimensions { id: None, skills: None }
    }

    /// Sets the identifier.
    pub fn set_id(&mut self, id: &str)
        ensures
            final(self).id is Some,
            final(self).id->0@ == id@,
            final(self).skills == old(self).skills,
    {
        self.id = Some(id.to_owned());
    }
}

/// Where and when a vehicle starts.
#[derive(Clone, Copy, Debug)]
pub struct VehiclePlace {
    pub location: Location,
    pub time: Timestamp,
}

/// One shift of a vehicle: its start and, if it has to return, its end.
#[derive(Clone, Copy, Debug)]
pub struct VehicleDetail {
    pub start: Option<VehiclePlace>,
    pub end: Option<VehiclePlace>,
}

/// A driver.
pub struct Driver {
    pub costs: Costs,
    pub dimens: Dimensions,
    pub details: Vec<VehicleDetail>,
}

/// A vehicle.
pub struct Vehicle {
    pub profile: Profile,
    pub costs: Costs,
    pub dimens: Dimensions,
    pub capacity: Vec<u64>,
    pub limits: TravelLimits,
    pub details: Vec<VehicleDetail>,
}

/// The most that a tour of a vehicle may be long and may last, where there
/// is a limit.
#[derive(Clone, Copy, Debug)]
pub struct TravelLimits {
    pub max_distance: Option<u64>,
    pub shift_time: Option<u64>,
}

impl TravelLimits {
    /// No limits.
    pub open spec fn spec_none() -> TravelLimits {
        TravelLimits { max_distance: None, shift_time: None }
    }

    /// No limits.
    pub fn none() -> (limits: TravelLimits)
        ensures
            limits == Self::spec_none(),
    {
        TravelLimits { max_distance: None, shift_time: None }
    }
}

/// A driver with a vehicle on one of its shifts: the unit that runs a tour.
/// The driver and the vehicle are given by their positions in the fleet.
#[derive(Clone, Copy, Debug)]
pub struct Actor {
    pub driver: usize,
    pub vehicle: usize,
    pub detail: VehicleDetail,
}

/// The fleet: drivers, vehicles, and every actor that they form.
pub struct Fleet {
    pub drivers: Vec<Driver>,
    pub vehicles: Vec<Vehicle>,
    pub actors: Vec<Actor>,
}

/// The actors of one shift of a vehicle: one for each of the first `upto`
/// drivers.
pub open spec fn spec_detail_actors(vehicle: usize, detail: VehicleDetail, upto: int) -> Seq<Actor>
    decreases upto,
{
    if upto <= 0 {
        Seq::empty()
    } else {
        spec_detail_actors(vehicle, detail, upto - 1).push(
            Actor { driver: (upto - 1) as usize, vehicle, detail },
        )
    }
}

/// The actors of the first `upto` shifts of a vehicle.
pub open spec fn spec_vehicle_actors(drivers: int, vehicle: usize, details: Seq<VehicleDetail>, upto: int) -> Seq<Actor>
    decreases upto,
{
    if upto <= 0 {
        Seq::empty()
    } else {
        spec_vehicle_actors(drivers, vehicle, details, upto - 1) + spec_detail_actors(
            vehicle,
            details[upto - 1],
            drivers,
        )
    }
}

/// The actors that drivers and the first `upto` vehicles form: every driver
/// with every vehicle on every shift of it; vehicle by vehicle, shift by
/// shift, driver by driver.
pub open spec fn spec_actors(drivers: int, vehicles: Seq<Vehicle>, upto: int) -> Seq<Actor>
    decreases upto,
{
    if upto <= 0 {
        Seq::empty()
    } else {
        spec_actors(drivers, vehicles, upto - 1) + spec_vehicle_actors(
            drivers,
            (upto - 1) as usize,
            vehicles[upto - 1].details@,
            vehicles[upto - 1].details@.len() as int,
        )
    }
}

impl Fleet {
    /// Whether every actor names a driver and a vehicle of the fleet.
    pub open spec fn wf(&self) -> bool {
        forall|a: int|
            0 <= a < self.actors@.len() ==> (#[trigger] self.actors@[a]).driver
                < self.drivers@.len() && self.actors@[a].vehicle < self.vehicles@.len()
    }

    /// The fleet of the given drivers and vehicles, with every actor that
    /// they form.
    pub fn new(drivers: Vec<Driver>, vehicles: Vec<Vehicle>) -> (fleet: Fleet)
        ensures
            fleet.drivers == drivers,
            fleet.vehicles == vehicles,
            fleet.actors@ == spec_actors(drivers@.len() as int, vehicles@, vehicles@.len() as int),
            fleet.wf(),
    {
        let mut actors: Vec<Actor> = Vec::new();
        let count: usize = drivers.len();
        let mut v: usize = 0;
        while v < vehicles.len()
            invariant
                v <= vehicles@.len(),
                count == drivers@.len(),
                actors@ == spec_actors(count as int, vehicles@, v as int),
                forall|a: int|
                    0 <= a < actors@.len() ==> (#[trigger] actors@[a]).driver < count && actors@[a].vehicle
                        < vehicles@.len(),
            decreases vehicles@.len() - v,
        {
            let ghost before = actors@;
            let mut d: usize = 0;
            assert(before + spec_vehicle_actors(count as int, v, vehicles@[v as int].details@, 0) =~= before);
            while d < vehicles[v].details.len()
                invariant
                    v < vehicles@.len(),
                    d <= vehicles@[v as int].details@.len(),
                    count == drivers@.len(),
                    actors@ == before + spec_vehicle_actors(
                        count as int,
                        v,
                        vehicles@[v as int].details@,
                        d as int,
                    ),
                    forall|a: int|
                        0 <= a < actors@.len() ==> (#[trigger] actors@[a]).driver < count
                            && actors@[a].vehicle < vehicles@.len(),
                decreases vehicles@[v as int].details@.len() - d,
            {
                let detail: VehicleDetail = vehicles[v].details[d];
                let ghost inner = actors@;
                let mut k: usize = 0;
                assert(inner + spec_detail_actors(v, detail, 0) =~= inner);
                while k < count
                    invariant
                        v < vehicles@.len(),
                        k <= count,
                        actors@ == inner + spec_detail_actors(v, detail, k as int),
                        forall|a: int|
                            0 <= a < actors@.len() ==> (#[trigger] actors@[a]).driver < count
                                && actors@[a].vehicle < vehicles@.len(),
                    decreases count - k,
                {
                    actors.push(Actor { driver: k, vehicle: v, detail });
                    k = k + 1;
                    assert(actors@ =~= inner + spec_detail_actors(v, detail, k as int));
                }
                d = d + 1;
                assert(actors@ =~= before + spec_vehicle_actors(
                    count as int,
                    v,
                    vehicles@[v as int].details@,
                    d as int,
                ));
            }
            v = v + 1;
            assert(actors@ =~= spec_actors(count as int, vehicles@, v as int));
        }
        Fleet { drivers, vehicles, actors }
    }
}

/// What a job asks of the vehicle that serves it.
#[derive(Clone, Copy, Debug)]
pub enum JobKind {
    /// Goods are on board from the start and leave the vehicle at the job.
    Delivery,
    /// Goods come on board at the job and stay to the end.
    Pickup,
    /// A break of the vehicle that the job names.
    Break,
}

/// One visit that is asked for.
pub struct Job {
    pub kind: JobKind,
    /// Where the visit takes place; a job without a place is served where
    /// the vehicle already is.
    pub location: Option<Location>,
    pub duration: Duration,
    pub time: TimeWindow,
    pub demand: Vec<u64>,
    /// The only vehicle that may serve the job, if it is bound to one.
    pub vehicle: Option<usize>,
    pub dimens: Dimensions,
}

/// How the jobs of a lock are held in their tour.
#[derive(Clone, Copy, Debug)]
pub enum LockOrder {
    /// The jobs are served by the actor, at any place of its tour.
    Any,
    /// The jobs are served in the given order; other jobs may stand between.
    Sequence,
    /// The jobs are served in the given order with nothing between.
    Strict,
}

/// Jobs that are bound to one actor.
pub struct Lock {
    pub actor: usize,
    pub order: LockOrder,
    pub jobs: Vec<usize>,
}

/// A lock as a value: its actor, how it holds its jobs, and the jobs.
pub struct LockView {
    pub actor: usize,
    pub order: LockOrder,
    pub jobs: Seq<usize>,
}

impl View for Lock {
    type V = LockView;

    open spec fn view(&self) -> LockView {
        LockView { actor: self.actor, order: self.order, jobs: self.jobs@ }
    }
}

/// How candidate solutions are ranked: fewer jobs left out first, then the
/// lower cost.
#[derive(Clone, Copy, Debug)]
pub struct ObjectiveCost {
    /// What each job that is not served adds to the cost.
    pub unassigned_penalty: Cost,
}

impl ObjectiveCost {
    /// The ranking that adds nothing for a job that is not served.
    pub open spec fn spec_default() -> ObjectiveCost {
        ObjectiveCost { unassigned_penalty: 0 }
    }
}

impl Default for ObjectiveCost {
    fn default() -> (objective: ObjectiveCost)
        ensures
            objective == ObjectiveCost::spec_default(),
    {
        ObjectiveCost { unassigned_penalty: 0 }
    }
}

/// What the reader notes of a problem for those who write the solution.
pub struct Extras {
    pub problem_id: String,
    pub capacity_type: String,
    pub coord_index: crate::format::coord_index::CoordIndex,
}

/// A routing problem. It is built once and then only read.
pub struct Problem {
    pub fleet: Fleet,
    pub jobs: Vec<Job>,
    pub locks: Vec<Lock>,
    pub constraint: ConstraintPipeline,
    pub transport: TransportCost,
    pub objective: ObjectiveCost,
    pub extras: Extras,
}

impl Problem {
    /// Whether the parts of the problem fit together: actors name drivers
    /// and vehicles of the fleet, bound jobs name vehicles, locks name
    /// actors and jobs.
    pub open spec fn wf(&self) -> bool {
        &&& self.fleet.wf()
        &&& forall|l: int|
            0 <= l < self.locks@.len() ==> (#[trigger] self.locks@[l]).actor
                < self.fleet.actors@.len()
        &&& forall|l: int, k: int|
            0 <= l < self.locks@.len() && 0 <= k < self.locks@[l].jobs@.len() ==> (
            #[trigger] self.locks@[l].jobs@[k]) < self.jobs@.len()
    }

    /// The profile of an actor's vehicle; profile `0` for an actor or a
    /// vehicle that the fleet does not have.
    pub open spec fn spec_profile(&self, actor: usize) -> Profile {
        if actor < self.fleet.actors@.len() && self.fleet.actors@[actor as int].vehicle
            < self.fleet.vehicles@.len() {
            self.fleet.vehicles@[self.fleet.actors@[actor as int].vehicle as int].profile
        } else {
            0
        }
    }

    /// The profile of an actor's vehicle.
    pub fn profile(&self, actor: usize) -> (profile: Profile)
        ensures
            profile == self.spec_profile(actor),
    {
        if actor < self.fleet.actors.len() {
            let vehicle: usize = self.fleet.actors[actor].vehicle;
            if vehicle < self.fleet.vehicles.len() {
                return self.fleet.vehicles[vehicle].profile;
            }
        }
        0
    }
}

} // verus!
