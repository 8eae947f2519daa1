//! A problem as it is handed in: a plan of jobs and a fleet of vehicle
//! types, with places given by their coordinates and times as text.

use vstd::prelude::*;

verus! {

/// A place on the map. The two numbers stand for latitude and longitude and
/// serve only to tell places apart.
#[derive(Clone, Copy, Debug)]
pub struct Coordinate {
    pub lat: u64,
    pub lng: u64,
}

/// One place of a job with one visit.
pub struct JobPlace {
    pub location: Coordinate,
    pub duration: u64,
    /// The time windows, each as a pair of times.
    pub times: Option<Vec<Vec<String>>>,
}

/// The places of a job with one visit.
pub struct JobPlaces {
    pub pickup: Option<JobPlace>,
    pub delivery: Option<JobPlace>,
}

/// A job with at most one pickup and one delivery.
pub struct Job {
    pub id: String,
    pub places: JobPlaces,
    pub demand: Vec<u64>,
    pub skills: Option<Vec<String>>,
}

/// One place of a job with several visits.
pub struct MultiJobPlace {
    pub location: Coordinate,
    pub duration: u64,
    pub times: Option<Vec<Vec<String>>>,
    pub demand: Vec<u64>,
}

/// The places of a job with several visits.
pub struct MultiJobPlaces {
    pub pickups: Vec<MultiJobPlace>,
    pub deliveries: Vec<MultiJobPlace>,
}

/// A job with several pickups and deliveries.
pub struct MultiJob {
    pub id: String,
    pub places: MultiJobPlaces,
    pub skills: Option<Vec<String>>,
}

/// A job of the plan.
pub enum JobVariant {
    Single(Job),
    Multi(MultiJob),
}

/// How a relation binds its jobs to the vehicle.
#[derive(Clone, Copy, Debug)]
pub enum RelationType {
    /// The jobs are served by the vehicle, in any order.
    Tour,
    /// The jobs are served in the given order; others may come between.
    Flexible,
    /// The jobs are served in the given order with nothing between.
    Sequence,
}

/// Jobs that are bound to one vehicle.
pub struct Relation {
    pub type_field: RelationType,
    pub jobs: Vec<String>,
    pub vehicle_id: String,
}

/// The jobs and what binds them.
pub struct Plan {
    pub jobs: Vec<JobVariant>,
    pub relations: Option<Vec<Relation>>,
}

/// What a vehicle costs.
#[derive(Clone, Copy, Debug)]
pub struct VehicleCosts {
    pub fixed: Option<u64>,
    pub distance: u64,
    pub time: u64,
}

/// Where and when a shift starts or ends.
pub struct VehiclePlace {
    pub time: String,
    pub location: Coordinate,
}

/// A break within a shift.
pub struct VehicleBreak {
    pub times: Vec<Vec<String>>,
    pub duration: u64,
    pub location: Option<Coordinate>,
}

/// A place at which a vehicle can load anew.
pub struct VehicleReload {
    pub times: Option<Vec<Vec<String>>>,
    pub location: Coordinate,
    pub duration: u64,
}

/// One shift of a vehicle.
pub struct VehicleShift {
    pub start: VehiclePlace,
    pub end: Option<VehiclePlace>,
    pub breaks: Option<Vec<VehicleBreak>>,
    pub reloads: Option<Vec<VehicleReload>>,
}

/// Limits on the tours of a vehicle.
#[derive(Clone, Copy, Debug)]
pub struct VehicleLimits {
    pub max_distance: Option<u64>,
    pub shift_time: Option<u64>,
}

/// A kind of vehicle, of which the fleet has `amount`.
pub struct VehicleType {
    pub id: String,
    pub profile: String,
    pub costs: VehicleCosts,
    pub shifts: Vec<VehicleShift>,
    pub capacity: Vec<u64>,
    pub amount: usize,
    pub skills: Option<Vec<String>>,
    pub limits: Option<VehicleLimits>,
}

/// The vehicles.
pub struct Fleet {
    pub types: Vec<VehicleType>,
}

/// The wish for evenly loaded tours.
#[derive(Clone, Copy, Debug)]
pub struct EvenDistribution {
    pub enabled: bool,
    pub extra_cost: Option<u64>,
}

/// Features that a problem switches on.
#[derive(Clone, Copy, Debug)]
pub struct Features {
    pub even_distribution: Option<EvenDistribution>,
}

/// Settings of a problem.
#[derive(Clone, Copy, Debug)]
pub struct Config {
    pub features: Option<Features>,
}

/// A problem as it is handed in.
pub struct Problem {
    pub id: String,
    pub plan: Plan,
    pub fleet: Fleet,
    pub config: Option<Config>,
}

} // verus!
