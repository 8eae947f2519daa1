//! The index of the coordinates that a problem names: every place gets the
//! number at which it was first seen, and the routing matrices are read by
//! these numbers.

use vstd::prelude::*;
use crate::format::api::{Coordinate, Job, JobVariant, MultiJobPlace, VehicleBreak};
use crate::format::api::{VehicleReload, VehicleShift, VehicleType};

verus! {

/// The places in the order in which they were first added. The index of a
/// place is its position.
pub struct CoordIndex {
    pub coords: Vec<Coordinate>,
}

/// A list of places with `location` added, unless it is in the list.
pub open spec fn spec_add_coord(coords: Seq<Coordinate>, location: Coordinate) -> Seq<Coordinate> {
    if coords.contains(location) {
        coords
    } else {
        coords.push(location)
    }
}

/// A list of places with the first `upto` of `locations` added, one after
/// the other.
pub open spec fn spec_add_coords(coords: Seq<Coordinate>, locations: Seq<Coordinate>, upto: int) -> Seq<Coordinate>
    decreases upto,
{
    if upto <= 0 {
        coords
    } else {
        spec_add_coord(spec_add_coords(coords, locations, upto - 1), locations[upto - 1])
    }
}

/// The position of the first place equal to `location` among the first
/// `upto` places.
pub open spec fn spec_position(coords: Seq<Coordinate>, location: Coordinate, upto: int) -> Option<usize>
    decreases upto,
{
    if upto <= 0 {
        None
    } else {
        match spec_position(coords, location, upto - 1) {
            Some(index) => Some(index),
            None => if coords[upto - 1] == location {
                Some((upto - 1) as usize)
            } else {
                None
            },
        }
    }
}

/// A place has a position exactly if the list holds it, and the position
/// is that of the place.
pub proof fn lemma_position(coords: Seq<Coordinate>, location: Coordinate, upto: int)
    requires
        0 <= upto <= coords.len(),
        upto <= usize::MAX,
    ensures
        match spec_position(coords, location, upto) {
            Some(index) => index < upto && coords[index as int] == location,
            None => forall|k: int| 0 <= k < upto ==> coords[k] != location,
        },
    decreases upto,
{
    if upto > 0 {
        lemma_position(coords, location, upto - 1);
    }
}

impl CoordIndex {
    /// An index without places.
    pub fn new() -> (index: CoordIndex)
        ensures
            index.coords@ == Seq::<Coordinate>::empty(),
    {
        CoordIndex { coords: Vec::new() }
    }

    /// The index of a place, if the place was added.
    pub fn get_by_loc(&self, location: &Coordinate) -> (index: Option<usize>)
        ensures
            index == spec_position(self.coords@, *location, self.coords@.len() as int),
            index is Some <==> self.coords@.contains(*location),
    {
        let mut k: usize = 0;
        while k < self.coords.len()
            invariant
                k <= self.coords@.len(),
                spec_position(self.coords@, *location, k as int) is None,
            decreases self.coords@.len() - k,
        {
            if self.coords[k].lat == location.lat && self.coords[k].lng == location.lng {
                proof {
                    lemma_position(self.coords@, *location, self.coords@.len() as int);
                    lemma_position_stays(self.coords@, *location, k as int + 1, self.coords@.len() as int);
                }
                return Some(k);
            }
            k = k + 1;
        }
        proof {
            lemma_position(self.coords@, *location, self.coords@.len() as int);
        }
        None
    }

    /// The place with the given index, if there is one.
    pub fn get_by_idx(&self, index: usize) -> (location: Option<Coordinate>)
        ensures
            location == if index < self.coords@.len() {
                Some(self.coords@[index as int])
            } else {
                None
            },
    {
        if index < self.coords.len() {
            Some(self.coords[index])
        } else {
            None
        }
    }

    /// Adds a place, unless the index holds it already.
    pub fn add(&mut self, location: &Coordinate)
        ensures
            final(self).coords@ == spec_add_coord(old(self).coords@, *location),
    {
        match self.get_by_loc(location) {
            Some(_) => {},
            None => {
                self.coords.push(*location);
            },
        }
    }

    /// Adds the places of a list in its order.
    pub fn add_all(&mut self, locations: &Vec<Coordinate>)
        ensures
            final(self).coords@ == spec_add_coords(
                old(self).coords@,
                locations@,
                locations@.len() as int,
            ),
    {
        let mut k: usize = 0;
        while k < locations.len()
            invariant
                k <= locations@.len(),
                self.coords@ == spec_add_coords(old(self).coords@, locations@, k as int),
            decreases locations@.len() - k,
        {
            self.add(&locations[k]);
            k = k + 1;
        }
    }
}

/// Once a place has a position among the first places, it keeps it when
/// more places are looked at.
pub proof fn lemma_position_stays(coords: Seq<Coordinate>, location: Coordinate, upto: int, more: int)
    requires
        0 <= upto <= more,
        spec_position(coords, location, upto) is Some,
    ensures
        spec_position(coords, location, more) == spec_position(coords, location, upto),
    decreases more - upto,
{
    if upto < more {
        lemma_position_stays(coords, location, upto, more - 1);
    }
}

/// The places of a job with one visit: the pickup, then the delivery.
pub open spec fn spec_job_locations(job: Job) -> Seq<Coordinate> {
    (match job.places.pickup {
        Some(pickup) => seq![pickup.location],
        None => Seq::empty(),
    }) + (match job.places.delivery {
        Some(delivery) => seq![delivery.location],
        None => Seq::empty(),
    })
}

/// The places of the first `upto` of a list of visits.
pub open spec fn spec_place_locations(places: Seq<MultiJobPlace>, upto: int) -> Seq<Coordinate>
    decreases upto,
{
    if upto <= 0 {
        Seq::empty()
    } else {
        spec_place_locations(places, upto - 1).push(places[upto - 1].location)
    }
}

/// The places of a job of the plan: for a job with several visits the
/// pickups, then the deliveries.
pub open spec fn spec_variant_locations(job: JobVariant) -> Seq<Coordinate> {
    match job {
        JobVariant::Single(single) => spec_job_locations(single),
        JobVariant::Multi(multi) => spec_place_locations(
            multi.places.pickups@,
            multi.places.pickups@.len() as int,
        ) + spec_place_locations(multi.places.deliveries@, multi.places.deliveries@.len() as int),
    }
}

/// The places of the first `upto` jobs of the plan.
pub open spec fn spec_plan_locations(jobs: Seq<JobVariant>, upto: int) -> Seq<Coordinate>
    decreases upto,
{
    if upto <= 0 {
        Seq::empty()
    } else {
        spec_plan_locations(jobs, upto - 1) + spec_variant_locations(jobs[upto - 1])
    }
}

/// The places of the first `upto` breaks that have a place.
pub open spec fn spec_break_locations(breaks: Seq<VehicleBreak>, upto: int) -> Seq<Coordinate>
    decreases upto,
{
    if upto <= 0 {
        Seq::empty()
    } else {
        match breaks[upto - 1].location {
            Some(location) => spec_break_locations(breaks, upto - 1).push(location),
            None => spec_break_locations(breaks, upto - 1),
        }
    }
}

/// The places of the first `upto` reloads.
pub open spec fn spec_reload_locations(reloads: Seq<VehicleReload>, upto: int) -> Seq<Coordinate>
    decreases upto,
{
    if upto <= 0 {
        Seq::empty()
    } else {
        spec_reload_locations(reloads, upto - 1).push(reloads[upto - 1].location)
    }
}

/// The places of a shift: its start, its end, its breaks, its reloads.
pub open spec fn spec_shift_locations(shift: VehicleShift) -> Seq<Coordinate> {
    seq![shift.start.location] + (match shift.end {
        Some(end) => seq![end.location],
        None => Seq::empty(),
    }) + (match shift.breaks {
        Some(breaks) => spec_break_locations(breaks@, breaks@.len() as int),
        None => Seq::empty(),
    }) + (match shift.reloads {
        Some(reloads) => spec_reload_locations(reloads@, reloads@.len() as int),
        None => Seq::empty(),
    })
}

/// The places of the first `upto` shifts.
pub open spec fn spec_shifts_locations(shifts: Seq<VehicleShift>, upto: int) -> Seq<Coordinate>
    decreases upto,
{
    if upto <= 0 {
        Seq::empty()
    } else {
        spec_shifts_locations(shifts, upto - 1) + spec_shift_locations(shifts[upto - 1])
    }
}

/// The places of the first `upto` vehicle types.
pub open spec fn spec_fleet_locations(types: Seq<VehicleType>, upto: int) -> Seq<Coordinate>
    decreases upto,
{
    if upto <= 0 {
        Seq::empty()
    } else {
        spec_fleet_locations(types, upto - 1) + spec_shifts_locations(
            types[upto - 1].shifts@,
            types[upto - 1].shifts@.len() as int,
        )
    }
}

/// Every place that a problem names, in the order in which the problem
/// names them: the jobs of the plan first, then the fleet.
pub open spec fn spec_problem_locations(problem: &crate::format::api::Problem) -> Seq<Coordinate> {
    spec_plan_locations(problem.plan.jobs@, problem.plan.jobs@.len() as int) + spec_fleet_locations(
        problem.fleet.types@,
        problem.fleet.types@.len() as int,
    )
}

/// Lists the places of a list of visits.
pub fn place_locations(places: &Vec<MultiJobPlace>, locations: &mut Vec<Coordinate>)
    ensures
        final(locations)@ == old(locations)@ + spec_place_locations(places@, places@.len() as int),
{
    let mut k: usize = 0;
    assert(locations@ + spec_place_locations(places@, 0) =~= locations@);
    while k < places.len()
        invariant
            k <= places@.len(),
            locations@ == old(locations)@ + spec_place_locations(places@, k as int),
        decreases places@.len() - k,
    {
        locations.push(places[k].location);
        k = k + 1;
        assert(locations@ =~= old(locations)@ + spec_place_locations(places@, k as int));
    }
}

/// Lists the places of a job of the plan.
pub fn variant_locations(job: &JobVariant, locations: &mut Vec<Coordinate>)
    ensures
        final(locations)@ == old(locations)@ + spec_variant_locations(*job),
{
    match job {
        JobVariant::Single(single) => {
            match &single.places.pickup {
                Some(pickup) => {
                    locations.push(pickup.location);
                },
                None => {},
            }
            match &single.places.delivery {
                Some(delivery) => {
                    locations.push(delivery.location);
                },
                None => {},
            }
            assert(locations@ =~= old(locations)@ + spec_variant_locations(*job));
        },
        JobVariant::Multi(multi) => {
            place_locations(&multi.places.pickups, locations);
            place_locations(&multi.places.deliveries, locations);
            assert(locations@ =~= old(locations)@ + spec_variant_locations(*job));
        },
    }
}

/// Lists the places of a shift.
pub fn shift_locations(shift: &VehicleShift, locations: &mut Vec<Coordinate>)
    ensures
        final(locations)@ == old(locations)@ + spec_shift_locations(*shift),
{
    locations.push(shift.start.location);
    match &shift.end {
        Some(end) => {
            locations.push(end.location);
        },
        None => {},
    }
    let ghost with_ends = locations@;
    match &shift.breaks {
        Some(breaks) => {
            let mut k: usize = 0;
            assert(with_ends + spec_break_locations(breaks@, 0) =~= with_ends);
            while k < breaks.len()
                invariant
                    k <= breaks@.len(),
                    locations@ == with_ends + spec_break_locations(breaks@, k as int),
                decreases breaks@.len() - k,
            {
                match breaks[k].location {
                    Some(location) => {
                        locations.push(location);
                    },
                    None => {},
                }
                k = k + 1;
                assert(locations@ =~= with_ends + spec_break_locations(breaks@, k as int));
            }
        },
        None => {},
    }
    let ghost with_breaks = locations@;
    match &shift.reloads {
        Some(reloads) => {
            let mut k: usize = 0;
            assert(with_breaks + spec_reload_locations(reloads@, 0) =~= with_breaks);
            while k < reloads.len()
                invariant
                    k <= reloads@.len(),
                    locations@ == with_breaks + spec_reload_locations(reloads@, k as int),
                decreases reloads@.len() - k,
            {
                locations.push(reloads[k].location);
                k = k + 1;
                assert(locations@ =~= with_breaks + spec_reload_locations(reloads@, k as int));
            }
        },
        None => {},
    }
    assert(locations@ =~= old(locations)@ + spec_shift_locations(*shift));
}

/// Lists every place that a problem names.
pub fn problem_locations(problem: &crate::format::api::Problem) -> (locations: Vec<Coordinate>)
    ensures
        locations@ == spec_problem_locations(problem),
{
    let mut locations: Vec<Coordinate> = Vec::new();
    let mut j: usize = 0;
    assert(locations@ =~= spec_plan_locations(problem.plan.jobs@, 0));
    while j < problem.plan.jobs.len()
        invariant
            j <= problem.plan.jobs@.len(),
            locations@ == spec_plan_locations(problem.plan.jobs@, j as int),
        decreases problem.plan.jobs@.len() - j,
    {
        variant_locations(&problem.plan.jobs[j], &mut locations);
        j = j + 1;
    }
    let ghost plan = locations@;
    let mut t: usize = 0;
    assert(plan + spec_fleet_locations(problem.fleet.types@, 0) =~= plan);
    while t < problem.fleet.types.len()
        invariant
            t <= problem.fleet.types@.len(),
            locations@ == plan + spec_fleet_locations(problem.fleet.types@, t as int),
        decreases problem.fleet.types@.len() - t,
    {
        let vehicle = &problem.fleet.types[t];
        let ghost before = locations@;
        let mut s: usize = 0;
        assert(before + spec_shifts_locations(vehicle.shifts@, 0) =~= before);
        while s < vehicle.shifts.len()
            invariant
                s <= vehicle.shifts@.len(),
                locations@ == before + spec_shifts_locations(vehicle.shifts@, s as int),
            decreases vehicle.shifts@.len() - s,
        {
            let ghost inner = locations@;
            shift_locations(&vehicle.shifts[s], &mut locations);
            s = s + 1;
            assert(locations@ =~= before + spec_shifts_locations(vehicle.shifts@, s as int));
        }
        t = t + 1;
        assert(locations@ =~= plan + spec_fleet_locations(problem.fleet.types@, t as int));
    }
    locations
}

} // verus!
