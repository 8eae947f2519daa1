//! The breaks of the vehicles as jobs of the solver.

use vstd::prelude::*;
use crate::format::api::{Coordinate, VehicleBreak, VehicleType};
use crate::format::coord_index::{spec_position, CoordIndex};
use crate::format::fleet_reader::{lemma_origins_grow, spec_origins};
use crate::format::job_reader::spec_window;
use crate::format::reader::ApiProblem;
use crate::format::time::try_parse_time_window;
use crate::models::common::TimeWindow;
use crate::models::problem::{Dimensions, Job, JobKind};

verus! {

/// Whether a break can be read: its place, if it has one, is in the index,
/// and its first time window is well written.
pub open spec fn spec_break_readable(coords: Seq<Coordinate>, pause: VehicleBreak) -> bool {
    &&& match pause.location {
        Some(location) => spec_position(coords, location, coords.len() as int) is Some,
        None => true,
    }
    &&& spec_window(Some(pause.times)) is Some
}

/// Whether `job` is what the solver sees of a break of the vehicle at
/// `vehicle`.
pub open spec fn spec_is_break_job(coords: Seq<Coordinate>, pause: VehicleBreak, vehicle: usize, job: Job) -> bool {
    &&& job.kind is Break
    &&& job.location == match pause.location {
        Some(location) => spec_position(coords, location, coords.len() as int),
        None => None,
    }
    &&& job.duration == pause.duration
    &&& Some(job.time) == spec_window(Some(pause.times))
    &&& job.demand@.len() == 0
    &&& job.vehicle == Some(vehicle)
    &&& job.dimens.id is Some
    &&& job.dimens.id->0@ == "break"@
    &&& job.dimens.skills is None
}

/// Reads a break of the vehicle at `vehicle`; there is no result for a
/// break that cannot be read.
pub fn read_break(coord_index: &CoordIndex, pause: &VehicleBreak, vehicle: usize) -> (result: Option<Job>)
    ensures
        match result {
            Some(job) => spec_break_readable(coord_index.coords@, *pause) && spec_is_break_job(
                coord_index.coords@,
                *pause,
                vehicle,
                job,
            ),
            None => !spec_break_readable(coord_index.coords@, *pause),
        },
{
    let location = match &pause.location {
        Some(location) => match coord_index.get_by_loc(location) {
            Some(index) => Some(index),
            None => {
                return None;
            },
        },
        None => None,
    };
    let time = if pause.times.len() == 0 {
        TimeWindow::max()
    } else {
        match try_parse_time_window(&pause.times[0]) {
            Some(time) => time,
            None => {
                return None;
            },
        }
    };
    let mut dimens = Dimensions::new();
    dimens.set_id("break");
    Some(
        Job {
            kind: JobKind::Break,
            location,
            duration: pause.duration,
            time,
            demand: Vec::new(),
            vehicle: Some(vehicle),
            dimens,
        },
    )
}

/// The breaks of the first `upto` shifts of a vehicle type, in their order.
pub open spec fn spec_vehicle_breaks(kind: VehicleType, upto: int) -> Seq<VehicleBreak>
    decreases upto,
{
    if upto <= 0 {
        Seq::empty()
    } else {
        spec_vehicle_breaks(kind, upto - 1) + match kind.shifts@[upto - 1].breaks {
            Some(breaks) => breaks@,
            None => Seq::empty(),
        }
    }
}

/// Breaks, each with the position of the vehicle that takes it.
pub open spec fn spec_tagged(vehicle: usize, breaks: Seq<VehicleBreak>) -> Seq<(usize, VehicleBreak)> {
    Seq::new(breaks.len(), |b: int| (vehicle, breaks[b]))
}

/// The breaks of the first `upto` vehicles of a fleet, each with the
/// position of its vehicle: vehicle by vehicle, and for each vehicle shift
/// by shift. The vehicles are counted as the fleet counts them.
pub open spec fn spec_fleet_breaks(types: Seq<VehicleType>, upto: int) -> Seq<(usize, VehicleBreak)>
    decreases upto,
{
    if upto <= 0 {
        Seq::empty()
    } else {
        let kind = types[spec_origins(types, types.len() as int)[upto - 1].0];
        spec_fleet_breaks(types, upto - 1) + spec_tagged(
            (upto - 1) as usize,
            spec_vehicle_breaks(kind, kind.shifts@.len() as int),
        )
    }
}

/// The breaks of all vehicles of a fleet.
pub open spec fn spec_all_breaks(types: Seq<VehicleType>) -> Seq<(usize, VehicleBreak)> {
    spec_fleet_breaks(types, spec_origins(types, types.len() as int).len() as int)
}

/// Whether every one of the breaks can be read.
pub open spec fn spec_breaks_readable(coords: Seq<Coordinate>, breaks: Seq<(usize, VehicleBreak)>) -> bool {
    forall|b: int| 0 <= b < breaks.len() ==> spec_break_readable(coords, (#[trigger] breaks[b]).1)
}

/// Whether `after` is `before` followed by the jobs of the given breaks, in
/// their order.
pub open spec fn spec_with_breaks(
    coords: Seq<Coordinate>,
    before: Seq<Job>,
    breaks: Seq<(usize, VehicleBreak)>,
    after: Seq<Job>,
) -> bool {
    &&& after.len() == before.len() + breaks.len()
    &&& forall|j: int| 0 <= j < before.len() ==> #[trigger] after[j] == before[j]
    &&& forall|b: int|
        0 <= b < breaks.len() ==> spec_is_break_job(
            coords,
            (#[trigger] breaks[b]).1,
            breaks[b].0,
            after[before.len() + b],
        )
}

/// The breaks of the first shifts come first among those of more shifts.
pub proof fn lemma_vehicle_breaks_grow(kind: VehicleType, s: int, n: int)
    requires
        0 <= s <= n,
    ensures
        spec_vehicle_breaks(kind, s).len() <= spec_vehicle_breaks(kind, n).len(),
        forall|b: int|
            0 <= b < spec_vehicle_breaks(kind, s).len() ==> spec_vehicle_breaks(kind, s)[b]
                == spec_vehicle_breaks(kind, n)[b],
    decreases n - s,
{
    if s < n {
        lemma_vehicle_breaks_grow(kind, s, n - 1);
    }
}

/// The breaks of the first vehicles come first among those of more
/// vehicles.
pub proof fn lemma_fleet_breaks_grow(types: Seq<VehicleType>, v: int, n: int)
    requires
        0 <= v <= n,
    ensures
        spec_fleet_breaks(types, v).len() <= spec_fleet_breaks(types, n).len(),
        forall|b: int|
            0 <= b < spec_fleet_breaks(types, v).len() ==> spec_fleet_breaks(types, v)[b]
                == spec_fleet_breaks(types, n)[b],
    decreases n - v,
{
    if v < n {
        lemma_fleet_breaks_grow(types, v, n - 1);
    }
}

/// Jobs followed by the jobs of some breaks and then by the jobs of more
/// breaks are followed by the jobs of all those breaks.
pub proof fn lemma_with_breaks_join(
    coords: Seq<Coordinate>,
    before: Seq<Job>,
    first: Seq<(usize, VehicleBreak)>,
    between: Seq<Job>,
    second: Seq<(usize, VehicleBreak)>,
    after: Seq<Job>,
)
    requires
        spec_with_breaks(coords, before, first, between),
        spec_with_breaks(coords, between, second, after),
    ensures
        spec_with_breaks(coords, before, first + second, after),
{
    let all = first + second;
    assert forall|j: int| 0 <= j < before.len() implies #[trigger] after[j] == before[j] by {
        assert(between[j] == before[j]);
    }
    assert forall|b: int| 0 <= b < all.len() implies spec_is_break_job(
        coords,
        (#[trigger] all[b]).1,
        all[b].0,
        after[before.len() + b],
    ) by {
        if b < first.len() {
            assert(all[b] == first[b]);
            assert(after[before.len() + b] == between[before.len() + b]);
        } else {
            assert(all[b] == second[b - first.len()]);
        }
    }
}

/// Adds the breaks of one vehicle to the jobs, shift by shift. The answer
/// is no, and the jobs are to be given up, where a break cannot be read.
pub fn read_vehicle_breaks(coord_index: &CoordIndex, kind: &VehicleType, vehicle: usize, jobs: &mut Vec<Job>) -> (read:
    bool)
    ensures
        read == spec_breaks_readable(
            coord_index.coords@,
            spec_tagged(vehicle, spec_vehicle_breaks(*kind, kind.shifts@.len() as int)),
        ),
        read ==> spec_with_breaks(
            coord_index.coords@,
            old(jobs)@,
            spec_tagged(vehicle, spec_vehicle_breaks(*kind, kind.shifts@.len() as int)),
            final(jobs)@,
        ),
{
    let ghost coords = coord_index.coords@;
    let ghost all = spec_vehicle_breaks(*kind, kind.shifts@.len() as int);
    let mut s: usize = 0;
    while s < kind.shifts.len()
        invariant
            s <= kind.shifts@.len(),
            coords == coord_index.coords@,
            all == spec_vehicle_breaks(*kind, kind.shifts@.len() as int),
            spec_breaks_readable(coords, spec_tagged(vehicle, spec_vehicle_breaks(*kind, s as int))),
            spec_with_breaks(coords, old(jobs)@, spec_tagged(vehicle, spec_vehicle_breaks(*kind, s as int)), jobs@),
        decreases kind.shifts@.len() - s,
    {
        let ghost earlier = spec_vehicle_breaks(*kind, s as int);
        match &kind.shifts[s].breaks {
            Some(breaks) => {
                let mut b: usize = 0;
                assert(earlier + breaks@.take(0) =~= earlier);
                while b < breaks.len()
                    invariant
                        s < kind.shifts@.len(),
                        kind.shifts@[s as int].breaks == Some(*breaks),
                        b <= breaks@.len(),
                        coords == coord_index.coords@,
                        all == spec_vehicle_breaks(*kind, kind.shifts@.len() as int),
                        earlier == spec_vehicle_breaks(*kind, s as int),
                        spec_breaks_readable(coords, spec_tagged(vehicle, earlier + breaks@.take(b as int))),
                        spec_with_breaks(
                            coords,
                            old(jobs)@,
                            spec_tagged(vehicle, earlier + breaks@.take(b as int)),
                            jobs@,
                        ),
                    decreases breaks@.len() - b,
                {
                    let ghost done = spec_tagged(vehicle, earlier + breaks@.take(b as int));
                    let ghost held = jobs@;
                    match read_break(coord_index, &breaks[b], vehicle) {
                        Some(job) => {
                            jobs.push(job);
                            proof {
                                let one = spec_tagged(vehicle, seq![breaks@[b as int]]);
                                assert(spec_with_breaks(coords, held, one, jobs@));
                                lemma_with_breaks_join(coords, old(jobs)@, done, held, one, jobs@);
                                assert(earlier + breaks@.take(b as int + 1) =~= (earlier + breaks@.take(
                                    b as int,
                                )).push(breaks@[b as int]));
                                assert(spec_tagged(vehicle, earlier + breaks@.take(b as int + 1)) =~= done + one);
                                assert(spec_breaks_readable(coords, done + one)) by {
                                    assert forall|i: int| 0 <= i < (done + one).len() implies spec_break_readable(
                                        coords,
                                        (#[trigger] (done + one)[i]).1,
                                    ) by {
                                        if i < done.len() {
                                            assert((done + one)[i] == done[i]);
                                        }
                                    }
                                }
                            }
                        },
                        None => {
                            proof {
                                let next = spec_vehicle_breaks(*kind, s as int + 1);
                                assert(next == earlier + breaks@);
                                lemma_vehicle_breaks_grow(*kind, s as int + 1, kind.shifts@.len() as int);
                                let at = earlier.len() + b;
                                assert(next[at] == breaks@[b as int]);
                                assert(all[at] == breaks@[b as int]);
                                assert(spec_tagged(vehicle, all)[at].1 == breaks@[b as int]);
                            }
                            return false;
                        },
                    }
                    b = b + 1;
                }
                assert(breaks@.take(b as int) =~= breaks@);
            },
            None => {
                assert(earlier + Seq::<VehicleBreak>::empty() =~= earlier);
            },
        }
        s = s + 1;
    }
    true
}

/// Adds the breaks of all vehicles to the jobs, vehicle by vehicle in the
/// order of the fleet. The answer is no, and the jobs are to be given up,
/// where a break cannot be read.
pub fn read_breaks(api_problem: &ApiProblem, coord_index: &CoordIndex, jobs: &mut Vec<Job>) -> (read: bool)
    requires
        spec_origins(api_problem.fleet.types@, api_problem.fleet.types@.len() as int).len() <= usize::MAX,
    ensures
        read == spec_breaks_readable(coord_index.coords@, spec_all_breaks(api_problem.fleet.types@)),
        read ==> spec_with_breaks(
            coord_index.coords@,
            old(jobs)@,
            spec_all_breaks(api_problem.fleet.types@),
            final(jobs)@,
        ),
{
    let ghost coords = coord_index.coords@;
    let ghost types = api_problem.fleet.types@;
    let ghost origins = spec_origins(types, types.len() as int);
    let mut vehicle: usize = 0;
    let mut t: usize = 0;
    while t < api_problem.fleet.types.len()
        invariant
            t <= types.len(),
            coords == coord_index.coords@,
            types == api_problem.fleet.types@,
            origins == spec_origins(types, types.len() as int),
            origins.len() <= usize::MAX,
            vehicle == spec_origins(types, t as int).len(),
            spec_breaks_readable(coords, spec_fleet_breaks(types, vehicle as int)),
            spec_with_breaks(coords, old(jobs)@, spec_fleet_breaks(types, vehicle as int), jobs@),
        decreases types.len() - t,
    {
        let kind = &api_problem.fleet.types[t];
        let ghost first = spec_origins(types, t as int).len();
        let mut number: usize = 0;
        proof {
            lemma_origins_grow(types, t as int + 1, types.len() as int);
        }
        while number < kind.amount
            invariant
                t < types.len(),
                *kind == types[t as int],
                number <= kind.amount,
                coords == coord_index.coords@,
                types == api_problem.fleet.types@,
                origins == spec_origins(types, types.len() as int),
                origins.len() <= usize::MAX,
                first == spec_origins(types, t as int).len(),
                first + kind.amount <= origins.len(),
                forall|k: int| 0 <= k < kind.amount ==> (#[trigger] origins[first + k]).0 == t,
                vehicle == first + number,
                spec_breaks_readable(coords, spec_fleet_breaks(types, vehicle as int)),
                spec_with_breaks(coords, old(jobs)@, spec_fleet_breaks(types, vehicle as int), jobs@),
            decreases kind.amount - number,
        {
            let ghost done = spec_fleet_breaks(types, vehicle as int);
            let ghost held = jobs@;
            let ghost own = spec_tagged(vehicle, spec_vehicle_breaks(*kind, kind.shifts@.len() as int));
            proof {
                assert(origins[first + number].0 == t);
                assert(spec_fleet_breaks(types, vehicle as int + 1) == done + own);
            }
            if !read_vehicle_breaks(coord_index, kind, vehicle, jobs) {
                proof {
                    let b = choose|b: int| 0 <= b < own.len() && !spec_break_readable(coords, (#[trigger] own[b]).1);
                    lemma_fleet_breaks_grow(types, vehicle as int + 1, origins.len() as int);
                    assert((done + own)[done.len() + b] == own[b]);
                    assert(spec_all_breaks(types)[done.len() + b] == own[b]);
                }
                return false;
            }
            proof {
                lemma_with_breaks_join(coords, old(jobs)@, done, held, own, jobs@);
                assert forall|i: int| 0 <= i < (done + own).len() implies spec_break_readable(
                    coords,
                    (#[trigger] (done + own)[i]).1,
                ) by {
                    if i < done.len() {
                        assert((done + own)[i] == done[i]);
                    } else {
                        assert((done + own)[i] == own[i - done.len()]);
                    }
                }
            }
            vehicle = vehicle + 1;
            number = number + 1;
        }
        t = t + 1;
    }
    true
}

} // verus!
