//! The fleet of a problem as the solver sees it.

use vstd::prelude::*;
use crate::format::api::{Coordinate, VehicleCosts, VehicleShift, VehicleType};
use crate::format::coord_index::{spec_position, CoordIndex};
use crate::format::ids::{spec_vehicle_id, vehicle_id};
use crate::format::reader::{add_skills, contains_text, spec_skill_set, spec_texts, ApiProblem};
use crate::format::time::{rfc3339_timestamp, try_parse_time};
use crate::models::problem::{Costs, Dimensions, Driver, Fleet, Matrix, TransportCost, Vehicle};
use crate::models::problem::{spec_actors, TravelLimits, VehicleDetail, VehiclePlace};
use crate::format::api::VehicleLimits;

verus! {

/// The routing oracle over the matrices of a problem, one profile for each
/// matrix in their order.
pub fn create_transport_costs(matrices: Vec<Matrix>) -> (transport: TransportCost)
    ensures
        transport.matrices == matrices,
{
    TransportCost::new(matrices)
}

/// The costs of a vehicle: the fixed cost, if there is one; the cost of the
/// way; and the cost of time for driving, waiting and serving alike.
pub open spec fn spec_costs(costs: VehicleCosts) -> Costs {
    Costs {
        fixed: match costs.fixed {
            Some(fixed) => fixed,
            None => 0,
        },
        per_distance: costs.distance,
        per_driving_time: costs.time,
        per_waiting_time: costs.time,
        per_service_time: costs.time,
    }
}

/// Reads the costs of a vehicle.
pub fn read_costs(costs: &VehicleCosts) -> (result: Costs)
    ensures
        result == spec_costs(*costs),
{
    Costs {
        fixed: match costs.fixed {
            Some(fixed) => fixed,
            None => 0,
        },
        per_distance: costs.distance,
        per_driving_time: costs.time,
        per_waiting_time: costs.time,
        per_service_time: costs.time,
    }
}

/// The limits of a vehicle type as the solver sees them.
pub open spec fn spec_limits(limits: Option<VehicleLimits>) -> TravelLimits {
    match limits {
        Some(limits) => TravelLimits { max_distance: limits.max_distance, shift_time: limits.shift_time },
        None => TravelLimits::spec_none(),
    }
}

/// Reads the limits of a vehicle type.
pub fn read_type_limits(limits: &Option<VehicleLimits>) -> (result: TravelLimits)
    ensures
        result == spec_limits(*limits),
{
    match limits {
        Some(limits) => TravelLimits { max_distance: limits.max_distance, shift_time: limits.shift_time },
        None => TravelLimits::none(),
    }
}

/// Where and when a shift starts or ends, by the index of the place and in
/// seconds; nothing where the place is not in the index or the time is not
/// well written.
pub open spec fn spec_place(coords: Seq<Coordinate>, place: crate::format::api::VehiclePlace) -> Option<
    VehiclePlace,
> {
    match (spec_position(coords, place.location, coords.len() as int), rfc3339_timestamp(place.time@)) {
        (Some(location), Some(time)) => Some(VehiclePlace { location, time }),
        _ => None,
    }
}

/// Reads where and when a shift starts or ends.
pub fn read_place(coord_index: &CoordIndex, place: &crate::format::api::VehiclePlace) -> (result: Option<
    VehiclePlace,
>)
    ensures
        result == spec_place(coord_index.coords@, *place),
{
    match (coord_index.get_by_loc(&place.location), try_parse_time(&place.time)) {
        (Some(location), Some(time)) => Some(VehiclePlace { location, time }),
        _ => None,
    }
}

/// A shift as the solver sees it; nothing where its start or its end cannot
/// be read.
pub open spec fn spec_detail(coords: Seq<Coordinate>, shift: VehicleShift) -> Option<VehicleDetail> {
    match spec_place(coords, shift.start) {
        Some(start) => match shift.end {
            Some(end) => match spec_place(coords, end) {
                Some(end) => Some(VehicleDetail { start: Some(start), end: Some(end) }),
                None => None,
            },
            None => Some(VehicleDetail { start: Some(start), end: None }),
        },
        None => None,
    }
}

/// Reads a shift.
pub fn read_detail(coord_index: &CoordIndex, shift: &VehicleShift) -> (result: Option<VehicleDetail>)
    ensures
        result == spec_detail(coord_index.coords@, *shift),
{
    match read_place(coord_index, &shift.start) {
        Some(start) => match &shift.end {
            Some(end) => match read_place(coord_index, end) {
                Some(end) => Some(VehicleDetail { start: Some(start), end: Some(end) }),
                None => None,
            },
            None => Some(VehicleDetail { start: Some(start), end: None }),
        },
        None => None,
    }
}

/// Whether every shift of a list can be read.
pub open spec fn spec_details_readable(coords: Seq<Coordinate>, shifts: Seq<VehicleShift>) -> bool {
    forall|s: int| 0 <= s < shifts.len() ==> spec_detail(coords, #[trigger] shifts[s]) is Some
}

/// Reads the shifts of a vehicle type; nothing where one of them cannot be
/// read.
pub fn read_details(coord_index: &CoordIndex, shifts: &Vec<VehicleShift>) -> (result: Option<Vec<VehicleDetail>>)
    ensures
        match result {
            Some(details) => spec_details_readable(coord_index.coords@, shifts@) && details@.len()
                == shifts@.len() && forall|s: int|
                0 <= s < shifts@.len() ==> Some(#[trigger] details@[s]) == spec_detail(
                    coord_index.coords@,
                    shifts@[s],
                ),
            None => !spec_details_readable(coord_index.coords@, shifts@),
        },
{
    let mut details: Vec<VehicleDetail> = Vec::new();
    let mut s: usize = 0;
    while s < shifts.len()
        invariant
            s <= shifts@.len(),
            details@.len() == s,
            forall|k: int|
                0 <= k < s ==> Some(#[trigger] details@[k]) == spec_detail(coord_index.coords@, shifts@[k]),
        decreases shifts@.len() - s,
    {
        match read_detail(coord_index, &shifts[s]) {
            Some(detail) => {
                details.push(detail);
            },
            None => {
                assert(spec_detail(coord_index.coords@, shifts@[s as int]) is None);
                return None;
            },
        }
        s = s + 1;
    }
    assert forall|k: int| 0 <= k < shifts@.len() implies spec_detail(
        coord_index.coords@,
        #[trigger] shifts@[k],
    ) is Some by {
        assert(Some(details@[k]) == spec_detail(coord_index.coords@, shifts@[k]));
    }
    Some(details)
}

/// The names of the profiles of the first `upto` vehicle types, each where
/// it stands first. The position of a name is the number of its profile.
pub open spec fn spec_profile_names(types: Seq<VehicleType>, upto: int) -> Seq<Seq<char>>
    decreases upto,
{
    if upto <= 0 {
        Seq::empty()
    } else {
        let before = spec_profile_names(types, upto - 1);
        if before.contains(types[upto - 1].profile@) {
            before
        } else {
            before.push(types[upto - 1].profile@)
        }
    }
}

/// The position of a text among texts: that of its first occurrence among
/// the first `upto`, and `0` where it does not occur.
pub open spec fn spec_text_position(texts: Seq<Seq<char>>, text: Seq<char>, upto: int) -> usize
    decreases upto,
{
    if upto <= 0 {
        0
    } else if exists|k: int| 0 <= k < upto - 1 && texts[k] == text {
        spec_text_position(texts, text, upto - 1)
    } else if texts[upto - 1] == text {
        (upto - 1) as usize
    } else {
        0
    }
}

/// Finds the position of a text among texts.
pub fn text_position(strings: &Vec<String>, text: &String) -> (position: usize)
    ensures
        position == spec_text_position(spec_texts(strings@), text@, strings@.len() as int),
{
    let mut found: Option<usize> = None;
    let mut k: usize = 0;
    while k < strings.len()
        invariant
            k <= strings@.len(),
            match found {
                Some(position) => position < k && spec_texts(strings@)[position as int] == text@
                    && spec_text_position(spec_texts(strings@), text@, k as int) == position,
                None => (forall|i: int| 0 <= i < k ==> spec_texts(strings@)[i] != text@)
                    && spec_text_position(spec_texts(strings@), text@, k as int) == 0,
            },
        decreases strings@.len() - k,
    {
        if found.is_none() && strings[k] == *text {
            assert(spec_texts(strings@)[k as int] == text@);
            found = Some(k);
        } else if found.is_some() {
            assert(spec_texts(strings@)[found->0 as int] == text@);
        } else {
            assert(spec_texts(strings@)[k as int] != text@);
        }
        k = k + 1;
    }
    match found {
        Some(position) => position,
        None => 0,
    }
}

/// Lists the names of the profiles of the vehicle types.
pub fn read_profiles(types: &Vec<VehicleType>) -> (profiles: Vec<String>)
    ensures
        spec_texts(profiles@) == spec_profile_names(types@, types@.len() as int),
{
    let mut profiles: Vec<String> = Vec::new();
    let mut t: usize = 0;
    assert(spec_texts(profiles@) =~= spec_profile_names(types@, 0));
    while t < types.len()
        invariant
            t <= types@.len(),
            spec_texts(profiles@) == spec_profile_names(types@, t as int),
        decreases types@.len() - t,
    {
        if !contains_text(&profiles, &types[t].profile) {
            let ghost before = spec_texts(profiles@);
            profiles.push(types[t].profile.clone());
            assert(spec_texts(profiles@) =~= before.push(types@[t as int].profile@));
        }
        t = t + 1;
    }
    profiles
}

/// The type and the number within the type of each vehicle that the first
/// `upto` types bring: `amount` vehicles for a type, numbered from `1`.
pub open spec fn spec_origins(types: Seq<VehicleType>, upto: int) -> Seq<(int, int)>
    decreases upto,
{
    if upto <= 0 {
        Seq::empty()
    } else {
        spec_origins(types, upto - 1) + Seq::new(
            types[upto - 1].amount as nat,
            |k: int| (upto - 1, k + 1),
        )
    }
}

/// The vehicles that the first types bring come first among those that
/// more types bring.
pub proof fn lemma_origins_grow(types: Seq<VehicleType>, t: int, n: int)
    requires
        0 <= t <= n,
    ensures
        spec_origins(types, t).len() <= spec_origins(types, n).len(),
        forall|v: int|
            0 <= v < spec_origins(types, t).len() ==> spec_origins(types, t)[v] == spec_origins(types, n)[v],
    decreases n - t,
{
    if t < n {
        lemma_origins_grow(types, t, n - 1);
    }
}

/// Whether a vehicle is the one with the given number of a type: it has the
/// identifier, the profile, the costs, the capacity, the limits, the skills
/// and the shifts of it.
pub open spec fn spec_is_vehicle(
    coords: Seq<Coordinate>,
    types: Seq<VehicleType>,
    vehicle: Vehicle,
    origin: (int, int),
) -> bool {
    let kind = types[origin.0];
    &&& vehicle.dimens.id is Some
    &&& vehicle.dimens.id->0@ == spec_vehicle_id(kind.id@, origin.1 as nat)
    &&& vehicle.profile == spec_text_position(
        spec_profile_names(types, types.len() as int),
        kind.profile@,
        spec_profile_names(types, types.len() as int).len() as int,
    )
    &&& vehicle.costs == spec_costs(kind.costs)
    &&& vehicle.capacity@ == kind.capacity@
    &&& vehicle.limits == spec_limits(kind.limits)
    &&& match kind.skills {
        Some(skills) => vehicle.dimens.skills is Some && spec_texts(vehicle.dimens.skills->0@)
            == spec_skill_set(skills@, skills@.len() as int),
        None => vehicle.dimens.skills is None,
    }
    &&& vehicle.details@.len() == kind.shifts@.len()
    &&& forall|s: int|
        0 <= s < kind.shifts@.len() ==> Some(#[trigger] vehicle.details@[s]) == spec_detail(
            coords,
            kind.shifts@[s],
        )
}

/// Whether the shifts of every vehicle type can be read.
pub open spec fn spec_fleet_readable(coords: Seq<Coordinate>, types: Seq<VehicleType>) -> bool {
    forall|t: int|
        0 <= t < types.len() && types[t].amount > 0 ==> spec_details_readable(
            coords,
            (#[trigger] types[t]).shifts@,
        )
}

/// Reads the fleet: one driver who costs nothing, and for every vehicle
/// type as many vehicles as it has. There is no fleet where a shift of a
/// type that has a vehicle cannot be read: its place is not in the index or
/// a time is not well written.
pub fn read_fleet(api_problem: &ApiProblem, coord_index: &CoordIndex) -> (result: Option<Fleet>)
    ensures
        match result {
            Some(fleet) => {
                &&& spec_fleet_readable(coord_index.coords@, api_problem.fleet.types@)
                &&& fleet.wf()
                &&& fleet.drivers@.len() == 1
                &&& fleet.vehicles@.len() == spec_origins(
                    api_problem.fleet.types@,
                    api_problem.fleet.types@.len() as int,
                ).len()
                &&& forall|v: int|
                    0 <= v < fleet.vehicles@.len() ==> spec_is_vehicle(
                        coord_index.coords@,
                        api_problem.fleet.types@,
                        #[trigger] fleet.vehicles@[v],
                        spec_origins(api_problem.fleet.types@, api_problem.fleet.types@.len() as int)[v],
                    )
                &&& fleet.actors@ == spec_actors(1, fleet.vehicles@, fleet.vehicles@.len() as int)
            },
            None => !spec_fleet_readable(coord_index.coords@, api_problem.fleet.types@),
        },
{
    let types = &api_problem.fleet.types;
    let profiles = read_profiles(types);
    let ghost coords = coord_index.coords@;
    let ghost names = spec_profile_names(types@, types@.len() as int);
    let mut vehicles: Vec<Vehicle> = Vec::new();
    let mut t: usize = 0;
    while t < types.len()
        invariant
            t <= types@.len(),
            *types == api_problem.fleet.types,
            coords == coord_index.coords@,
            names == spec_profile_names(types@, types@.len() as int),
            spec_texts(profiles@) == names,
            vehicles@.len() == spec_origins(types@, t as int).len(),
            forall|v: int|
                0 <= v < vehicles@.len() ==> spec_is_vehicle(
                    coords,
                    types@,
                    #[trigger] vehicles@[v],
                    spec_origins(types@, t as int)[v],
                ),
            forall|k: int|
                0 <= k < t && types@[k].amount > 0 ==> spec_details_readable(
                    coords,
                    (#[trigger] types@[k]).shifts@,
                ),
        decreases types@.len() - t,
    {
        let kind = &types[t];
        let ghost before = vehicles@;
        let ghost origins = spec_origins(types@, t as int);
        let mut number: usize = 0;
        while number < kind.amount
            invariant
                t < types@.len(),
                number <= kind.amount,
                *types == api_problem.fleet.types,
                *kind == types@[t as int],
                coords == coord_index.coords@,
                names == spec_profile_names(types@, types@.len() as int),
                spec_texts(profiles@) == names,
                origins == spec_origins(types@, t as int),
                vehicles@.len() == origins.len() + number,
                forall|v: int|
                    0 <= v < vehicles@.len() ==> spec_is_vehicle(
                        coords,
                        types@,
                        #[trigger] vehicles@[v],
                        if v < origins.len() {
                            origins[v]
                        } else {
                            (t as int, v - origins.len() + 1)
                        },
                    ),
                number > 0 ==> spec_details_readable(coords, kind.shifts@),
            decreases kind.amount - number,
        {
            let details = match read_details(coord_index, &kind.shifts) {
                Some(details) => details,
                None => {
                    assert(types@[t as int].amount > 0);
                    assert(!spec_details_readable(coords, types@[t as int].shifts@));
                    return None;
                },
            };
            let mut dimens = Dimensions::new();
            dimens.id = Some(vehicle_id(&kind.id, number + 1));
            add_skills(&mut dimens, &kind.skills);
            let capacity = kind.capacity.clone();
            assert(capacity@ =~= kind.capacity@);
            let vehicle = Vehicle {
                profile: text_position(&profiles, &kind.profile),
                costs: read_costs(&kind.costs),
                dimens,
                capacity,
                limits: read_type_limits(&kind.limits),
                details,
            };
            assert(spec_is_vehicle(coords, types@, vehicle, (t as int, number as int + 1)));
            vehicles.push(vehicle);
            number = number + 1;
        }
        t = t + 1;
        proof {
            let after = spec_origins(types@, t as int);
            assert(after =~= origins + Seq::new(kind.amount as nat, |k: int| (t as int - 1, k + 1)));
            assert forall|v: int| 0 <= v < vehicles@.len() implies spec_is_vehicle(
                coords,
                types@,
                #[trigger] vehicles@[v],
                after[v],
            ) by {
                if v >= origins.len() {
                    assert(after[v] == (t as int - 1, v - origins.len() + 1));
                }
            }
        }
    }
    let mut drivers: Vec<Driver> = Vec::new();
    drivers.push(
        Driver {
            costs: Costs {
                fixed: 0,
                per_distance: 0,
                per_driving_time: 0,
                per_waiting_time: 0,
                per_service_time: 0,
            },
            dimens: Dimensions::new(),
            details: Vec::new(),
        },
    );
    Some(Fleet::new(drivers, vehicles))
}

/// Whether a vehicle type sets limits to its tours.
pub open spec fn spec_type_limits(vehicle: VehicleType) -> bool {
    vehicle.limits is Some
}

/// Whether a vehicle type of the problem sets limits to its tours.
pub open spec fn spec_has_limits(api_problem: &ApiProblem) -> bool {
    exists|t: int|
        0 <= t < api_problem.fleet.types@.len() && spec_type_limits(#[trigger] api_problem.fleet.types@[t])
}

/// Tells whether a vehicle type of the problem sets limits to its tours.
pub fn read_limits(api_problem: &ApiProblem) -> (has_limits: bool)
    ensures
        has_limits == spec_has_limits(api_problem),
{
    let types = &api_problem.fleet.types;
    let mut found: bool = false;
    let mut t: usize = 0;
    while t < types.len()
        invariant
            t <= types@.len(),
            found <==> exists|k: int| 0 <= k < t && spec_type_limits(#[trigger] types@[k]),
        decreases types@.len() - t,
    {
        if types[t].limits.is_some() {
            assert(spec_type_limits(types@[t as int]));
            found = true;
        }
        t = t + 1;
    }
    found
}

} // verus!
