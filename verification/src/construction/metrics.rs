//! Measures of a route that the search uses to compare routes.

use vstd::prelude::*;
use crate::construction::context::{Activity, RouteContext, RouteView};
use crate::construction::context::InsertionContext;
use crate::construction::context::spec_route_value;
use crate::models::common::{Location, Profile};
use crate::models::problem::{Problem, TransportCost};
use crate::utils::numeric::{clamp, spec_clamp};

verus! {

/// The locations of the stops of a tour, in its order.
pub open spec fn spec_locations(tour: Seq<Activity>) -> Seq<Location> {
    Seq::new(tour.len(), |p: int| tour[p].location)
}

/// The distance from the stop at `i` to the stop at `j`.
pub open spec fn spec_between(
    transport: &TransportCost,
    profile: Profile,
    locations: Seq<Location>,
    i: int,
    j: int,
) -> i64 {
    transport.spec_distance(profile, locations[i], locations[j])
}

/// The sum of the distances from the stop at `i` to the other stops among the
/// first `upto`, a pair without a route counting as zero.
pub open spec fn spec_distance_sum(
    transport: &TransportCost,
    profile: Profile,
    locations: Seq<Location>,
    i: int,
    upto: int,
) -> int
    decreases upto,
{
    if upto <= 0 {
        0
    } else if upto - 1 == i {
        spec_distance_sum(transport, profile, locations, i, upto - 1)
    } else {
        spec_distance_sum(transport, profile, locations, i, upto - 1) + spec_clamp(
            spec_between(transport, profile, locations, i, upto - 1),
        )
    }
}

/// Whether the stop at `i` can be reached: it is the only stop, or there is
/// a route from it to at least one other stop.
pub open spec fn spec_reachable(
    transport: &TransportCost,
    profile: Profile,
    locations: Seq<Location>,
    i: int,
) -> bool {
    locations.len() == 1 || exists|j: int|
        0 <= j < locations.len() && j != i && #[trigger] spec_between(
            transport,
            profile,
            locations,
            i,
            j,
        ) >= 0
}

/// Whether one of the stops can be reached.
pub open spec fn spec_some_reachable(transport: &TransportCost, profile: Profile, locations: Seq<Location>) -> bool {
    exists|i: int| 0 <= i < locations.len() && spec_reachable(transport, profile, locations, i)
}

/// Whether the stop at `m` is the medoid: one of the stops can be reached,
/// and of all stops it is the first whose distances to the other stops sum
/// to the least.
pub open spec fn spec_is_medoid(
    transport: &TransportCost,
    profile: Profile,
    locations: Seq<Location>,
    m: int,
) -> bool {
    let n = locations.len() as int;
    &&& 0 <= m < n
    &&& spec_some_reachable(transport, profile, locations)
    &&& forall|k: int|
        0 <= k < n ==> spec_distance_sum(transport, profile, locations, m, n) <= #[trigger] spec_distance_sum(
            transport,
            profile,
            locations,
            k,
            n,
        )
    &&& forall|k: int|
        0 <= k < m ==> spec_distance_sum(transport, profile, locations, m, n) < #[trigger] spec_distance_sum(
            transport,
            profile,
            locations,
            k,
            n,
        )
}

/// The medoid of a list of locations: the location of the stop that
/// `spec_is_medoid` singles out; none where there is no stop or none of the
/// stops can be reached.
pub open spec fn spec_medoid(
    transport: &TransportCost,
    profile: Profile,
    locations: Seq<Location>,
) -> Option<Location> {
    if exists|m: int| spec_is_medoid(transport, profile, locations, m) {
        Some(locations[choose|m: int| spec_is_medoid(transport, profile, locations, m)])
    } else {
        None
    }
}

/// At most one stop is the medoid.
pub proof fn lemma_medoid_unique(
    transport: &TransportCost,
    profile: Profile,
    locations: Seq<Location>,
    a: int,
    b: int,
)
    requires
        spec_is_medoid(transport, profile, locations, a),
        spec_is_medoid(transport, profile, locations, b),
    ensures
        a == b,
{
    let n = locations.len() as int;
    let sum_a = spec_distance_sum(transport, profile, locations, a, n);
    let sum_b = spec_distance_sum(transport, profile, locations, b, n);
    assert(sum_a <= sum_b && sum_b <= sum_a);
}

/// The medoid of a route with a single stop is the location of that stop,
/// whatever the matrices hold.
pub proof fn lemma_medoid_of_single_stop(
    transport: &TransportCost,
    profile: Profile,
    location: Location,
)
    ensures
        spec_medoid(transport, profile, seq![location]) == Some(location),
{
    let locations = seq![location];
    assert(spec_reachable(transport, profile, locations, 0));
    assert(spec_some_reachable(transport, profile, locations));
    assert(spec_is_medoid(transport, profile, locations, 0));
    let m = choose|m: int| spec_is_medoid(transport, profile, locations, m);
    assert(m == 0);
}

/// A route without stops has no medoid.
pub proof fn lemma_medoid_of_no_stop(transport: &TransportCost, profile: Profile)
    ensures
        spec_medoid(transport, profile, Seq::<Location>::empty()) is None,
{
}

proof fn lemma_distance_sum_bound(
    transport: &TransportCost,
    profile: Profile,
    locations: Seq<Location>,
    i: int,
    upto: int,
)
    requires
        0 <= upto,
    ensures
        0 <= spec_distance_sum(transport, profile, locations, i, upto) <= upto * i64::MAX,
    decreases upto,
{
    if upto > 0 {
        lemma_distance_sum_bound(transport, profile, locations, i, upto - 1);
        assert((upto - 1) * i64::MAX + i64::MAX == upto * i64::MAX) by (nonlinear_arith);
    }
}

/// The medoid of a list of locations for vehicles of the given profile.
pub fn medoid_of(transport: &TransportCost, profile: Profile, locations: &Vec<Location>) -> (medoid:
    Option<Location>)
    ensures
        medoid == spec_medoid(transport, profile, locations@),
{
    let n: usize = locations.len();
    let mut best: Option<usize> = None;
    let mut best_sum: u128 = 0;
    let mut some: bool = false;
    let ghost mut witness: int = 0;
    let mut i: usize = 0;
    while i < n
        invariant
            n == locations@.len(),
            i <= n,
            some ==> 0 <= witness < i && spec_reachable(transport, profile, locations@, witness),
            !some ==> forall|k: int| 0 <= k < i ==> !#[trigger] spec_reachable(transport, profile, locations@, k),
            best is Some <==> i > 0,
            match best {
                Some(m) => {
                    &&& m < i
                    &&& best_sum == spec_distance_sum(
                        transport,
                        profile,
                        locations@,
                        m as int,
                        n as int,
                    )
                    &&& forall|k: int|
                        0 <= k < i ==> best_sum <= #[trigger] spec_distance_sum(
                            transport,
                            profile,
                            locations@,
                            k,
                            n as int,
                        )
                    &&& forall|k: int|
                        0 <= k < m ==> best_sum < #[trigger] spec_distance_sum(
                            transport,
                            profile,
                            locations@,
                            k,
                            n as int,
                        )
                },
                None => true,
            },
        decreases n - i,
    {
        let mut sum: u128 = 0;
        let mut reachable: bool = n == 1;
        let mut j: usize = 0;
        while j < n
            invariant
                n == locations@.len(),
                i < n,
                j <= n,
                sum == spec_distance_sum(transport, profile, locations@, i as int, j as int),
                reachable <==> (n == 1 || exists|k: int|
                    0 <= k < j && k != i && #[trigger] spec_between(
                        transport,
                        profile,
                        locations@,
                        i as int,
                        k,
                    ) >= 0),
            decreases n - j,
        {
            if j != i {
                let distance: i64 = transport.distance(profile, locations[i], locations[j], 0);
                proof {
                    lemma_distance_sum_bound(transport, profile, locations@, i as int, j as int);
                    assert(j * i64::MAX + i64::MAX <= u128::MAX) by (nonlinear_arith)
                        requires
                            j <= u64::MAX,
                    ;
                }
                sum = sum + clamp(distance) as u128;
                if distance >= 0 {
                    assert(spec_between(transport, profile, locations@, i as int, j as int) >= 0);
                    reachable = true;
                }
            }
            j = j + 1;
        }
        if reachable && !some {
            some = true;
            proof {
                witness = i as int;
            }
        }
        let better: bool = match best {
            Some(_) => sum < best_sum,
            None => true,
        };
        if better {
            best = Some(i);
            best_sum = sum;
        }
        i = i + 1;
    }
    if !some {
        assert forall|m: int| !spec_is_medoid(transport, profile, locations@, m) by {}
        return None;
    }
    match best {
        Some(m) => {
            proof {
                assert(spec_some_reachable(transport, profile, locations@));
                assert(spec_is_medoid(transport, profile, locations@, m as int));
                let c = choose|c: int| spec_is_medoid(transport, profile, locations@, c);
                lemma_medoid_unique(transport, profile, locations@, m as int, c);
            }
            Some(locations[m])
        },
        None => None,
    }
}

/// The medoid of a route: the location of the stop whose distances to the
/// other stops of the route sum to the least, under the profile of the
/// route's vehicle. A pair without a route counts as zero, and of several
/// stops with the same sum the first in the tour is taken. A route without
/// stops, or with several stops of which none has a route to another, has
/// none.
pub fn get_medoid(route_ctx: &RouteContext, problem: &Problem) -> (medoid: Option<Location>)
    ensures
        medoid == spec_medoid(
            &problem.transport,
            problem.spec_profile(route_ctx.actor),
            spec_locations(route_ctx.tour@),
        ),
{
    let mut locations: Vec<Location> = Vec::new();
    let mut p: usize = 0;
    while p < route_ctx.tour.len()
        invariant
            p <= route_ctx.tour@.len(),
            locations@ == spec_locations(route_ctx.tour@.take(p as int)),
        decreases route_ctx.tour@.len() - p,
    {
        locations.push(route_ctx.tour[p].location);
        p = p + 1;
        assert(locations@ =~= spec_locations(route_ctx.tour@.take(p as int)));
    }
    assert(route_ctx.tour@.take(p as int) =~= route_ctx.tour@);
    medoid_of(&problem.transport, problem.profile(route_ctx.actor), &locations)
}

/// The values that the routes of a solution keep under `state_key`, route by
/// route, zero for a route that keeps none.
pub fn get_values_from_route_state(insertion_ctx: &InsertionContext, state_key: i32) -> (values: Vec<u64>)
    ensures
        values@.len() == insertion_ctx.solution.routes@.len(),
        forall|r: int|
            0 <= r < values@.len() ==> #[trigger] values@[r] == match spec_route_value(
                insertion_ctx.solution.routes@[r].state.route_states@,
                state_key,
            ) {
                Some(value) => value,
                None => 0,
            },
{
    let mut values: Vec<u64> = Vec::new();
    let mut r: usize = 0;
    while r < insertion_ctx.solution.routes.len()
        invariant
            r <= insertion_ctx.solution.routes@.len(),
            values@.len() == r,
            forall|k: int|
                0 <= k < r ==> #[trigger] values@[k] == match spec_route_value(
                    insertion_ctx.solution.routes@[k].state.route_states@,
                    state_key,
                ) {
                    Some(value) => value,
                    None => 0,
                },
        decreases insertion_ctx.solution.routes@.len() - r,
    {
        let value: u64 = match insertion_ctx.solution.routes[r].state.get_route_state(state_key) {
            Some(value) => value,
            None => 0,
        };
        values.push(value);
        r = r + 1;
    }
    values
}

/// The medoids of the first `upto` routes, in the order of the routes; a
/// route without a medoid brings none.
pub open spec fn spec_medoids(problem: &Problem, routes: Seq<RouteView>, upto: int) -> Seq<Location>
    decreases upto,
{
    if upto <= 0 {
        Seq::empty()
    } else {
        let before = spec_medoids(problem, routes, upto - 1);
        match spec_medoid(
            &problem.transport,
            problem.spec_profile(routes[upto - 1].actor),
            spec_locations(routes[upto - 1].tour),
        ) {
            Some(medoid) => before.push(medoid),
            None => before,
        }
    }
}

/// The distances from the place at `i` to the places behind it among the
/// first `upto`, in their order, a pair without a route counting as zero.
pub open spec fn spec_row(
    transport: &TransportCost,
    profile: Profile,
    places: Seq<Location>,
    i: int,
    upto: int,
) -> Seq<u64>
    decreases upto - i,
{
    if upto <= i + 1 {
        Seq::empty()
    } else {
        spec_row(transport, profile, places, i, upto - 1).push(
            spec_clamp(transport.spec_distance(profile, places[i], places[upto - 1])),
        )
    }
}

/// The distances between every two of the places, for the first `upto`
/// places each to the places behind it.
pub open spec fn spec_rows(transport: &TransportCost, profile: Profile, places: Seq<Location>, upto: int) -> Seq<
    u64,
>
    decreases upto,
{
    if upto <= 0 {
        Seq::empty()
    } else {
        spec_rows(transport, profile, places, upto - 1) + spec_row(
            transport,
            profile,
            places,
            upto - 1,
            places.len() as int,
        )
    }
}

/// The distances between the medoids of the routes of a solution, every
/// two of them once, under the profile of the first route's vehicle.
pub open spec fn spec_medoid_distances(problem: &Problem, routes: Seq<RouteView>) -> Seq<u64> {
    let medoids = spec_medoids(problem, routes, routes.len() as int);
    spec_rows(&problem.transport, problem.spec_profile(routes[0].actor), medoids, medoids.len() as int)
}

/// Lists the distances between the medoids of the routes of an individual,
/// every two of them once: for each medoid, in the order of the routes, the
/// distances to the medoids behind it. A pair without a route counts as
/// zero, and a route without a medoid is passed over.
pub fn medoid_distances(problem: &Problem, insertion_ctx: &InsertionContext) -> (distances: Vec<u64>)
    ensures
        distances@ == spec_medoid_distances(problem, insertion_ctx@.solution.routes),
{
    let routes = &insertion_ctx.solution.routes;
    let ghost views = insertion_ctx@.solution.routes;
    let mut medoids: Vec<Location> = Vec::new();
    let mut r: usize = 0;
    while r < routes.len()
        invariant
            r <= routes@.len(),
            *routes == insertion_ctx.solution.routes,
            views == insertion_ctx@.solution.routes,
            medoids@ == spec_medoids(problem, views, r as int),
        decreases routes@.len() - r,
    {
        assert(views[r as int] == routes@[r as int]@);
        match get_medoid(&routes[r], problem) {
            Some(medoid) => {
                medoids.push(medoid);
            },
            None => {},
        }
        r = r + 1;
    }
    let mut distances: Vec<u64> = Vec::new();
    if routes.len() == 0 {
        return distances;
    }
    assert(views[0] == routes@[0]@);
    let profile: Profile = problem.profile(routes[0].actor);
    let n: usize = medoids.len();
    let mut i: usize = 0;
    while i < n
        invariant
            n == medoids@.len(),
            i <= n,
            distances@ == spec_rows(&problem.transport, profile, medoids@, i as int),
        decreases n - i,
    {
        let ghost before = distances@;
        let mut j: usize = i + 1;
        while j < n
            invariant
                n == medoids@.len(),
                i < n,
                i + 1 <= j <= n,
                distances@ == before + spec_row(&problem.transport, profile, medoids@, i as int, j as int),
            decreases n - j,
        {
            let distance: i64 = problem.transport.distance(profile, medoids[i], medoids[j], 0);
            distances.push(clamp(distance));
            j = j + 1;
            assert(distances@ =~= before + spec_row(&problem.transport, profile, medoids@, i as int, j as int));
        }
        i = i + 1;
    }
    distances
}

} // verus!
