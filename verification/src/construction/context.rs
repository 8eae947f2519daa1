//! Routes, the registry of actors, and the candidate solution built of them.

use vstd::prelude::*;
use crate::models::common::{Duration, Location, Schedule, TimeWindow};
use crate::utils::index_set::{index_set_contains, index_set_contents};
use crate::utils::random::Random;

verus! {

/// One stop of a tour: the departure, the arrival, or the visit of a job.
#[derive(Clone, Copy, Debug)]
pub struct Activity {
    pub location: Location,
    pub duration: Duration,
    pub time: TimeWindow,
    pub schedule: Schedule,
    /// The job that the stop serves; none at the departure and the arrival.
    pub job: Option<usize>,
    /// Whether the stop is a break of the vehicle.
    pub pause: bool,
}

/// A value that a constraint module keeps for a route under its key.
#[derive(Clone, Copy, Debug)]
pub struct RouteValue {
    pub key: i32,
    pub value: u64,
}

/// A value that a constraint module keeps for one activity of a route.
#[derive(Clone, Copy, Debug)]
pub struct ActivityValue {
    pub key: i32,
    pub index: usize,
    pub value: u64,
}

/// The value kept under `key`: that of the last entry with the key.
pub open spec fn spec_route_value(entries: Seq<RouteValue>, key: i32) -> Option<u64>
    decreases entries.len(),
{
    if entries.len() == 0 {
        None
    } else if entries.last().key == key {
        Some(entries.last().value)
    } else {
        spec_route_value(entries.drop_last(), key)
    }
}

/// The value kept under `key` for the activity at `index`: that of the last
/// entry with both.
pub open spec fn spec_activity_value(entries: Seq<ActivityValue>, key: i32, index: usize) -> Option<u64>
    decreases entries.len(),
{
    if entries.len() == 0 {
        None
    } else if entries.last().key == key && entries.last().index == index {
        Some(entries.last().value)
    } else {
        spec_activity_value(entries.drop_last(), key, index)
    }
}

/// The derived state of a route: values by key, for the route and for its
/// activities. Constraint modules write it; it is valid from one refresh to
/// the next change of the tour.
pub struct RouteState {
    pub route_states: Vec<RouteValue>,
    pub activity_states: Vec<ActivityValue>,
}

impl RouteState {
    /// A state that holds nothing.
    pub fn new() -> (state: RouteState)
        ensures
            state.route_states@ == Seq::<RouteValue>::empty(),
            state.activity_states@ == Seq::<ActivityValue>::empty(),
    {
        RouteState { route_states: Vec::new(), activity_states: Vec::new() }
    }

    /// The value kept for the route under `key`, if there is one.
    pub fn get_route_state(&self, key: i32) -> (value: Option<u64>)
        ensures
            value == spec_route_value(self.route_states@, key),
    {
        let mut i: usize = self.route_states.len();
        assert(self.route_states@.take(i as int) =~= self.route_states@);
        while i > 0
            invariant
                i <= self.route_states@.len(),
                spec_route_value(self.route_states@, key) == spec_route_value(
                    self.route_states@.take(i as int),
                    key,
                ),
            decreases i,
        {
            assert(self.route_states@.take(i as int).drop_last() =~= self.route_states@.take(
                i as int - 1,
            ));
            if self.route_states[i - 1].key == key {
                return Some(self.route_states[i - 1].value);
            }
            i = i - 1;
        }
        None
    }

    /// Keeps `value` for the route under `key`, in place of an earlier one.
    pub fn put_route_state(&mut self, key: i32, value: u64)
        ensures
            final(self).route_states@ == old(self).route_states@.push(RouteValue { key, value }),
            final(self).activity_states@ == old(self).activity_states@,
            spec_route_value(final(self).route_states@, key) == Some(value),
            forall|other: i32|
                other != key ==> spec_route_value(final(self).route_states@, other)
                    == spec_route_value(old(self).route_states@, other),
    {
        self.route_states.push(RouteValue { key, value });
        assert(self.route_states@.drop_last() =~= old(self).route_states@);
    }

    /// The value kept under `key` for the activity at `index`, if there is
    /// one.
    pub fn get_activity_state(&self, key: i32, index: usize) -> (value: Option<u64>)
        ensures
            value == spec_activity_value(self.activity_states@, key, index),
    {
        let mut i: usize = self.activity_states.len();
        assert(self.activity_states@.take(i as int) =~= self.activity_states@);
        while i > 0
            invariant
                i <= self.activity_states@.len(),
                spec_activity_value(self.activity_states@, key, index) == spec_activity_value(
                    self.activity_states@.take(i as int),
                    key,
                    index,
                ),
            decreases i,
        {
            assert(self.activity_states@.take(i as int).drop_last()
                =~= self.activity_states@.take(i as int - 1));
            if self.activity_states[i - 1].key == key && self.activity_states[i - 1].index
                == index {
                return Some(self.activity_states[i - 1].value);
            }
            i = i - 1;
        }
        None
    }

    /// Keeps `value` under `key` for the activity at `index`, in place of an
    /// earlier one.
    pub fn put_activity_state(&mut self, key: i32, index: usize, value: u64)
        ensures
            final(self).activity_states@ == old(self).activity_states@.push(
                ActivityValue { key, index, value },
            ),
            final(self).route_states@ == old(self).route_states@,
            spec_activity_value(final(self).activity_states@, key, index) == Some(value),
    {
        self.activity_states.push(ActivityValue { key, index, value });
        assert(self.activity_states@.drop_last() =~= old(self).activity_states@);
    }
}

/// One vehicle tour with its derived state.
pub struct RouteContext {
    /// The actor that runs the tour, by its position in the fleet.
    pub actor: usize,
    /// The stops in the order of the visit.
    pub tour: Vec<Activity>,
    pub state: RouteState,
}

/// A route as a value.
pub struct RouteView {
    pub actor: usize,
    pub tour: Seq<Activity>,
    pub route_states: Seq<RouteValue>,
    pub activity_states: Seq<ActivityValue>,
}

impl View for RouteContext {
    type V = RouteView;

    open spec fn view(&self) -> RouteView {
        RouteView {
            actor: self.actor,
            tour: self.tour@,
            route_states: self.state.route_states@,
            activity_states: self.state.activity_states@,
        }
    }
}

/// The jobs that the stops of a tour serve, in the order of the tour.
pub open spec fn spec_tour_jobs(tour: Seq<Activity>) -> Seq<usize>
    decreases tour.len(),
{
    if tour.len() == 0 {
        Seq::empty()
    } else {
        match tour.last().job {
            Some(job) => spec_tour_jobs(tour.drop_last()).push(job),
            None => spec_tour_jobs(tour.drop_last()),
        }
    }
}

/// The number of jobs among the stops of a tour.
pub open spec fn spec_job_count(tour: Seq<Activity>) -> nat {
    spec_tour_jobs(tour).len()
}

/// A job stands in the job list of a tour exactly if a stop serves it.
pub proof fn lemma_tour_jobs_contains(tour: Seq<Activity>, job: usize)
    ensures
        spec_tour_jobs(tour).contains(job) <==> exists|p: int|
            0 <= p < tour.len() && (#[trigger] tour[p]).job == Some(job),
        spec_tour_jobs(tour).len() <= tour.len(),
    decreases tour.len(),
{
    if tour.len() > 0 {
        let rest = tour.drop_last();
        lemma_tour_jobs_contains(rest, job);
        let jobs = spec_tour_jobs(tour);
        if spec_tour_jobs(tour).contains(job) {
            let i = choose|i: int| 0 <= i < jobs.len() && jobs[i] == job;
            if tour.last().job == Some(job) {
                assert(tour[tour.len() - 1].job == Some(job));
            } else {
                assert(spec_tour_jobs(rest).contains(job)) by {
                    match tour.last().job {
                        Some(other) => {
                            assert(spec_tour_jobs(rest).push(other)[i] == job);
                            assert(spec_tour_jobs(rest)[i] == job);
                        },
                        None => {},
                    }
                }
                let p = choose|p: int| 0 <= p < rest.len() && (#[trigger] rest[p]).job == Some(job);
                assert(tour[p].job == Some(job));
            }
        }
        if exists|p: int| 0 <= p < tour.len() && (#[trigger] tour[p]).job == Some(job) {
            let p = choose|p: int| 0 <= p < tour.len() && (#[trigger] tour[p]).job == Some(job);
            if p == tour.len() - 1 {
                assert(jobs[jobs.len() - 1] == job);
            } else {
                assert(rest[p].job == Some(job));
                let i = choose|i: int|
                    0 <= i < spec_tour_jobs(rest).len() && spec_tour_jobs(rest)[i] == job;
                assert(jobs[i] == job);
            }
        }
    }
}

impl RouteView {
    /// Whether a stop of the tour serves `job`.
    pub open spec fn serves(self, job: usize) -> bool {
        exists|p: int| 0 <= p < self.tour.len() && (#[trigger] self.tour[p]).job == Some(job)
    }

    /// Whether no two stops of the tour serve the same job.
    pub open spec fn tour_unique(self) -> bool {
        spec_tour_unique(self.tour)
    }
}

/// Whether no two stops of a tour serve the same job.
pub open spec fn spec_tour_unique(tour: Seq<Activity>) -> bool {
    forall|p: int, q: int|
        0 <= p < q < tour.len() && (#[trigger] tour[p]).job is Some ==> tour[p].job != (#[trigger] tour[q]).job
}

/// Whether one of the routes serves `job`.
pub open spec fn spec_routes_serve(routes: Seq<RouteView>, job: usize) -> bool {
    exists|r: int| 0 <= r < routes.len() && (#[trigger] routes[r]).serves(job)
}

/// Whether no job is served twice: not by two stops of one route and not by
/// two routes.
pub open spec fn spec_routes_unique(routes: Seq<RouteView>) -> bool {
    &&& forall|r: int| 0 <= r < routes.len() ==> (#[trigger] routes[r]).tour_unique()
    &&& forall|r1: int, r2: int, job: usize|
        0 <= r1 < routes.len() && 0 <= r2 < routes.len() && r1 != r2 && (
        #[trigger] routes[r1]).serves(job) ==> !(#[trigger] routes[r2].serves(job))
}

/// The jobs that the given routes serve.
pub open spec fn spec_jobs_of(routes: Seq<RouteView>) -> Set<usize> {
    Set::new(|job: usize| spec_routes_serve(routes, job))
}

/// The actors that run the given routes.
pub open spec fn spec_actors_of(routes: Seq<RouteView>) -> Set<usize> {
    Set::new(|actor: usize| spec_routes_use(routes, actor))
}

/// Whether one of the routes is run by `actor`.
pub open spec fn spec_routes_use(routes: Seq<RouteView>, actor: usize) -> bool {
    exists|r: int| 0 <= r < routes.len() && (#[trigger] routes[r]).actor == actor
}

impl RouteContext {
    /// A route of `actor` with the given stops and no derived state.
    pub fn new(actor: usize, tour: Vec<Activity>) -> (route: RouteContext)
        ensures
            route@ == (RouteView {
                actor,
                tour: tour@,
                route_states: Seq::empty(),
                activity_states: Seq::empty(),
            }),
    {
        RouteContext { actor, tour, state: RouteState::new() }
    }

    /// A copy that can be changed on its own.
    pub fn deep_copy(&self) -> (copy: RouteContext)
        ensures
            copy@ == self@,
    {
        let tour = self.tour.clone();
        let route_states = self.state.route_states.clone();
        let activity_states = self.state.activity_states.clone();
        assert(tour@ =~= self.tour@);
        assert(route_states@ =~= self.state.route_states@);
        assert(activity_states@ =~= self.state.activity_states@);
        RouteContext { actor: self.actor, tour, state: RouteState { route_states, activity_states } }
    }

    /// The jobs that the tour serves, in its order.
    pub fn jobs(&self) -> (jobs: Vec<usize>)
        ensures
            jobs@ == spec_tour_jobs(self.tour@),
    {
        let mut jobs: Vec<usize> = Vec::new();
        let mut p: usize = 0;
        while p < self.tour.len()
            invariant
                p <= self.tour@.len(),
                jobs@ == spec_tour_jobs(self.tour@.take(p as int)),
            decreases self.tour@.len() - p,
        {
            assert(self.tour@.take(p as int + 1).drop_last() =~= self.tour@.take(p as int));
            match self.tour[p].job {
                Some(job) => {
                    jobs.push(job);
                },
                None => {},
            }
            p = p + 1;
        }
        assert(self.tour@.take(p as int) =~= self.tour@);
        jobs
    }

    /// The number of jobs that the tour serves.
    pub fn job_count(&self) -> (count: usize)
        ensures
            count == spec_job_count(self.tour@),
    {
        let jobs = self.jobs();
        jobs.len()
    }
}

/// The views of a list of routes.
pub open spec fn spec_route_views(routes: Seq<RouteContext>) -> Seq<RouteView> {
    Seq::new(routes.len(), |r: int| routes[r]@)
}

/// The actors that a problem's working state knows, and those of them that
/// run no route yet.
pub struct Registry {
    pub all: Vec<usize>,
    pub available: Vec<usize>,
}

/// A registry as a value.
pub struct RegistryView {
    pub all: Seq<usize>,
    pub available: Seq<usize>,
}

impl View for Registry {
    type V = RegistryView;

    open spec fn view(&self) -> RegistryView {
        RegistryView { all: self.all@, available: self.available@ }
    }
}

/// The items of `items` that `keep` holds, in their order.
pub open spec fn spec_retain(items: Seq<usize>, keep: Set<usize>) -> Seq<usize>
    decreases items.len(),
{
    if items.len() == 0 {
        Seq::empty()
    } else if keep.contains(items.last()) {
        spec_retain(items.drop_last(), keep).push(items.last())
    } else {
        spec_retain(items.drop_last(), keep)
    }
}

/// What `spec_retain` keeps: an item stands in the result exactly if it
/// stands in the list and in the set; the result repeats nothing that the list
/// does not repeat.
pub proof fn lemma_retain(items: Seq<usize>, keep: Set<usize>)
    ensures
        forall|x: usize|
            #[trigger] spec_retain(items, keep).contains(x) <==> items.contains(x)
                && keep.contains(x),
        items.no_duplicates() ==> spec_retain(items, keep).no_duplicates(),
        spec_retain(items, keep).len() <= items.len(),
    decreases items.len(),
{
    if items.len() > 0 {
        let rest = items.drop_last();
        let last = items.last();
        lemma_retain(rest, keep);
        let kept = spec_retain(items, keep);
        let kept_rest = spec_retain(rest, keep);
        assert forall|x: usize| #[trigger] kept.contains(x) <==> items.contains(x) && keep.contains(
            x,
        ) by {
            if kept.contains(x) {
                let i = choose|i: int| 0 <= i < kept.len() && kept[i] == x;
                if keep.contains(last) && i == kept.len() - 1 {
                    assert(items[items.len() - 1] == x);
                } else {
                    assert(kept_rest[i] == x);
                    assert(kept_rest.contains(x));
                    let k = choose|k: int| 0 <= k < rest.len() && rest[k] == x;
                    assert(items[k] == x);
                }
            }
            if items.contains(x) && keep.contains(x) {
                let k = choose|k: int| 0 <= k < items.len() && items[k] == x;
                if k == items.len() - 1 {
                    assert(kept[kept.len() - 1] == x);
                } else {
                    assert(rest[k] == x);
                    assert(rest.contains(x));
                    assert(kept_rest.contains(x));
                    let i = choose|i: int| 0 <= i < kept_rest.len() && kept_rest[i] == x;
                    assert(kept[i] == x);
                }
            }
        }
        if items.no_duplicates() {
            assert(rest.no_duplicates());
            if keep.contains(last) {
                assert(!kept_rest.contains(last)) by {
                    if kept_rest.contains(last) {
                        assert(rest.contains(last));
                        let k = choose|k: int| 0 <= k < rest.len() && rest[k] == last;
                        assert(items[k] == items[items.len() - 1]);
                    }
                }
                assert forall|i: int, j: int|
                    0 <= i < kept.len() && 0 <= j < kept.len() && i != j implies kept[i]
                    != kept[j] by {
                    if i == kept.len() - 1 {
                        assert(kept_rest[j] == kept[j]);
                        assert(kept_rest.contains(kept[j]));
                    } else if j == kept.len() - 1 {
                        assert(kept_rest[i] == kept[i]);
                        assert(kept_rest.contains(kept[i]));
                    } else {
                        assert(kept_rest[i] == kept[i] && kept_rest[j] == kept[j]);
                    }
                }
            }
        }
    }
}

/// Removes one value from a list: what is left, in order, are the items
/// other than `value`.
pub open spec fn spec_without(items: Seq<usize>, value: usize) -> Seq<usize> {
    spec_retain(items, spec_others(value))
}

/// Every index but `value`.
pub open spec fn spec_others(value: usize) -> Set<usize> {
    Set::new(|x: usize| x != value)
}

/// What is left of a list without `value`: its other items; and nothing is
/// repeated that was not repeated before.
pub proof fn lemma_without(items: Seq<usize>, value: usize)
    ensures
        forall|x: usize|
            #[trigger] spec_without(items, value).contains(x) <==> (items.contains(x) && x != value),
        items.no_duplicates() ==> spec_without(items, value).no_duplicates(),
        spec_without(items, value).len() <= items.len(),
{
    lemma_retain(items, spec_others(value));
}

/// Keeps of `items` what `keep` holds.
pub fn retain_indices(items: &Vec<usize>, keep: &hashbrown::HashSet<usize>) -> (kept: Vec<usize>)
    ensures
        kept@ == spec_retain(items@, index_set_contents(*keep)),
{
    let mut kept: Vec<usize> = Vec::new();
    let mut i: usize = 0;
    while i < items.len()
        invariant
            i <= items@.len(),
            kept@ == spec_retain(items@.take(i as int), index_set_contents(*keep)),
        decreases items@.len() - i,
    {
        assert(items@.take(i as int + 1).drop_last() =~= items@.take(i as int));
        if index_set_contains(keep, items[i]) {
            kept.push(items[i]);
        }
        i = i + 1;
    }
    assert(items@.take(i as int) =~= items@);
    kept
}

impl Registry {
    /// The registry of a fleet of `actors` actors, none of them in use.
    pub fn new(actors: usize) -> (registry: Registry)
        ensures
            registry@.all == Seq::new(actors as nat, |a: int| a as usize),
            registry@.available == registry@.all,
    {
        let mut all: Vec<usize> = Vec::new();
        let mut a: usize = 0;
        while a < actors
            invariant
                a <= actors,
                all@ == Seq::new(a as nat, |a: int| a as usize),
            decreases actors - a,
        {
            all.push(a);
            a = a + 1;
            assert(all@ =~= Seq::new(a as nat, |a: int| a as usize));
        }
        let available = all.clone();
        assert(available@ =~= all@);
        Registry { all, available }
    }

    /// A copy that can be changed on its own.
    pub fn deep_copy(&self) -> (copy: Registry)
        ensures
            copy@ == self@,
    {
        let all = self.all.clone();
        let available = self.available.clone();
        assert(all@ =~= self.all@);
        assert(available@ =~= self.available@);
        Registry { all, available }
    }

    /// A copy that knows only the actors that `actors` holds.
    pub fn deep_slice(&self, actors: &hashbrown::HashSet<usize>) -> (slice: Registry)
        ensures
            slice@.all == spec_retain(self@.all, index_set_contents(*actors)),
            slice@.available == spec_retain(self@.available, index_set_contents(*actors)),
    {
        Registry {
            all: retain_indices(&self.all, actors),
            available: retain_indices(&self.available, actors),
        }
    }

    /// Marks an actor as in use: it is no longer available.
    pub fn use_actor(&mut self, actor: usize)
        ensures
            final(self)@.all == old(self)@.all,
            final(self)@.available == spec_without(old(self)@.available, actor),
    {
        let mut kept: Vec<usize> = Vec::new();
        let mut i: usize = 0;
        while i < self.available.len()
            invariant
                i <= self.available@.len(),
                kept@ == spec_without(self.available@.take(i as int), actor),
                *self == *old(self),
            decreases self.available@.len() - i,
        {
            assert(self.available@.take(i as int + 1).drop_last() =~= self.available@.take(
                i as int,
            ));
            if self.available[i] != actor {
                kept.push(self.available[i]);
            }
            i = i + 1;
        }
        assert(self.available@.take(i as int) =~= self.available@);
        self.available = kept;
    }

    /// Marks the actor of a route as in use.
    pub fn use_route(&mut self, route: &RouteContext)
        ensures
            final(self)@.all == old(self)@.all,
            final(self)@.available == spec_without(old(self)@.available, route.actor),
    {
        self.use_actor(route.actor);
    }
}

/// A job that could not be placed, with the code of the constraint that
/// turned it down.
#[derive(Clone, Copy, Debug)]
pub struct Unassigned {
    pub job: usize,
    pub code: i32,
}

/// A candidate solution: the routes and the jobs outside them.
pub struct SolutionContext {
    /// Jobs that still have to be inserted.
    pub required: Vec<usize>,
    /// Jobs that this solution leaves aside on purpose.
    pub ignored: Vec<usize>,
    /// Jobs that could not be placed.
    pub unassigned: Vec<Unassigned>,
    /// Jobs that a lock binds.
    pub locked: Vec<usize>,
    pub routes: Vec<RouteContext>,
    pub registry: Registry,
    /// Values that constraint modules keep for the whole solution.
    pub state: Vec<RouteValue>,
}

/// A candidate solution as a value.
pub struct SolutionView {
    pub required: Seq<usize>,
    pub ignored: Seq<usize>,
    pub unassigned: Seq<Unassigned>,
    pub locked: Seq<usize>,
    pub routes: Seq<RouteView>,
    pub registry: RegistryView,
    pub state: Seq<RouteValue>,
}

impl View for SolutionContext {
    type V = SolutionView;

    open spec fn view(&self) -> SolutionView {
        SolutionView {
            required: self.required@,
            ignored: self.ignored@,
            unassigned: self.unassigned@,
            locked: self.locked@,
            routes: spec_route_views(self.routes@),
            registry: self.registry@,
            state: self.state@,
        }
    }
}

impl SolutionView {
    /// Whether some route serves `job`.
    pub open spec fn serves(self, job: usize) -> bool {
        spec_routes_serve(self.routes, job)
    }

    /// Whether `job` is recorded as not placed.
    pub open spec fn leaves_out(self, job: usize) -> bool {
        exists|i: int| 0 <= i < self.unassigned.len() && (#[trigger] self.unassigned[i]).job == job
    }

    /// The jobs left aside on purpose.
    pub open spec fn ignored_set(self) -> Set<usize> {
        Set::new(|job: usize| self.ignored.contains(job))
    }

    /// Whether `job` is served or waits to be: it is served, required or
    /// unassigned.
    pub open spec fn is_active(self, job: usize) -> bool {
        self.serves(job) || self.required.contains(job) || self.leaves_out(job)
    }

    /// Whether the solution knows `job`: it is served, required, unassigned
    /// or ignored.
    pub open spec fn knows(self, job: usize) -> bool {
        self.is_active(job) || self.ignored.contains(job)
    }

    /// The jobs that are served or wait to be: served, required or
    /// unassigned.
    pub open spec fn active(self) -> Set<usize> {
        Set::new(|job: usize| self.is_active(job))
    }

    /// Every job that the solution knows.
    pub open spec fn jobs(self) -> Set<usize> {
        Set::new(|job: usize| self.knows(job))
    }

    /// Whether no two entries name the same unassigned job.
    pub open spec fn unassigned_unique(self) -> bool {
        forall|i: int, j: int|
            0 <= i < j < self.unassigned.len() ==> (#[trigger] self.unassigned[i]).job != (
            #[trigger] self.unassigned[j]).job
    }

    /// Whether `job` is in at most one of the four groups.
    pub open spec fn in_one_group(self, job: usize) -> bool {
        &&& !(self.serves(job) && self.required.contains(job))
        &&& !(self.serves(job) && self.ignored.contains(job))
        &&& !(self.serves(job) && self.leaves_out(job))
        &&& !(self.required.contains(job) && self.ignored.contains(job))
        &&& !(self.required.contains(job) && self.leaves_out(job))
        &&& !(self.ignored.contains(job) && self.leaves_out(job))
    }

    /// No job occurs twice: not at two stops, not twice in one list, and not
    /// in two of the four groups (served, required, ignored, unassigned).
    pub open spec fn unique(self) -> bool {
        &&& spec_routes_unique(self.routes)
        &&& self.required.no_duplicates()
        &&& self.ignored.no_duplicates()
        &&& self.unassigned_unique()
        &&& forall|job: usize| #[trigger] self.in_one_group(job)
    }

    /// No actor runs two routes.
    pub open spec fn distinct_actors(self) -> bool {
        forall|r1: int, r2: int|
            0 <= r1 < r2 < self.routes.len() ==> (#[trigger] self.routes[r1]).actor != (
            #[trigger] self.routes[r2]).actor
    }

    /// Whether an actor runs one of the routes.
    pub open spec fn uses_actor(self, actor: usize) -> bool {
        spec_routes_use(self.routes, actor)
    }

    /// The four groups split `all_jobs`: every job is served, required,
    /// ignored or unassigned, and nothing else is; no job is in two groups or
    /// twice in one.
    pub open spec fn partitions(self, all_jobs: Set<usize>) -> bool {
        self.unique() && self.jobs() == all_jobs
    }
}

/// A candidate solution with the randomness that its mutations draw from.
pub struct InsertionContext {
    pub solution: SolutionContext,
    pub random: Random,
}

/// One member of a population.
pub type Individual = InsertionContext;

/// An individual as a value.
pub struct InsertionView {
    pub solution: SolutionView,
    pub random: Random,
}

impl View for InsertionContext {
    type V = InsertionView;

    open spec fn view(&self) -> InsertionView {
        InsertionView { solution: self.solution@, random: self.random }
    }
}

/// Copies a list of routes.
pub fn copy_routes(routes: &Vec<RouteContext>) -> (copy: Vec<RouteContext>)
    ensures
        spec_route_views(copy@) == spec_route_views(routes@),
{
    let mut copy: Vec<RouteContext> = Vec::new();
    let mut r: usize = 0;
    while r < routes.len()
        invariant
            r <= routes@.len(),
            copy@.len() == r,
            forall|k: int| 0 <= k < r ==> (#[trigger] copy@[k])@ == routes@[k]@,
        decreases routes@.len() - r,
    {
        copy.push(routes[r].deep_copy());
        r = r + 1;
    }
    assert(spec_route_views(copy@) =~= spec_route_views(routes@));
    copy
}

impl SolutionContext {
    /// A copy that can be changed on its own.
    pub fn deep_copy(&self) -> (copy: SolutionContext)
        ensures
            copy@ == self@,
    {
        let required = self.required.clone();
        let ignored = self.ignored.clone();
        let unassigned = self.unassigned.clone();
        let locked = self.locked.clone();
        let state = self.state.clone();
        assert(required@ =~= self.required@);
        assert(ignored@ =~= self.ignored@);
        assert(unassigned@ =~= self.unassigned@);
        assert(locked@ =~= self.locked@);
        assert(state@ =~= self.state@);
        SolutionContext {
            required,
            ignored,
            unassigned,
            locked,
            routes: copy_routes(&self.routes),
            registry: self.registry.deep_copy(),
            state,
        }
    }
}

/// Tells whether a list holds `value`.
pub fn contains_index(items: &Vec<usize>, value: usize) -> (found: bool)
    ensures
        found == items@.contains(value),
{
    let mut i: usize = 0;
    while i < items.len()
        invariant
            i <= items@.len(),
            forall|k: int| 0 <= k < i ==> items@[k] != value,
        decreases items@.len() - i,
    {
        if items[i] == value {
            return true;
        }
        i = i + 1;
    }
    false
}

impl InsertionContext {
    /// A copy that can be changed on its own.
    pub fn deep_copy(&self) -> (copy: InsertionContext)
        ensures
            copy@ == self@,
    {
        InsertionContext { solution: self.solution.deep_copy(), random: self.random }
    }
}

} // verus!
