//! From a problem as it is handed in to the problem that the solver works
//! on.

use vstd::prelude::*;
use crate::construction::constraints::{ConstraintModule, ConstraintPipeline};
use crate::format::api::{Config, Coordinate, JobVariant, MultiJobPlace, VehicleShift, VehicleType};
use crate::format::coord_index::{problem_locations, spec_add_coords, spec_problem_locations, CoordIndex};
use crate::format::fleet_reader::{create_transport_costs, read_fleet, read_limits, spec_fleet_readable};
use crate::format::fleet_reader::{spec_has_limits, spec_is_vehicle, spec_origins};
use crate::format::break_reader::{read_breaks, spec_all_breaks, spec_breaks_readable, spec_is_break_job};
use crate::format::break_reader::spec_with_breaks;
use crate::format::job_reader::{read_jobs, spec_is_job, spec_jobs_readable};
use crate::format::lock_reader::{lemma_drives, read_locks, spec_are_locks, spec_drives, spec_drives_of};
use crate::format::lock_reader::{spec_ids_of, spec_job_names, spec_lock_plan, spec_locks_readable, spec_names_of};
use crate::format::lock_reader::spec_vehicle_ids;
use crate::models::common::Cost;
use crate::models::problem::{spec_actors, Dimensions, Extras, Job, Lock, Matrix, ObjectiveCost, Problem};

verus! {

/// A problem as it is handed in.
pub type ApiProblem = crate::format::api::Problem;

/// What a problem makes use of. The modules of the constraint pipeline are
/// chosen by it.
pub struct ProblemProperties {
    pub has_multi_dimen_capacity: bool,
    pub has_breaks: bool,
    pub has_skills: bool,
    pub has_unreachable_locations: bool,
    pub has_fixed_cost: bool,
    pub has_reload: bool,
    pub even_dist: Option<Cost>,
}

/// Whether a visit asks for more than one kind of load.
pub open spec fn spec_place_multi(place: MultiJobPlace) -> bool {
    place.demand@.len() > 1
}

/// Whether one of the visits asks for more than one kind of load.
pub open spec fn spec_places_multi(places: Seq<MultiJobPlace>) -> bool {
    exists|p: int| 0 <= p < places.len() && spec_place_multi(#[trigger] places[p])
}

/// Whether a job asks for more than one kind of load.
pub open spec fn spec_job_multi(job: JobVariant) -> bool {
    match job {
        JobVariant::Single(single) => single.demand@.len() > 1,
        JobVariant::Multi(multi) => spec_places_multi(multi.places.pickups@) || spec_places_multi(
            multi.places.deliveries@,
        ),
    }
}

/// Whether a vehicle type carries more than one kind of load.
pub open spec fn spec_type_multi(vehicle: VehicleType) -> bool {
    vehicle.capacity@.len() > 1
}

/// Whether a job asks for skills.
pub open spec fn spec_job_skills(job: JobVariant) -> bool {
    match job {
        JobVariant::Single(single) => single.skills is Some,
        JobVariant::Multi(multi) => multi.skills is Some,
    }
}

/// Whether a shift has a break.
pub open spec fn spec_shift_breaks(shift: VehicleShift) -> bool {
    match shift.breaks {
        Some(breaks) => breaks@.len() > 0,
        None => false,
    }
}

/// Whether a shift has a reload.
pub open spec fn spec_shift_reloads(shift: VehicleShift) -> bool {
    match shift.reloads {
        Some(reloads) => reloads@.len() > 0,
        None => false,
    }
}

/// Whether a shift of the vehicle type has a break.
pub open spec fn spec_type_breaks(vehicle: VehicleType) -> bool {
    exists|s: int| 0 <= s < vehicle.shifts@.len() && spec_shift_breaks(#[trigger] vehicle.shifts@[s])
}

/// Whether a shift of the vehicle type has a reload.
pub open spec fn spec_type_reloads(vehicle: VehicleType) -> bool {
    exists|s: int| 0 <= s < vehicle.shifts@.len() && spec_shift_reloads(#[trigger] vehicle.shifts@[s])
}

/// Whether a vehicle type has a fixed cost.
pub open spec fn spec_type_fixed_cost(vehicle: VehicleType) -> bool {
    vehicle.costs.fixed is Some
}

/// Whether a matrix marks a pair of places as without a route: it brings
/// error codes, or one of its distances is negative.
pub open spec fn spec_matrix_errors(matrix: Matrix) -> bool {
    matrix.error_codes is Some || exists|i: int| 0 <= i < matrix.distances@.len() && #[trigger] matrix.distances@[i] < 0
}

/// Tells whether a matrix marks a pair of places as without a route.
pub fn matrix_errors(matrix: &Matrix) -> (found: bool)
    ensures
        found == spec_matrix_errors(*matrix),
{
    if matrix.error_codes.is_some() {
        return true;
    }
    let mut i: usize = 0;
    while i < matrix.distances.len()
        invariant
            i <= matrix.distances@.len(),
            matrix.error_codes is None,
            forall|k: int| 0 <= k < i ==> matrix.distances@[k] >= 0,
        decreases matrix.distances@.len() - i,
    {
        if matrix.distances[i] < 0 {
            return true;
        }
        i = i + 1;
    }
    false
}

/// The extra cost for unevenly loaded tours that the settings name.
pub open spec fn spec_even_dist(config: Option<Config>) -> Option<Cost> {
    match config {
        Some(config) => match config.features {
            Some(features) => match features.even_distribution {
                Some(even) => even.extra_cost,
                None => None,
            },
            None => None,
        },
        None => None,
    }
}

/// What a problem with its matrices makes use of.
pub open spec fn spec_problem_properties(api_problem: &ApiProblem, matrices: Seq<Matrix>) -> ProblemProperties {
    ProblemProperties {
        has_multi_dimen_capacity: (exists|t: int|
            0 <= t < api_problem.fleet.types@.len() && spec_type_multi(
                #[trigger] api_problem.fleet.types@[t],
            )) || (exists|j: int|
            0 <= j < api_problem.plan.jobs@.len() && spec_job_multi(#[trigger] api_problem.plan.jobs@[j])),
        has_breaks: exists|t: int|
            0 <= t < api_problem.fleet.types@.len() && spec_type_breaks(
                #[trigger] api_problem.fleet.types@[t],
            ),
        has_skills: exists|j: int|
            0 <= j < api_problem.plan.jobs@.len() && spec_job_skills(#[trigger] api_problem.plan.jobs@[j]),
        has_unreachable_locations: exists|m: int|
            0 <= m < matrices.len() && spec_matrix_errors(#[trigger] matrices[m]),
        has_fixed_cost: exists|t: int|
            0 <= t < api_problem.fleet.types@.len() && spec_type_fixed_cost(
                #[trigger] api_problem.fleet.types@[t],
            ),
        has_reload: exists|t: int|
            0 <= t < api_problem.fleet.types@.len() && spec_type_reloads(
                #[trigger] api_problem.fleet.types@[t],
            ),
        even_dist: spec_even_dist(api_problem.config),
    }
}

/// Tells whether one of the visits asks for more than one kind of load.
pub fn places_multi(places: &Vec<MultiJobPlace>) -> (found: bool)
    ensures
        found == spec_places_multi(places@),
{
    let mut found: bool = false;
    let mut p: usize = 0;
    while p < places.len()
        invariant
            p <= places@.len(),
            found <==> exists|k: int| 0 <= k < p && spec_place_multi(#[trigger] places@[k]),
        decreases places@.len() - p,
    {
        if places[p].demand.len() > 1 {
            assert(spec_place_multi(places@[p as int]));
            found = true;
        }
        p = p + 1;
    }
    found
}

/// Tells whether a job asks for more than one kind of load.
pub fn job_multi(job: &JobVariant) -> (found: bool)
    ensures
        found == spec_job_multi(*job),
{
    match job {
        JobVariant::Single(single) => single.demand.len() > 1,
        JobVariant::Multi(multi) => places_multi(&multi.places.pickups) || places_multi(
            &multi.places.deliveries,
        ),
    }
}

/// Tells whether a shift of the vehicle type has a break.
pub fn type_breaks(vehicle: &VehicleType) -> (found: bool)
    ensures
        found == spec_type_breaks(*vehicle),
{
    let mut found: bool = false;
    let mut s: usize = 0;
    while s < vehicle.shifts.len()
        invariant
            s <= vehicle.shifts@.len(),
            found <==> exists|k: int| 0 <= k < s && spec_shift_breaks(#[trigger] vehicle.shifts@[k]),
        decreases vehicle.shifts@.len() - s,
    {
        let has: bool = match &vehicle.shifts[s].breaks {
            Some(breaks) => breaks.len() > 0,
            None => false,
        };
        if has {
            assert(spec_shift_breaks(vehicle.shifts@[s as int]));
            found = true;
        }
        s = s + 1;
    }
    found
}

/// Tells whether a shift of the vehicle type has a reload.
pub fn type_reloads(vehicle: &VehicleType) -> (found: bool)
    ensures
        found == spec_type_reloads(*vehicle),
{
    let mut found: bool = false;
    let mut s: usize = 0;
    while s < vehicle.shifts.len()
        invariant
            s <= vehicle.shifts@.len(),
            found <==> exists|k: int| 0 <= k < s && spec_shift_reloads(#[trigger] vehicle.shifts@[k]),
        decreases vehicle.shifts@.len() - s,
    {
        let has: bool = match &vehicle.shifts[s].reloads {
            Some(reloads) => !reloads.is_empty(),
            None => false,
        };
        if has {
            assert(spec_shift_reloads(vehicle.shifts@[s as int]));
            found = true;
        }
        s = s + 1;
    }
    found
}

/// Finds out what a problem makes use of: loads of more than one kind in
/// a vehicle type or a job, breaks and reloads in a shift, skills asked by a
/// job, error codes in a matrix, a fixed cost of a vehicle type, and the
/// extra cost for unevenly loaded tours.
pub fn get_problem_properties(api_problem: &ApiProblem, matrices: &Vec<Matrix>) -> (props: ProblemProperties)
    ensures
        props == spec_problem_properties(api_problem, matrices@),
{
    let mut has_unreachable_locations: bool = false;
    let mut m: usize = 0;
    while m < matrices.len()
        invariant
            m <= matrices@.len(),
            has_unreachable_locations <==> exists|k: int|
                0 <= k < m && spec_matrix_errors(#[trigger] matrices@[k]),
        decreases matrices@.len() - m,
    {
        if matrix_errors(&matrices[m]) {
            assert(spec_matrix_errors(matrices@[m as int]));
            has_unreachable_locations = true;
        }
        m = m + 1;
    }
    let types = &api_problem.fleet.types;
    let mut types_multi: bool = false;
    let mut has_breaks: bool = false;
    let mut has_fixed_cost: bool = false;
    let mut has_reload: bool = false;
    let mut t: usize = 0;
    while t < types.len()
        invariant
            t <= types@.len(),
            types_multi <==> exists|k: int| 0 <= k < t && spec_type_multi(#[trigger] types@[k]),
            has_breaks <==> exists|k: int| 0 <= k < t && spec_type_breaks(#[trigger] types@[k]),
            has_fixed_cost <==> exists|k: int| 0 <= k < t && spec_type_fixed_cost(#[trigger] types@[k]),
            has_reload <==> exists|k: int| 0 <= k < t && spec_type_reloads(#[trigger] types@[k]),
        decreases types@.len() - t,
    {
        if types[t].capacity.len() > 1 {
            assert(spec_type_multi(types@[t as int]));
            types_multi = true;
        }
        if type_breaks(&types[t]) {
            has_breaks = true;
        }
        if types[t].costs.fixed.is_some() {
            assert(spec_type_fixed_cost(types@[t as int]));
            has_fixed_cost = true;
        }
        if type_reloads(&types[t]) {
            has_reload = true;
        }
        t = t + 1;
    }
    let jobs = &api_problem.plan.jobs;
    let mut jobs_multi: bool = false;
    let mut has_skills: bool = false;
    let mut j: usize = 0;
    while j < jobs.len()
        invariant
            j <= jobs@.len(),
            jobs_multi <==> exists|k: int| 0 <= k < j && spec_job_multi(#[trigger] jobs@[k]),
            has_skills <==> exists|k: int| 0 <= k < j && spec_job_skills(#[trigger] jobs@[k]),
        decreases jobs@.len() - j,
    {
        if job_multi(&jobs[j]) {
            jobs_multi = true;
        }
        let skills: bool = match &jobs[j] {
            JobVariant::Single(single) => single.skills.is_some(),
            JobVariant::Multi(multi) => multi.skills.is_some(),
        };
        if skills {
            assert(spec_job_skills(jobs@[j as int]));
            has_skills = true;
        }
        j = j + 1;
    }
    let even_dist: Option<Cost> = match &api_problem.config {
        Some(config) => match &config.features {
            Some(features) => match &features.even_distribution {
                Some(even) => even.extra_cost,
                None => None,
            },
            None => None,
        },
        None => None,
    };
    ProblemProperties {
        has_multi_dimen_capacity: types_multi || jobs_multi,
        has_breaks,
        has_skills,
        has_unreachable_locations,
        has_fixed_cost,
        has_reload,
        even_dist,
    }
}

/// The index of every place that a problem names: the places of the jobs
/// first, in the order of the plan, a pickup before a delivery; then the
/// places of the fleet, type by type and shift by shift, the start, the end,
/// the breaks and the reloads. A place that is named again keeps its index.
pub fn create_coord_index(api_problem: &ApiProblem) -> (index: CoordIndex)
    ensures
        index.coords@ == spec_add_coords(
            Seq::empty(),
            spec_problem_locations(api_problem),
            spec_problem_locations(api_problem).len() as int,
        ),
{
    let mut index = CoordIndex::new();
    let locations = problem_locations(api_problem);
    index.add_all(&locations);
    index
}

/// The module that watches the load: with reloads the vehicle may empty
/// itself at nine tenths of its capacity, at the cost of `100`.
pub open spec fn spec_capacity_module(props: ProblemProperties) -> ConstraintModule {
    if props.has_reload {
        ConstraintModule::ReloadCapacity {
            code: 2,
            cost: 100,
            threshold_tenths: 9,
            multi_dimensional: props.has_multi_dimen_capacity,
        }
    } else {
        ConstraintModule::Capacity { code: 2, multi_dimensional: props.has_multi_dimen_capacity }
    }
}

/// Adds the module that watches the load.
pub fn add_capacity_module(constraint: &mut ConstraintPipeline, props: &ProblemProperties)
    ensures
        final(constraint).modules@ == old(constraint).modules@.push(spec_capacity_module(*props)),
{
    if props.has_reload {
        constraint.add_module(
            ConstraintModule::ReloadCapacity {
                code: 2,
                cost: 100,
                threshold_tenths: 9,
                multi_dimensional: props.has_multi_dimen_capacity,
            },
        );
    } else {
        constraint.add_module(
            ConstraintModule::Capacity { code: 2, multi_dimensional: props.has_multi_dimen_capacity },
        );
    }
}

/// The modules with the one for evenly loaded tours added, if the problem
/// names an extra cost for uneven ones.
pub open spec fn spec_with_even_dist(modules: Seq<ConstraintModule>, props: ProblemProperties) -> Seq<ConstraintModule> {
    match props.even_dist {
        Some(penalty) => modules.push(
            ConstraintModule::EvenDistribution {
                penalty,
                multi_dimensional: props.has_multi_dimen_capacity,
            },
        ),
        None => modules,
    }
}

/// Adds the module for evenly loaded tours, if the problem asks for it.
pub fn add_even_dist_module(constraint: &mut ConstraintPipeline, props: &ProblemProperties)
    ensures
        final(constraint).modules@ == spec_with_even_dist(old(constraint).modules@, *props),
{
    match props.even_dist {
        Some(penalty) => {
            constraint.add_module(
                ConstraintModule::EvenDistribution {
                    penalty,
                    multi_dimensional: props.has_multi_dimen_capacity,
                },
            );
        },
        None => {},
    }
}

/// A list with one more item, if the condition holds.
pub open spec fn spec_push_if(modules: Seq<ConstraintModule>, condition: bool, module: ConstraintModule) -> Seq<ConstraintModule> {
    if condition {
        modules.push(module)
    } else {
        modules
    }
}

/// The modules of the pipeline of a problem, in their order: transport and
/// capacity always; even distribution, breaks, skills, locking, travel limits,
/// reachability and fixed cost where the problem makes use of them. A break
/// that is left out costs `-100`.
pub open spec fn spec_constraint_pipeline(props: ProblemProperties, has_locks: bool, has_limits: bool) -> Seq<ConstraintModule> {
    let start = seq![ConstraintModule::Transport { code: 1 }, spec_capacity_module(props)];
    let even = spec_with_even_dist(start, props);
    let breaks = spec_push_if(
        even,
        props.has_breaks,
        ConstraintModule::Break { code: 4, unassigned_penalty: Some(-100i64), strict: false },
    );
    let skills = spec_push_if(breaks, props.has_skills, ConstraintModule::Skills { code: 10 });
    let locking = spec_push_if(skills, has_locks, ConstraintModule::StrictLocking { code: 3 });
    let travel = spec_push_if(
        locking,
        has_limits,
        ConstraintModule::Travel { distance_code: 5, duration_code: 6 },
    );
    let reachable = spec_push_if(
        travel,
        props.has_unreachable_locations,
        ConstraintModule::Reachable { code: 11 },
    );
    spec_push_if(reachable, props.has_fixed_cost, ConstraintModule::ExtraCost)
}

/// Builds the constraint pipeline of a problem.
pub fn create_constraint_pipeline(props: &ProblemProperties, locks: &Vec<Lock>, has_limits: bool) -> (constraint:
    ConstraintPipeline)
    ensures
        constraint.modules@ == spec_constraint_pipeline(*props, locks@.len() > 0, has_limits),
{
    let mut constraint = ConstraintPipeline::new();
    constraint.add_module(ConstraintModule::Transport { code: 1 });
    add_capacity_module(&mut constraint, props);
    assert(constraint.modules@ =~= seq![
        ConstraintModule::Transport { code: 1 },
        spec_capacity_module(*props),
    ]);
    add_even_dist_module(&mut constraint, props);
    if props.has_breaks {
        constraint.add_module(
            ConstraintModule::Break { code: 4, unassigned_penalty: Some(-100), strict: false },
        );
    }
    if props.has_skills {
        constraint.add_module(ConstraintModule::Skills { code: 10 });
    }
    if !locks.is_empty() {
        constraint.add_module(ConstraintModule::StrictLocking { code: 3 });
    }
    if has_limits {
        constraint.add_module(ConstraintModule::Travel { distance_code: 5, duration_code: 6 });
    }
    if props.has_unreachable_locations {
        constraint.add_module(ConstraintModule::Reachable { code: 11 });
    }
    if props.has_fixed_cost {
        constraint.add_module(ConstraintModule::ExtraCost);
    }
    constraint
}

/// The name of the way in which a problem counts loads.
pub open spec fn spec_capacity_type(props: ProblemProperties) -> Seq<char> {
    if props.has_multi_dimen_capacity {
        "multi"@
    } else {
        "single"@
    }
}

/// Notes for those who write the solution: the identifier of the problem,
/// the way in which loads are counted, and the index of the places.
pub fn create_extras(problem_id: &String, props: &ProblemProperties, coord_index: CoordIndex) -> (extras: Extras)
    ensures
        extras.problem_id@ == problem_id@,
        extras.capacity_type@ == spec_capacity_type(*props),
        extras.coord_index == coord_index,
{
    Extras {
        problem_id: problem_id.clone(),
        capacity_type: if props.has_multi_dimen_capacity {
            "multi".to_owned()
        } else {
            "single".to_owned()
        },
        coord_index,
    }
}

/// A list of skills without repetition: the first `upto` of `skills`, each
/// where it stands first.
pub open spec fn spec_skill_set(skills: Seq<String>, upto: int) -> Seq<Seq<char>>
    decreases upto,
{
    if upto <= 0 {
        Seq::empty()
    } else {
        let before = spec_skill_set(skills, upto - 1);
        if before.contains(skills[upto - 1]@) {
            before
        } else {
            before.push(skills[upto - 1]@)
        }
    }
}

/// The texts of a list of strings.
pub open spec fn spec_texts(strings: Seq<String>) -> Seq<Seq<char>> {
    Seq::new(strings.len(), |i: int| strings[i]@)
}

/// Tells whether a list of strings holds a text.
pub fn contains_text(strings: &Vec<String>, text: &String) -> (found: bool)
    ensures
        found == spec_texts(strings@).contains(text@),
{
    let mut i: usize = 0;
    while i < strings.len()
        invariant
            i <= strings@.len(),
            forall|k: int| 0 <= k < i ==> spec_texts(strings@)[k] != text@,
        decreases strings@.len() - i,
    {
        if strings[i] == *text {
            assert(spec_texts(strings@)[i as int] == text@);
            return true;
        }
        i = i + 1;
    }
    false
}

/// Notes the skills among the properties, each skill once; properties stay
/// as they are where there are no skills to note.
pub fn add_skills(dimens: &mut Dimensions, skills: &Option<Vec<String>>)
    ensures
        final(dimens).id == old(dimens).id,
        match skills {
            Some(skills) => final(dimens).skills is Some && spec_texts(final(dimens).skills->0@)
                == spec_skill_set(skills@, skills@.len() as int),
            None => final(dimens).skills == old(dimens).skills,
        },
{
    match skills {
        Some(skills) => {
            let mut set: Vec<String> = Vec::new();
            let mut s: usize = 0;
            assert(spec_texts(set@) =~= spec_skill_set(skills@, 0));
            while s < skills.len()
                invariant
                    s <= skills@.len(),
                    spec_texts(set@) == spec_skill_set(skills@, s as int),
                decreases skills@.len() - s,
            {
                if !contains_text(&set, &skills[s]) {
                    let ghost before = spec_texts(set@);
                    set.push(skills[s].clone());
                    assert(spec_texts(set@) =~= before.push(skills@[s as int]@));
                }
                s = s + 1;
            }
            dimens.skills = Some(set);
        },
        None => {},
    }
}

/// The error of a problem with a shift that cannot be read.
pub open spec fn spec_fleet_message() -> Seq<char> {
    "cannot read a shift"@
}

/// The error of a problem with a job that cannot be read.
pub open spec fn spec_jobs_message() -> Seq<char> {
    "cannot read a job"@
}

/// The error of a problem with a break that cannot be read.
pub open spec fn spec_breaks_message() -> Seq<char> {
    "cannot read a break of a vehicle"@
}

/// The error of a problem with a relation that cannot be read.
pub open spec fn spec_relations_message() -> Seq<char> {
    "cannot read a relation"@
}

/// Something that a problem for the solver can be read from.
pub trait PragmaticProblem {
    /// Reads the problem.
    fn read_pragmatic(self) -> Result<Problem, String>;
}

impl PragmaticProblem for (ApiProblem, Vec<Matrix>) {
    /// Reads the problem from its description and its routing matrices as
    /// `map_to_problem` does.
    fn read_pragmatic(self) -> (result: Result<Problem, String>)
        ensures
            spec_mapped(&self.0, self.1, result),
    {
        map_to_problem(self.0, self.1)
    }
}

/// The index of the places of a problem.
pub open spec fn spec_coords(api_problem: &ApiProblem) -> Seq<Coordinate> {
    spec_add_coords(
        Seq::empty(),
        spec_problem_locations(api_problem),
        spec_problem_locations(api_problem).len() as int,
    )
}

/// Why a problem cannot be read, if it cannot: the first of a shift, a job,
/// a break and a relation that cannot be read decides.
pub open spec fn spec_refusal(api_problem: &ApiProblem) -> Option<Seq<char>> {
    let coords = spec_coords(api_problem);
    let types = api_problem.fleet.types@;
    if !spec_fleet_readable(coords, types) {
        Some(spec_fleet_message())
    } else if !spec_jobs_readable(coords, api_problem.plan.jobs@) {
        Some(spec_jobs_message())
    } else if !spec_breaks_readable(coords, spec_all_breaks(types)) {
        Some(spec_breaks_message())
    } else if !spec_locks_readable(
        spec_vehicle_ids(types),
        spec_drives(types, spec_origins(types, types.len() as int).len() as int),
        spec_job_names(api_problem),
        api_problem.plan.relations,
    ) {
        Some(spec_relations_message())
    } else {
        None
    }
}

/// Whether `problem` is what a problem as it is handed in and its matrices
/// give. It has the matrices as its routing oracle, one profile for each;
/// the index of the places; the fleet with one driver and for every vehicle
/// type as many vehicles as it has; the jobs of the plan in their order,
/// followed by the breaks of the vehicles; the relations as locks; the
/// pipeline that the properties of the problem ask for; and the plain
/// ranking.
pub open spec fn spec_is_problem(api_problem: &ApiProblem, matrices: Vec<Matrix>, problem: Problem) -> bool {
    let coords = spec_coords(api_problem);
    let props = spec_problem_properties(api_problem, matrices@);
    let types = api_problem.fleet.types@;
    let origins = spec_origins(types, types.len() as int);
    let planned = api_problem.plan.jobs@.len() as int;
    &&& problem.wf()
    &&& problem.transport.matrices == matrices
    &&& problem.constraint.modules@ == spec_constraint_pipeline(
        props,
        problem.locks@.len() > 0,
        spec_has_limits(api_problem),
    )
    &&& problem.objective == ObjectiveCost::spec_default()
    &&& problem.extras.problem_id@ == api_problem.id@
    &&& problem.extras.capacity_type@ == spec_capacity_type(props)
    &&& problem.extras.coord_index.coords@ == coords
    &&& problem.fleet.drivers@.len() == 1
    &&& problem.fleet.vehicles@.len() == origins.len()
    &&& forall|v: int|
        0 <= v < problem.fleet.vehicles@.len() ==> spec_is_vehicle(
            coords,
            types,
            #[trigger] problem.fleet.vehicles@[v],
            origins[v],
        )
    &&& problem.fleet.actors@ == spec_actors(1, problem.fleet.vehicles@, problem.fleet.vehicles@.len() as int)
    &&& problem.jobs@.len() >= planned
    &&& forall|j: int|
        0 <= j < planned ==> spec_is_job(coords, api_problem.plan.jobs@[j], #[trigger] problem.jobs@[j])
    &&& spec_with_breaks(coords, problem.jobs@.take(planned), spec_all_breaks(types), problem.jobs@)
    &&& spec_are_locks(
        spec_vehicle_ids(types),
        spec_drives(types, origins.len() as int),
        spec_job_names(api_problem),
        api_problem.plan.relations,
        problem.locks@,
    )
}

/// Whether `result` is what a problem as it is handed in and its matrices
/// give: the problem for the solver where every shift, job, break and
/// relation can be read, and else the error that says what cannot.
pub open spec fn spec_mapped(api_problem: &ApiProblem, matrices: Vec<Matrix>, result: Result<Problem, String>) -> bool {
    match result {
        Ok(problem) => spec_refusal(api_problem) is None && spec_is_problem(api_problem, matrices, problem),
        Err(message) => spec_refusal(api_problem) == Some(message@),
    }
}

/// The jobs of a problem go by the names that the plan and the breaks of
/// the vehicles give them.
pub proof fn lemma_job_names(api_problem: &ApiProblem, coords: Seq<Coordinate>, planned: Seq<Job>, jobs: Seq<Job>)
    requires
        planned.len() == api_problem.plan.jobs@.len(),
        forall|j: int|
            0 <= j < planned.len() ==> spec_is_job(coords, api_problem.plan.jobs@[j], #[trigger] planned[j]),
        spec_with_breaks(coords, planned, spec_all_breaks(api_problem.fleet.types@), jobs),
    ensures
        spec_names_of(jobs) == spec_job_names(api_problem),
{
    let names = spec_names_of(jobs);
    let wanted = spec_job_names(api_problem);
    let breaks = spec_all_breaks(api_problem.fleet.types@);
    assert(names.len() == wanted.len());
    assert forall|j: int| 0 <= j < names.len() implies names[j] == wanted[j] by {
        if j < planned.len() {
            assert(jobs[j] == planned[j]);
            assert(spec_is_job(coords, api_problem.plan.jobs@[j], planned[j]));
        } else {
            let b = j - planned.len();
            assert(spec_is_break_job(coords, breaks[b].1, breaks[b].0, jobs[planned.len() + b]));
        }
    }
    assert(names =~= wanted);
}

/// Maps a problem as it is handed in, with its routing matrices, to the
/// problem that the solver works on.
pub fn map_to_problem(api_problem: ApiProblem, matrices: Vec<Matrix>) -> (result: Result<Problem, String>)
    ensures
        spec_mapped(&api_problem, matrices, result),
{
    let ghost types = api_problem.fleet.types@;
    let ghost origins = spec_origins(types, types.len() as int);
    let problem_props = get_problem_properties(&api_problem, &matrices);
    let coord_index = create_coord_index(&api_problem);
    let ghost coords = coord_index.coords@;
    let fleet = match read_fleet(&api_problem, &coord_index) {
        Some(fleet) => fleet,
        None => {
            return Err("cannot read a shift".to_owned());
        },
    };
    let mut jobs = match read_jobs(&api_problem, &coord_index) {
        Some(jobs) => jobs,
        None => {
            return Err("cannot read a job".to_owned());
        },
    };
    let ghost planned = jobs@;
    let vehicles: usize = fleet.vehicles.len();
    if !read_breaks(&api_problem, &coord_index, &mut jobs) {
        return Err("cannot read a break of a vehicle".to_owned());
    }
    proof {
        assert(spec_ids_of(fleet.vehicles@) =~= spec_vehicle_ids(types));
        lemma_drives(types, fleet.vehicles@, vehicles as int);
        assert(spec_drives_of(fleet.actors@) == spec_drives(types, origins.len() as int));
        lemma_job_names(&api_problem, coords, planned, jobs@);
        assert(jobs@.take(planned.len() as int) =~= planned);
    }
    let locks = match read_locks(&api_problem, &fleet, &jobs) {
        Some(locks) => locks,
        None => {
            return Err("cannot read a relation".to_owned());
        },
    };
    proof {
        if api_problem.plan.relations is Some {
            let relations = api_problem.plan.relations->0@;
            assert forall|r: int| 0 <= r < relations.len() implies spec_lock_plan(
                spec_vehicle_ids(types),
                spec_drives(types, origins.len() as int),
                spec_job_names(&api_problem),
                #[trigger] relations[r],
            ) is Some by {
                assert(spec_lock_plan(
                    spec_vehicle_ids(types),
                    spec_drives(types, origins.len() as int),
                    spec_job_names(&api_problem),
                    relations[r],
                ) == Some(locks@[r]@));
            }
        }
    }
    let has_limits = read_limits(&api_problem);
    let extras = create_extras(&api_problem.id, &problem_props, coord_index);
    let constraint = create_constraint_pipeline(&problem_props, &locks, has_limits);
    let transport = create_transport_costs(matrices);
    Ok(
        Problem {
            fleet,
            jobs,
            locks,
            constraint,
            transport,
            objective: ObjectiveCost::default(),
            extras,
        },
    )
}

} // verus!
