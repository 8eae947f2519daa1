//! The relations of a plan as locks of the solver.

use vstd::prelude::*;
use crate::format::api::{JobVariant, Relation, RelationType, VehicleType};
use crate::format::break_reader::spec_all_breaks;
use crate::format::fleet_reader::spec_origins;
use crate::format::ids::spec_vehicle_id;
use crate::format::reader::ApiProblem;
use crate::models::problem::{spec_actors, spec_detail_actors, spec_vehicle_actors};
use crate::models::problem::{Actor, Fleet, Job, JobKind, Lock, LockOrder, LockView, Vehicle, VehicleDetail};
use crate::utils::search::{lemma_first, spec_first};

verus! {

/// How a relation holds its jobs.
pub open spec fn spec_order(kind: RelationType) -> LockOrder {
    match kind {
        RelationType::Tour => LockOrder::Any,
        RelationType::Flexible => LockOrder::Sequence,
        RelationType::Sequence => LockOrder::Strict,
    }
}

/// What a relation tells a job by: its identifier, whether it is a break,
/// and the vehicle that it is bound to.
pub struct JobName {
    pub id: Option<Seq<char>>,
    pub pause: bool,
    pub vehicle: Option<usize>,
}

/// What a relation tells a job of the solver by.
pub open spec fn spec_job_name(job: Job) -> JobName {
    JobName {
        id: match job.dimens.id {
            Some(id) => Some(id@),
            None => None,
        },
        pause: job.kind is Break,
        vehicle: job.vehicle,
    }
}

/// What a relation tells each of the jobs by.
pub open spec fn spec_names_of(jobs: Seq<Job>) -> Seq<JobName> {
    Seq::new(jobs.len(), |j: int| spec_job_name(jobs[j]))
}

/// The identifier of each of the vehicles.
pub open spec fn spec_ids_of(vehicles: Seq<Vehicle>) -> Seq<Option<Seq<char>>> {
    Seq::new(
        vehicles.len(),
        |v: int|
            match vehicles[v].dimens.id {
                Some(id) => Some(id@),
                None => None,
            },
    )
}

/// The vehicle of each of the actors.
pub open spec fn spec_drives_of(actors: Seq<Actor>) -> Seq<usize> {
    Seq::new(actors.len(), |a: int| actors[a].vehicle)
}

/// Whether a relation of the vehicle at `vehicle` means a job by `name`:
/// the break of the vehicle for the name `break`, and else the job with that
/// identifier that is bound to no vehicle.
pub open spec fn spec_means(job: JobName, vehicle: usize, name: Seq<char>) -> bool {
    &&& job.id == Some(name)
    &&& if name == "break"@ {
        job.pause && job.vehicle == Some(vehicle)
    } else {
        job.vehicle is None
    }
}

/// For each job, whether a relation of the vehicle means it by `name`.
pub open spec fn spec_job_hits(names: Seq<JobName>, vehicle: usize, name: Seq<char>) -> Seq<bool> {
    Seq::new(names.len(), |j: int| spec_means(names[j], vehicle, name))
}

/// For each vehicle, whether it has the identifier.
pub open spec fn spec_id_hits(ids: Seq<Option<Seq<char>>>, id: Seq<char>) -> Seq<bool> {
    Seq::new(ids.len(), |v: int| ids[v] == Some(id))
}

/// For each actor, whether it drives the vehicle.
pub open spec fn spec_vehicle_hits(drives: Seq<usize>, vehicle: usize) -> Seq<bool> {
    Seq::new(drives.len(), |a: int| drives[a] == vehicle)
}

/// The jobs that the first `upto` names of a relation of a vehicle mean, in
/// their order: for each name the first job that it means. The names
/// `departure` and `arrival` stand for no job and are passed over. There is
/// no result where a name means no job.
pub open spec fn spec_lock_jobs(names: Seq<JobName>, vehicle: usize, wanted: Seq<String>, upto: int) -> Option<
    Seq<usize>,
>
    decreases upto,
{
    if upto <= 0 {
        Some(Seq::empty())
    } else {
        match spec_lock_jobs(names, vehicle, wanted, upto - 1) {
            Some(found) => if wanted[upto - 1]@ == "departure"@ || wanted[upto - 1]@ == "arrival"@ {
                Some(found)
            } else {
                match spec_first(spec_job_hits(names, vehicle, wanted[upto - 1]@), names.len() as int) {
                    Some(job) => Some(found.push(job)),
                    None => None,
                }
            },
            None => None,
        }
    }
}

/// The lock that a relation stands for, in a fleet whose vehicles have the
/// identifiers `ids` and whose actors drive the vehicles `drives`, with jobs
/// that go by `names`: the first actor of the first vehicle with the
/// identifier of the relation, and the jobs that the relation names. There
/// is no lock where no vehicle has the identifier, no actor drives the
/// vehicle, or a name means no job.
pub open spec fn spec_lock_plan(
    ids: Seq<Option<Seq<char>>>,
    drives: Seq<usize>,
    names: Seq<JobName>,
    relation: Relation,
) -> Option<LockView> {
    match spec_first(spec_id_hits(ids, relation.vehicle_id@), ids.len() as int) {
        Some(vehicle) => match spec_first(spec_vehicle_hits(drives, vehicle), drives.len() as int) {
            Some(actor) => match spec_lock_jobs(names, vehicle, relation.jobs@, relation.jobs@.len() as int) {
                Some(jobs) => Some(LockView { actor, order: spec_order(relation.type_field), jobs }),
                None => None,
            },
            None => None,
        },
        None => None,
    }
}

/// Whether every relation stands for a lock.
pub open spec fn spec_locks_readable(
    ids: Seq<Option<Seq<char>>>,
    drives: Seq<usize>,
    names: Seq<JobName>,
    relations: Option<Vec<Relation>>,
) -> bool {
    match relations {
        Some(relations) => forall|r: int|
            0 <= r < relations@.len() ==> spec_lock_plan(ids, drives, names, #[trigger] relations@[r]) is Some,
        None => true,
    }
}

/// Whether the locks are those that the relations stand for, in their
/// order.
pub open spec fn spec_are_locks(
    ids: Seq<Option<Seq<char>>>,
    drives: Seq<usize>,
    names: Seq<JobName>,
    relations: Option<Vec<Relation>>,
    locks: Seq<Lock>,
) -> bool {
    match relations {
        Some(relations) => locks.len() == relations@.len() && forall|r: int|
            0 <= r < locks.len() ==> spec_lock_plan(ids, drives, names, relations@[r]) == Some(
                (#[trigger] locks[r])@,
            ),
        None => locks.len() == 0,
    }
}

/// The identifiers of the vehicles that vehicle types bring.
pub open spec fn spec_vehicle_ids(types: Seq<VehicleType>) -> Seq<Option<Seq<char>>> {
    Seq::new(
        spec_origins(types, types.len() as int).len(),
        |v: int|
            Some(
                spec_vehicle_id(
                    types[spec_origins(types, types.len() as int)[v].0].id@,
                    spec_origins(types, types.len() as int)[v].1 as nat,
                ),
            ),
    )
}

/// One vehicle as many times as it has shifts.
pub open spec fn spec_shift_drives(vehicle: usize, shifts: nat) -> Seq<usize> {
    Seq::new(shifts, |s: int| vehicle)
}

/// The vehicle of each actor of the first `upto` vehicles that vehicle
/// types bring, with one driver: every vehicle has an actor for each of its
/// shifts.
pub open spec fn spec_drives(types: Seq<VehicleType>, upto: int) -> Seq<usize>
    decreases upto,
{
    if upto <= 0 {
        Seq::empty()
    } else {
        spec_drives(types, upto - 1) + spec_shift_drives(
            (upto - 1) as usize,
            types[spec_origins(types, types.len() as int)[upto - 1].0].shifts@.len(),
        )
    }
}

/// What a relation tells a job of the plan by.
pub open spec fn spec_plan_name(job: JobVariant) -> JobName {
    JobName {
        id: Some(
            match job {
                JobVariant::Single(job) => job.id@,
                JobVariant::Multi(job) => job.id@,
            },
        ),
        pause: false,
        vehicle: None,
    }
}

/// What a relation tells a break of the vehicle at `vehicle` by.
pub open spec fn spec_break_name(vehicle: usize) -> JobName {
    JobName { id: Some("break"@), pause: true, vehicle: Some(vehicle) }
}

/// What a relation tells the jobs of the plan by.
pub open spec fn spec_plan_names(jobs: Seq<JobVariant>) -> Seq<JobName> {
    Seq::new(jobs.len(), |j: int| spec_plan_name(jobs[j]))
}

/// What a relation tells the breaks of the vehicles by.
pub open spec fn spec_break_names(types: Seq<VehicleType>) -> Seq<JobName> {
    Seq::new(spec_all_breaks(types).len(), |b: int| spec_break_name(spec_all_breaks(types)[b].0))
}

/// What a relation tells the jobs of a problem by: the jobs of the plan,
/// followed by the breaks of the vehicles.
pub open spec fn spec_job_names(api_problem: &ApiProblem) -> Seq<JobName> {
    spec_plan_names(api_problem.plan.jobs@) + spec_break_names(api_problem.fleet.types@)
}

/// With one driver, a vehicle has one actor for each of its shifts.
pub proof fn lemma_vehicle_drives(vehicle: usize, details: Seq<VehicleDetail>, upto: int)
    requires
        0 <= upto <= details.len(),
    ensures
        spec_drives_of(spec_vehicle_actors(1, vehicle, details, upto)) == spec_shift_drives(vehicle, upto as nat),
    decreases upto,
{
    reveal_with_fuel(spec_detail_actors, 2);
    if upto > 0 {
        lemma_vehicle_drives(vehicle, details, upto - 1);
        let before = spec_vehicle_actors(1, vehicle, details, upto - 1);
        let one = spec_detail_actors(vehicle, details[upto - 1], 1);
        assert(one.len() == 1);
        assert(one[0].vehicle == vehicle);
        assert(spec_drives_of(before + one) =~= spec_drives_of(before).push(vehicle));
    }
    assert(spec_drives_of(spec_vehicle_actors(1, vehicle, details, upto)) =~= spec_shift_drives(
        vehicle,
        upto as nat,
    ));
}

/// The actors of vehicles that have as many shifts as their types drive the
/// vehicles that the types say.
pub proof fn lemma_drives(types: Seq<VehicleType>, vehicles: Seq<Vehicle>, upto: int)
    requires
        0 <= upto <= vehicles.len(),
        forall|v: int|
            0 <= v < upto ==> (#[trigger] vehicles[v]).details@.len() == types[spec_origins(
                types,
                types.len() as int,
            )[v].0].shifts@.len(),
    ensures
        spec_drives_of(spec_actors(1, vehicles, upto)) == spec_drives(types, upto),
    decreases upto,
{
    if upto > 0 {
        lemma_drives(types, vehicles, upto - 1);
        let details = vehicles[upto - 1].details@;
        lemma_vehicle_drives((upto - 1) as usize, details, details.len() as int);
        let before = spec_actors(1, vehicles, upto - 1);
        let own = spec_vehicle_actors(1, (upto - 1) as usize, details, details.len() as int);
        assert(spec_drives_of(before + own) =~= spec_drives_of(before) + spec_drives_of(own));
    }
    assert(spec_drives_of(spec_actors(1, vehicles, upto)) =~= spec_drives(types, upto));
}

/// Names that mean no jobs still mean none when more names follow.
pub proof fn lemma_lock_jobs_fail(names: Seq<JobName>, vehicle: usize, wanted: Seq<String>, upto: int, more: int)
    requires
        0 <= upto <= more,
        spec_lock_jobs(names, vehicle, wanted, upto) is None,
    ensures
        spec_lock_jobs(names, vehicle, wanted, more) is None,
    decreases more - upto,
{
    if upto < more {
        lemma_lock_jobs_fail(names, vehicle, wanted, upto, more - 1);
    }
}

/// The position of the first vehicle with the given identifier.
pub fn find_vehicle(fleet: &Fleet, id: &String) -> (found: Option<usize>)
    ensures
        found == spec_first(spec_id_hits(spec_ids_of(fleet.vehicles@), id@), fleet.vehicles@.len() as int),
        found is Some ==> found->0 < fleet.vehicles@.len(),
{
    let ghost hits = spec_id_hits(spec_ids_of(fleet.vehicles@), id@);
    let total: usize = fleet.vehicles.len();
    let mut v: usize = 0;
    while v < total
        invariant
            v <= total,
            total == fleet.vehicles@.len(),
            hits == spec_id_hits(spec_ids_of(fleet.vehicles@), id@),
            forall|k: int| 0 <= k < v ==> !hits[k],
        decreases total - v,
    {
        let same: bool = match &fleet.vehicles[v].dimens.id {
            Some(own) => *own == *id,
            None => false,
        };
        assert(same == hits[v as int]);
        if same {
            proof {
                lemma_first(hits, total as int);
            }
            return Some(v);
        }
        v = v + 1;
    }
    proof {
        lemma_first(hits, total as int);
    }
    None
}

/// The position of the first actor that drives the vehicle at `vehicle`.
pub fn find_actor(fleet: &Fleet, vehicle: usize) -> (found: Option<usize>)
    ensures
        found == spec_first(
            spec_vehicle_hits(spec_drives_of(fleet.actors@), vehicle),
            fleet.actors@.len() as int,
        ),
        found is Some ==> found->0 < fleet.actors@.len(),
{
    let ghost hits = spec_vehicle_hits(spec_drives_of(fleet.actors@), vehicle);
    let total: usize = fleet.actors.len();
    let mut a: usize = 0;
    while a < total
        invariant
            a <= total,
            total == fleet.actors@.len(),
            hits == spec_vehicle_hits(spec_drives_of(fleet.actors@), vehicle),
            forall|k: int| 0 <= k < a ==> !hits[k],
        decreases total - a,
    {
        let same: bool = fleet.actors[a].vehicle == vehicle;
        assert(same == hits[a as int]);
        if same {
            proof {
                lemma_first(hits, total as int);
            }
            return Some(a);
        }
        a = a + 1;
    }
    proof {
        lemma_first(hits, total as int);
    }
    None
}

/// The position of the first job that a relation of the vehicle at
/// `vehicle` means by `name`.
pub fn find_job(jobs: &Vec<Job>, vehicle: usize, name: &String) -> (found: Option<usize>)
    ensures
        found == spec_first(spec_job_hits(spec_names_of(jobs@), vehicle, name@), jobs@.len() as int),
        found is Some ==> found->0 < jobs@.len(),
{
    let ghost hits = spec_job_hits(spec_names_of(jobs@), vehicle, name@);
    let total: usize = jobs.len();
    let pause_name: String = "break".to_owned();
    let is_break: bool = *name == pause_name;
    let mut j: usize = 0;
    while j < total
        invariant
            j <= total,
            total == jobs@.len(),
            is_break == (name@ == "break"@),
            hits == spec_job_hits(spec_names_of(jobs@), vehicle, name@),
            forall|k: int| 0 <= k < j ==> !hits[k],
        decreases total - j,
    {
        let same: bool = match &jobs[j].dimens.id {
            Some(own) => *own == *name,
            None => false,
        };
        let meant: bool = if !same {
            false
        } else if is_break {
            let bound: bool = match jobs[j].vehicle {
                Some(owner) => owner == vehicle,
                None => false,
            };
            let pause: bool = match jobs[j].kind {
                JobKind::Break => true,
                _ => false,
            };
            bound && pause
        } else {
            jobs[j].vehicle.is_none()
        };
        assert(meant == hits[j as int]);
        if meant {
            proof {
                lemma_first(hits, total as int);
            }
            return Some(j);
        }
        j = j + 1;
    }
    proof {
        lemma_first(hits, total as int);
    }
    None
}

/// Reads a relation as a lock: the first actor of the vehicle that the
/// relation names, and the jobs that it names, in their order; the names
/// `departure` and `arrival` stand for no job and are passed over. There is
/// no lock where the vehicle is not in the fleet, has no actor, or a job
/// that is named is not among the jobs.
pub fn read_lock(relation: &Relation, fleet: &Fleet, jobs: &Vec<Job>) -> (result: Option<Lock>)
    ensures
        match result {
            Some(lock) => {
                &&& spec_lock_plan(
                    spec_ids_of(fleet.vehicles@),
                    spec_drives_of(fleet.actors@),
                    spec_names_of(jobs@),
                    *relation,
                ) == Some(lock@)
                &&& lock.actor < fleet.actors@.len()
                &&& forall|k: int| 0 <= k < lock.jobs@.len() ==> (#[trigger] lock.jobs@[k]) < jobs@.len()
            },
            None => spec_lock_plan(
                spec_ids_of(fleet.vehicles@),
                spec_drives_of(fleet.actors@),
                spec_names_of(jobs@),
                *relation,
            ) is None,
        },
{
    let ghost names = spec_names_of(jobs@);
    let vehicle = match find_vehicle(fleet, &relation.vehicle_id) {
        Some(vehicle) => vehicle,
        None => {
            return None;
        },
    };
    let actor = match find_actor(fleet, vehicle) {
        Some(actor) => actor,
        None => {
            return None;
        },
    };
    let departure: String = "departure".to_owned();
    let arrival: String = "arrival".to_owned();
    let mut found: Vec<usize> = Vec::new();
    let mut n: usize = 0;
    while n < relation.jobs.len()
        invariant
            n <= relation.jobs@.len(),
            names == spec_names_of(jobs@),
            departure@ == "departure"@,
            arrival@ == "arrival"@,
            spec_first(
                spec_id_hits(spec_ids_of(fleet.vehicles@), relation.vehicle_id@),
                fleet.vehicles@.len() as int,
            ) == Some(vehicle),
            spec_first(
                spec_vehicle_hits(spec_drives_of(fleet.actors@), vehicle),
                fleet.actors@.len() as int,
            ) == Some(actor),
            spec_lock_jobs(names, vehicle, relation.jobs@, n as int) == Some(found@),
            forall|k: int| 0 <= k < found@.len() ==> (#[trigger] found@[k]) < jobs@.len(),
        decreases relation.jobs@.len() - n,
    {
        let name = &relation.jobs[n];
        if *name == departure || *name == arrival {
        } else {
            match find_job(jobs, vehicle, name) {
                Some(job) => {
                    found.push(job);
                },
                None => {
                    proof {
                        assert(spec_lock_jobs(names, vehicle, relation.jobs@, n as int + 1) is None);
                        lemma_lock_jobs_fail(
                            names,
                            vehicle,
                            relation.jobs@,
                            n as int + 1,
                            relation.jobs@.len() as int,
                        );
                    }
                    return None;
                },
            }
        }
        n = n + 1;
    }
    let order = match relation.type_field {
        RelationType::Tour => LockOrder::Any,
        RelationType::Flexible => LockOrder::Sequence,
        RelationType::Sequence => LockOrder::Strict,
    };
    Some(Lock { actor, order, jobs: found })
}

/// Reads the relations of the plan as locks, in their order; there is no
/// result where one of them stands for no lock.
pub fn read_locks(api_problem: &ApiProblem, fleet: &Fleet, jobs: &Vec<Job>) -> (result: Option<Vec<Lock>>)
    ensures
        match result {
            Some(locks) => {
                &&& spec_are_locks(
                    spec_ids_of(fleet.vehicles@),
                    spec_drives_of(fleet.actors@),
                    spec_names_of(jobs@),
                    api_problem.plan.relations,
                    locks@,
                )
                &&& forall|l: int| 0 <= l < locks@.len() ==> (#[trigger] locks@[l]).actor < fleet.actors@.len()
                &&& forall|l: int, k: int|
                    0 <= l < locks@.len() && 0 <= k < locks@[l].jobs@.len() ==> (
                    #[trigger] locks@[l].jobs@[k]) < jobs@.len()
            },
            None => !spec_locks_readable(
                spec_ids_of(fleet.vehicles@),
                spec_drives_of(fleet.actors@),
                spec_names_of(jobs@),
                api_problem.plan.relations,
            ),
        },
{
    let ghost ids = spec_ids_of(fleet.vehicles@);
    let ghost drives = spec_drives_of(fleet.actors@);
    let ghost names = spec_names_of(jobs@);
    let mut locks: Vec<Lock> = Vec::new();
    match &api_problem.plan.relations {
        Some(relations) => {
            let mut r: usize = 0;
            while r < relations.len()
                invariant
                    r <= relations@.len(),
                    api_problem.plan.relations == Some(*relations),
                    ids == spec_ids_of(fleet.vehicles@),
                    drives == spec_drives_of(fleet.actors@),
                    names == spec_names_of(jobs@),
                    locks@.len() == r,
                    forall|l: int|
                        0 <= l < locks@.len() ==> spec_lock_plan(ids, drives, names, relations@[l]) == Some(
                            (#[trigger] locks@[l])@,
                        ),
                    forall|l: int| 0 <= l < locks@.len() ==> (#[trigger] locks@[l]).actor < fleet.actors@.len(),
                    forall|l: int, k: int|
                        0 <= l < locks@.len() && 0 <= k < locks@[l].jobs@.len() ==> (
                        #[trigger] locks@[l].jobs@[k]) < jobs@.len(),
                decreases relations@.len() - r,
            {
                match read_lock(&relations[r], fleet, jobs) {
                    Some(lock) => {
                        locks.push(lock);
                    },
                    None => {
                        assert(spec_lock_plan(ids, drives, names, relations@[r as int]) is None);
                        return None;
                    },
                }
                r = r + 1;
            }
        },
        None => {},
    }
    Some(locks)
}

} // verus!
