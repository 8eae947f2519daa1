use vrp_solver::construction::constraints::{ConstraintModule, ConstraintPipeline};
use vrp_solver::format::api::{
    Config, Coordinate, EvenDistribution, Features, Fleet, Job, JobPlace, JobPlaces, JobVariant, MultiJob,
    MultiJobPlace, MultiJobPlaces, Plan, Problem, Relation, RelationType, VehicleBreak, VehicleCosts,
    VehicleLimits, VehiclePlace, VehicleReload, VehicleShift, VehicleType,
};
use vrp_solver::format::coord_index::CoordIndex;
use vrp_solver::format::fleet_reader::{read_costs, read_fleet, read_limits, read_profiles, text_position};
use vrp_solver::format::ids::vehicle_id;
use vrp_solver::format::break_reader::read_breaks;
use vrp_solver::format::job_reader::{read_jobs, read_window};
use vrp_solver::format::lock_reader::{find_actor, find_job, find_vehicle};
use vrp_solver::format::reader::{
    add_capacity_module, add_even_dist_module, add_skills, create_constraint_pipeline, create_coord_index,
    create_extras, get_problem_properties, map_to_problem, matrix_errors, PragmaticProblem, ProblemProperties,
};
use vrp_solver::format::time::{parse_time, parse_time_window, try_parse_time, try_parse_time_window};
use vrp_solver::models::problem::{Dimensions, JobKind, Lock, LockOrder, Matrix};

fn place(x: u64, y: u64) -> Coordinate {
    Coordinate { lat: x, lng: y }
}

fn delivery(id: &str, location: Coordinate) -> JobVariant {
    JobVariant::Single(Job {
        id: id.to_string(),
        places: JobPlaces {
            pickup: None,
            delivery: Some(JobPlace { location, duration: 3, times: None }),
        },
        demand: vec![1],
        skills: None,
    })
}

fn shift(start: Coordinate) -> VehicleShift {
    VehicleShift {
        start: VehiclePlace { time: "1970-01-01T00:00:10Z".to_string(), location: start },
        end: None,
        breaks: None,
        reloads: None,
    }
}

fn vehicle(id: &str, start: Coordinate) -> VehicleType {
    VehicleType {
        id: id.to_string(),
        profile: "car".to_string(),
        costs: VehicleCosts { fixed: None, distance: 2, time: 3 },
        shifts: vec![shift(start)],
        capacity: vec![10],
        amount: 1,
        skills: None,
        limits: None,
    }
}

fn problem(jobs: Vec<JobVariant>, types: Vec<VehicleType>) -> Problem {
    Problem { id: "p".to_string(), plan: Plan { jobs, relations: None }, fleet: Fleet { types }, config: None }
}

fn matrix(size: usize, error_codes: Option<Vec<i64>>) -> Matrix {
    Matrix {
        num_origins: size,
        num_destinations: size,
        travel_times: vec![1; size * size],
        distances: vec![1; size * size],
        error_codes,
    }
}

fn flags(props: &ProblemProperties) -> (bool, bool, bool, bool, bool, bool, Option<u64>) {
    (
        props.has_multi_dimen_capacity,
        props.has_breaks,
        props.has_skills,
        props.has_unreachable_locations,
        props.has_fixed_cost,
        props.has_reload,
        props.even_dist,
    )
}

fn plain() -> ProblemProperties {
    ProblemProperties {
        has_multi_dimen_capacity: false,
        has_breaks: false,
        has_skills: false,
        has_unreachable_locations: false,
        has_fixed_cost: false,
        has_reload: false,
        even_dist: None,
    }
}

fn names(pipeline: &ConstraintPipeline) -> Vec<String> {
    pipeline.modules.iter().map(|module| format!("{:?}", module)).collect()
}

#[test]
fn a_plain_problem_has_no_properties() {
    let api_problem = problem(vec![delivery("a", place(1, 0))], vec![vehicle("v", place(0, 0))]);
    let props = get_problem_properties(&api_problem, &vec![matrix(2, None)]);
    assert_eq!(flags(&props), (false, false, false, false, false, false, None));
}

#[test]
fn properties_are_found_wherever_they_stand() {
    let mut second = vehicle("w", place(0, 0));
    second.costs.fixed = Some(7);
    second.shifts.push(VehicleShift {
        breaks: Some(vec![VehicleBreak { times: vec![], duration: 1, location: None }]),
        reloads: Some(vec![VehicleReload { times: None, location: place(5, 5), duration: 2 }]),
        ..shift(place(0, 0))
    });
    let skilled = JobVariant::Multi(MultiJob {
        id: "m".to_string(),
        places: MultiJobPlaces {
            pickups: vec![MultiJobPlace { location: place(1, 1), duration: 1, times: None, demand: vec![1] }],
            deliveries: vec![MultiJobPlace { location: place(2, 2), duration: 1, times: None, demand: vec![1, 2] }],
        },
        skills: Some(vec!["fridge".to_string()]),
    });
    let mut api_problem = problem(vec![delivery("a", place(1, 0)), skilled], vec![vehicle("v", place(0, 0)), second]);
    api_problem.config = Some(Config {
        features: Some(Features {
            even_distribution: Some(EvenDistribution { enabled: true, extra_cost: Some(9) }),
        }),
    });
    let props = get_problem_properties(&api_problem, &vec![matrix(2, None), matrix(2, Some(vec![0; 4]))]);
    assert_eq!(flags(&props), (true, true, true, true, true, true, Some(9)));
}

#[test]
fn empty_lists_of_breaks_and_reloads_do_not_count() {
    let mut kind = vehicle("v", place(0, 0));
    kind.shifts[0].breaks = Some(vec![]);
    kind.shifts[0].reloads = Some(vec![]);
    kind.capacity = vec![1, 2];
    let mut api_problem = problem(vec![], vec![kind]);
    api_problem.config = Some(Config { features: Some(Features { even_distribution: None }) });
    let props = get_problem_properties(&api_problem, &vec![]);
    assert_eq!(flags(&props), (true, false, false, false, false, false, None));
}

#[test]
fn places_are_indexed_in_the_order_of_the_plan_and_then_the_fleet() {
    let both = JobVariant::Single(Job {
        id: "b".to_string(),
        places: JobPlaces {
            pickup: Some(JobPlace { location: place(7, 0), duration: 1, times: None }),
            delivery: Some(JobPlace { location: place(1, 0), duration: 1, times: None }),
        },
        demand: vec![1],
        skills: None,
    });
    let multi = JobVariant::Multi(MultiJob {
        id: "m".to_string(),
        places: MultiJobPlaces {
            pickups: vec![MultiJobPlace { location: place(8, 0), duration: 1, times: None, demand: vec![1] }],
            deliveries: vec![MultiJobPlace { location: place(7, 0), duration: 1, times: None, demand: vec![1] }],
        },
        skills: None,
    });
    let mut kind = vehicle("v", place(0, 0));
    kind.shifts[0].end = Some(VehiclePlace { time: "1970-01-01T00:00:10Z".to_string(), location: place(9, 0) });
    kind.shifts[0].breaks = Some(vec![
        VehicleBreak { times: vec![], duration: 1, location: None },
        VehicleBreak { times: vec![], duration: 1, location: Some(place(3, 0)) },
    ]);
    kind.shifts[0].reloads = Some(vec![VehicleReload { times: None, location: place(1, 0), duration: 2 }]);
    let api_problem = problem(vec![delivery("a", place(1, 0)), both, multi], vec![kind]);
    let index = create_coord_index(&api_problem);
    let coords: Vec<(u64, u64)> = index.coords.iter().map(|c| (c.lat, c.lng)).collect();
    assert_eq!(coords, vec![(1, 0), (7, 0), (8, 0), (0, 0), (9, 0), (3, 0)]);
    assert_eq!(index.get_by_loc(&place(8, 0)), Some(2));
    assert_eq!(index.get_by_loc(&place(4, 4)), None);
    assert_eq!(index.get_by_idx(5).map(|c| c.lat), Some(3));
    assert!(index.get_by_idx(6).is_none());
}

#[test]
fn a_place_is_added_to_the_index_once() {
    let mut index = CoordIndex::new();
    index.add(&place(1, 2));
    index.add(&place(2, 1));
    index.add(&place(1, 2));
    assert_eq!(index.coords.len(), 2);
    assert_eq!(index.get_by_loc(&place(2, 1)), Some(1));
    index.add_all(&vec![place(2, 1), place(3, 3)]);
    assert_eq!(index.coords.len(), 3);
}

#[test]
fn the_pipeline_of_a_plain_problem_watches_transport_and_capacity() {
    let pipeline = create_constraint_pipeline(&plain(), &vec![], false);
    assert_eq!(
        names(&pipeline),
        vec!["Transport { code: 1 }", "Capacity { code: 2, multi_dimensional: false }"]
    );
}

#[test]
fn the_pipeline_holds_every_module_that_the_problem_asks_for_in_order() {
    let props = ProblemProperties {
        has_multi_dimen_capacity: true,
        has_breaks: true,
        has_skills: true,
        has_unreachable_locations: true,
        has_fixed_cost: true,
        has_reload: true,
        even_dist: Some(5),
    };
    let locks = vec![Lock { actor: 0, order: LockOrder::Any, jobs: vec![] }];
    let pipeline = create_constraint_pipeline(&props, &locks, true);
    assert_eq!(
        names(&pipeline),
        vec![
            "Transport { code: 1 }",
            "ReloadCapacity { code: 2, cost: 100, threshold_tenths: 9, multi_dimensional: true }",
            "EvenDistribution { penalty: 5, multi_dimensional: true }",
            "Break { code: 4, unassigned_penalty: Some(-100), strict: false }",
            "Skills { code: 10 }",
            "StrictLocking { code: 3 }",
            "Travel { distance_code: 5, duration_code: 6 }",
            "Reachable { code: 11 }",
            "ExtraCost",
        ]
    );
}

#[test]
fn capacity_and_even_distribution_modules_follow_the_properties() {
    let mut pipeline = ConstraintPipeline::new();
    add_even_dist_module(&mut pipeline, &plain());
    assert!(pipeline.modules.is_empty());
    add_capacity_module(&mut pipeline, &ProblemProperties { has_multi_dimen_capacity: true, ..plain() });
    add_capacity_module(&mut pipeline, &ProblemProperties { has_reload: true, ..plain() });
    add_even_dist_module(&mut pipeline, &ProblemProperties { even_dist: Some(3), ..plain() });
    assert_eq!(
        names(&pipeline),
        vec![
            "Capacity { code: 2, multi_dimensional: true }",
            "ReloadCapacity { code: 2, cost: 100, threshold_tenths: 9, multi_dimensional: false }",
            "EvenDistribution { penalty: 3, multi_dimensional: false }",
        ]
    );
    assert!(matches!(pipeline.modules[0], ConstraintModule::Capacity { code: 2, multi_dimensional: true }));
}

#[test]
fn extras_note_the_problem_and_its_way_of_counting_loads() {
    let mut index = CoordIndex::new();
    index.add(&place(1, 1));
    let extras = create_extras(&"my".to_string(), &plain(), index);
    assert_eq!(extras.problem_id, "my");
    assert_eq!(extras.capacity_type, "single");
    assert_eq!(extras.coord_index.coords.len(), 1);
    let multi = ProblemProperties { has_multi_dimen_capacity: true, ..plain() };
    assert_eq!(create_extras(&"my".to_string(), &multi, CoordIndex::new()).capacity_type, "multi");
}

#[test]
fn times_are_read_as_seconds_since_the_epoch() {
    assert_eq!(try_parse_time(&"1970-01-01T00:00:01Z".to_string()), Some(1));
    assert_eq!(try_parse_time(&"1970-01-01T01:00:00+01:00".to_string()), Some(0));
    assert_eq!(try_parse_time(&"2020-07-04T12:30:15Z".to_string()), Some(1593865815));
    assert_eq!(try_parse_time(&"1969-12-31T23:59:59Z".to_string()), Some(-1));
    assert_eq!(try_parse_time(&"yesterday".to_string()), None);
    assert_eq!(try_parse_time(&"".to_string()), None);
    assert_eq!(parse_time(&"1970-01-01T00:16:40Z".to_string()), 1000);
}

#[test]
fn a_time_window_is_a_pair_of_times() {
    let window = vec!["1970-01-01T00:00:05Z".to_string(), "1970-01-01T00:01:00Z".to_string()];
    let read = parse_time_window(&window);
    assert_eq!((read.start, read.end), (5, 60));
    assert_eq!(try_parse_time_window(&window).map(|w| (w.start, w.end)), Some((5, 60)));
    assert!(try_parse_time_window(&vec!["1970-01-01T00:00:05Z".to_string()]).is_none());
    assert!(try_parse_time_window(&vec![]).is_none());
    assert!(try_parse_time_window(&vec!["1970-01-01T00:00:05Z".to_string(), "later".to_string()]).is_none());
    let three = vec![window[0].clone(), window[1].clone(), window[1].clone()];
    assert!(try_parse_time_window(&three).is_none());
}

#[test]
fn the_first_window_of_a_visit_counts() {
    assert_eq!(read_window(&None).map(|w| (w.start, w.end)), Some((0, i64::MAX)));
    assert_eq!(read_window(&Some(vec![])).map(|w| (w.start, w.end)), Some((0, i64::MAX)));
    let windows = vec![
        vec!["1970-01-01T00:00:05Z".to_string(), "1970-01-01T00:01:00Z".to_string()],
        vec!["broken".to_string()],
    ];
    assert_eq!(read_window(&Some(windows)).map(|w| (w.start, w.end)), Some((5, 60)));
    assert!(read_window(&Some(vec![vec!["broken".to_string()]])).is_none());
}

#[test]
fn skills_are_noted_once_each() {
    let mut dimens = Dimensions::new();
    dimens.set_id("v");
    add_skills(&mut dimens, &None);
    assert!(dimens.skills.is_none());
    add_skills(&mut dimens, &Some(vec!["a".to_string(), "b".to_string(), "a".to_string()]));
    assert_eq!(dimens.skills, Some(vec!["a".to_string(), "b".to_string()]));
    assert_eq!(dimens.id, Some("v".to_string()));
    add_skills(&mut dimens, &None);
    assert_eq!(dimens.skills, Some(vec!["a".to_string(), "b".to_string()]));
}

#[test]
fn vehicles_are_named_by_type_and_number() {
    assert_eq!(vehicle_id(&"my_vehicle".to_string(), 1), "my_vehicle_1");
    assert_eq!(vehicle_id(&"v".to_string(), 0), "v_0");
    assert_eq!(vehicle_id(&"".to_string(), 10), "_10");
    assert_eq!(vehicle_id(&"truck".to_string(), 9075), "truck_9075");
    assert_eq!(vehicle_id(&"t".to_string(), usize::MAX), format!("t_{}", usize::MAX));
}

#[test]
fn profiles_are_numbered_in_the_order_of_their_first_use() {
    let mut truck = vehicle("t", place(0, 0));
    truck.profile = "truck".to_string();
    let types = vec![vehicle("a", place(0, 0)), truck, vehicle("b", place(0, 0))];
    let profiles = read_profiles(&types);
    assert_eq!(profiles, vec!["car".to_string(), "truck".to_string()]);
    assert_eq!(text_position(&profiles, &"truck".to_string()), 1);
    assert_eq!(text_position(&profiles, &"car".to_string()), 0);
    assert_eq!(text_position(&profiles, &"bike".to_string()), 0);
}

#[test]
fn the_cost_of_time_counts_for_driving_waiting_and_serving() {
    let costs = read_costs(&VehicleCosts { fixed: Some(4), distance: 2, time: 3 });
    assert_eq!(
        (costs.fixed, costs.per_distance, costs.per_driving_time, costs.per_waiting_time, costs.per_service_time),
        (4, 2, 3, 3, 3)
    );
    assert_eq!(read_costs(&VehicleCosts { fixed: None, distance: 0, time: 0 }).fixed, 0);
}

#[test]
fn the_fleet_has_as_many_vehicles_as_the_types_say() {
    let mut two = vehicle("two", place(0, 0));
    two.amount = 2;
    two.skills = Some(vec!["s".to_string(), "s".to_string()]);
    two.shifts.push(VehicleShift {
        end: Some(VehiclePlace { time: "1970-01-01T00:01:00Z".to_string(), location: place(1, 0) }),
        ..shift(place(1, 0))
    });
    let mut none = vehicle("none", place(0, 0));
    none.amount = 0;
    none.shifts[0].start.time = "broken".to_string();
    let api_problem = problem(vec![delivery("a", place(1, 0))], vec![two, none, vehicle("one", place(0, 0))]);
    let index = create_coord_index(&api_problem);
    let fleet = read_fleet(&api_problem, &index).unwrap();
    let ids: Vec<String> = fleet.vehicles.iter().map(|v| v.dimens.id.clone().unwrap()).collect();
    assert_eq!(ids, vec!["two_1", "two_2", "one_1"]);
    assert_eq!(fleet.drivers.len(), 1);
    assert_eq!(fleet.vehicles[0].dimens.skills, Some(vec!["s".to_string()]));
    assert_eq!(fleet.vehicles[0].capacity, vec![10]);
    let actors: Vec<(usize, usize, usize, i64, Option<(usize, i64)>)> = fleet
        .actors
        .iter()
        .map(|a| {
            let start = a.detail.start.unwrap();
            (a.driver, a.vehicle, start.location, start.time, a.detail.end.map(|e| (e.location, e.time)))
        })
        .collect();
    assert_eq!(
        actors,
        vec![
            (0, 0, 1, 10, None),
            (0, 0, 0, 10, Some((0, 60))),
            (0, 1, 1, 10, None),
            (0, 1, 0, 10, Some((0, 60))),
            (0, 2, 1, 10, None),
        ]
    );
    assert!(!read_limits(&api_problem));
}

#[test]
fn limits_of_a_vehicle_type_are_noticed() {
    let mut kind = vehicle("v", place(0, 0));
    kind.limits = Some(VehicleLimits { max_distance: Some(10), shift_time: None });
    let api_problem = problem(vec![], vec![vehicle("w", place(0, 0)), kind]);
    assert!(read_limits(&api_problem));
    let fleet = read_fleet(&api_problem, &create_coord_index(&api_problem)).unwrap();
    assert_eq!((fleet.vehicles[0].limits.max_distance, fleet.vehicles[0].limits.shift_time), (None, None));
    assert_eq!((fleet.vehicles[1].limits.max_distance, fleet.vehicles[1].limits.shift_time), (Some(10), None));
}

#[test]
fn a_shift_with_a_broken_time_cannot_be_read() {
    let mut kind = vehicle("v", place(0, 0));
    kind.shifts[0].start.time = "noon".to_string();
    let api_problem = problem(vec![delivery("a", place(1, 0))], vec![kind]);
    assert!(read_fleet(&api_problem, &create_coord_index(&api_problem)).is_none());
    assert_eq!(map_to_problem(api_problem, vec![matrix(2, None)]).err(), Some("cannot read a shift".to_string()));
}

#[test]
fn a_job_with_several_places_cannot_be_read() {
    let both = JobVariant::Single(Job {
        id: "b".to_string(),
        places: JobPlaces {
            pickup: Some(JobPlace { location: place(7, 0), duration: 1, times: None }),
            delivery: Some(JobPlace { location: place(1, 0), duration: 1, times: None }),
        },
        demand: vec![1],
        skills: None,
    });
    let api_problem = problem(vec![delivery("a", place(1, 0)), both], vec![vehicle("v", place(0, 0))]);
    assert!(read_jobs(&api_problem, &create_coord_index(&api_problem)).is_none());
    assert_eq!(map_to_problem(api_problem, vec![matrix(3, None)]).err(), Some("cannot read a job".to_string()));
}

#[test]
fn a_break_with_a_broken_window_cannot_be_read() {
    let mut kind = vehicle("v", place(0, 0));
    kind.shifts[0].breaks =
        Some(vec![VehicleBreak { times: vec![vec!["soon".to_string()]], duration: 1, location: None }]);
    let api_problem = problem(vec![delivery("a", place(1, 0))], vec![kind]);
    assert_eq!(
        (api_problem, vec![matrix(2, None)]).read_pragmatic().err(),
        Some("cannot read a break of a vehicle".to_string())
    );
}

#[test]
fn a_relation_with_an_unknown_vehicle_or_job_cannot_be_read() {
    let relation = |vehicle_id: &str, job: &str| Relation {
        type_field: RelationType::Sequence,
        jobs: vec!["departure".to_string(), job.to_string()],
        vehicle_id: vehicle_id.to_string(),
    };
    let with = |relation: Relation| {
        let mut api_problem = problem(vec![delivery("a", place(1, 0))], vec![vehicle("v", place(0, 0))]);
        api_problem.plan.relations = Some(vec![relation]);
        map_to_problem(api_problem, vec![matrix(2, None)])
    };
    assert_eq!(with(relation("v_2", "a")).err(), Some("cannot read a relation".to_string()));
    assert_eq!(with(relation("v_1", "b")).err(), Some("cannot read a relation".to_string()));
    assert_eq!(with(relation("v_1", "break")).err(), Some("cannot read a relation".to_string()));
    let read = with(relation("v_1", "a")).ok().unwrap();
    assert_eq!(read.locks.len(), 1);
    assert_eq!(read.locks[0].actor, 0);
    assert_eq!(read.locks[0].jobs, vec![0]);
    assert!(matches!(read.locks[0].order, LockOrder::Strict));
}

#[test]
fn a_problem_is_mapped_with_its_jobs_breaks_and_locks() {
    let mut kind = vehicle("v", place(0, 0));
    kind.amount = 2;
    kind.costs.fixed = Some(5);
    kind.shifts[0].breaks = Some(vec![VehicleBreak {
        times: vec![vec!["1970-01-01T00:00:05Z".to_string(), "1970-01-01T00:01:00Z".to_string()]],
        duration: 4,
        location: Some(place(3, 0)),
    }]);
    let pickup = JobVariant::Single(Job {
        id: "p".to_string(),
        places: JobPlaces {
            pickup: Some(JobPlace {
                location: place(2, 0),
                duration: 6,
                times: Some(vec![vec!["1970-01-01T00:00:01Z".to_string(), "1970-01-01T00:00:09Z".to_string()]]),
            }),
            delivery: None,
        },
        demand: vec![2, 3],
        skills: Some(vec!["x".to_string()]),
    });
    let mut api_problem = problem(vec![delivery("a", place(1, 0)), pickup], vec![kind]);
    api_problem.plan.relations = Some(vec![Relation {
        type_field: RelationType::Tour,
        jobs: vec!["break".to_string(), "p".to_string(), "arrival".to_string()],
        vehicle_id: "v_2".to_string(),
    }]);
    let read = (api_problem, vec![matrix(4, Some(vec![0; 16]))]).read_pragmatic().ok().unwrap();

    assert_eq!(read.extras.problem_id, "p");
    assert_eq!(read.extras.capacity_type, "multi");
    assert_eq!(read.extras.coord_index.coords.len(), 4);
    assert_eq!(read.transport.matrices.len(), 1);
    assert_eq!(read.objective.unassigned_penalty, 0);
    assert_eq!(read.fleet.vehicles.len(), 2);
    assert_eq!(read.fleet.actors.len(), 2);
    assert_eq!(read.fleet.vehicles[1].costs.fixed, 5);

    assert_eq!(read.jobs.len(), 4);
    let jobs: Vec<(String, Option<usize>, u64, i64, i64, Vec<u64>, Option<usize>)> = read
        .jobs
        .iter()
        .map(|job| {
            (
                job.dimens.id.clone().unwrap(),
                job.location,
                job.duration,
                job.time.start,
                job.time.end,
                job.demand.clone(),
                job.vehicle,
            )
        })
        .collect();
    assert_eq!(
        jobs,
        vec![
            ("a".to_string(), Some(0), 3, 0, i64::MAX, vec![1], None),
            ("p".to_string(), Some(1), 6, 1, 9, vec![2, 3], None),
            ("break".to_string(), Some(3), 4, 5, 60, vec![], Some(0)),
            ("break".to_string(), Some(3), 4, 5, 60, vec![], Some(1)),
        ]
    );
    assert!(matches!(read.jobs[0].kind, JobKind::Delivery));
    assert!(matches!(read.jobs[1].kind, JobKind::Pickup));
    assert!(matches!(read.jobs[2].kind, JobKind::Break));
    assert_eq!(read.jobs[1].dimens.skills, Some(vec!["x".to_string()]));

    assert_eq!(read.locks.len(), 1);
    assert_eq!((read.locks[0].actor, read.locks[0].jobs.clone()), (1, vec![3, 1]));
    assert!(matches!(read.locks[0].order, LockOrder::Any));

    let modules: Vec<String> = read.constraint.modules.iter().map(|module| format!("{:?}", module)).collect();
    assert_eq!(
        modules,
        vec![
            "Transport { code: 1 }",
            "Capacity { code: 2, multi_dimensional: true }",
            "Break { code: 4, unassigned_penalty: Some(-100), strict: false }",
            "Skills { code: 10 }",
            "StrictLocking { code: 3 }",
            "Reachable { code: 11 }",
            "ExtraCost",
        ]
    );
}

#[test]
fn the_first_thing_that_cannot_be_read_decides_the_error() {
    let mut kind = vehicle("v", place(0, 0));
    kind.shifts[0].start.time = "noon".to_string();
    kind.shifts[0].breaks =
        Some(vec![VehicleBreak { times: vec![vec!["soon".to_string()]], duration: 1, location: None }]);
    let multi = JobVariant::Multi(MultiJob {
        id: "m".to_string(),
        places: MultiJobPlaces { pickups: vec![], deliveries: vec![] },
        skills: None,
    });
    let mut api_problem = problem(vec![multi], vec![kind]);
    api_problem.plan.relations = Some(vec![Relation {
        type_field: RelationType::Tour,
        jobs: vec!["nothing".to_string()],
        vehicle_id: "w_1".to_string(),
    }]);
    assert_eq!(
        map_to_problem(api_problem, vec![matrix(1, None)]).err(),
        Some("cannot read a shift".to_string())
    );

    let mut kind = vehicle("v", place(0, 0));
    kind.shifts[0].breaks =
        Some(vec![VehicleBreak { times: vec![vec!["soon".to_string()]], duration: 1, location: None }]);
    let multi = JobVariant::Multi(MultiJob {
        id: "m".to_string(),
        places: MultiJobPlaces { pickups: vec![], deliveries: vec![] },
        skills: None,
    });
    let api_problem = problem(vec![multi], vec![kind]);
    assert_eq!(map_to_problem(api_problem, vec![matrix(1, None)]).err(), Some("cannot read a job".to_string()));
}

#[test]
fn a_vehicle_type_without_vehicles_brings_no_breaks() {
    let mut idle = vehicle("idle", place(0, 0));
    idle.amount = 0;
    idle.shifts[0].breaks =
        Some(vec![VehicleBreak { times: vec![vec!["soon".to_string()]], duration: 1, location: None }]);
    let api_problem = problem(vec![delivery("a", place(1, 0))], vec![idle, vehicle("v", place(0, 0))]);
    let read = map_to_problem(api_problem, vec![matrix(2, None)]).ok().unwrap();
    assert_eq!(read.jobs.len(), 1);
    assert_eq!(read.fleet.vehicles.len(), 1);
}

#[test]
fn breaks_follow_the_jobs_vehicle_by_vehicle_and_shift_by_shift() {
    let pause = |duration: u64| VehicleBreak { times: vec![], duration, location: None };
    let mut first = vehicle("f", place(0, 0));
    first.amount = 2;
    first.shifts = vec![shift(place(0, 0)), shift(place(0, 0))];
    first.shifts[0].breaks = Some(vec![pause(1), pause(2)]);
    first.shifts[1].breaks = Some(vec![pause(3)]);
    let mut second = vehicle("s", place(0, 0));
    second.shifts[0].breaks = Some(vec![pause(4)]);
    let api_problem = problem(vec![delivery("a", place(1, 0))], vec![first, second]);
    let coord_index = create_coord_index(&api_problem);
    let mut jobs = read_jobs(&api_problem, &coord_index).unwrap();
    assert!(read_breaks(&api_problem, &coord_index, &mut jobs));
    let breaks: Vec<(u64, Option<usize>)> = jobs[1..].iter().map(|job| (job.duration, job.vehicle)).collect();
    assert_eq!(
        breaks,
        vec![
            (1, Some(0)),
            (2, Some(0)),
            (3, Some(0)),
            (1, Some(1)),
            (2, Some(1)),
            (3, Some(1)),
            (4, Some(2)),
        ]
    );
    assert!(jobs[1..].iter().all(|job| job.time.start == 0 && job.time.end == i64::MAX && job.location.is_none()));
}

#[test]
fn a_relation_means_the_first_job_of_a_name_and_the_break_of_its_own_vehicle() {
    let pause = VehicleBreak { times: vec![], duration: 1, location: None };
    let mut kind = vehicle("v", place(0, 0));
    kind.amount = 2;
    kind.shifts = vec![shift(place(0, 0)), shift(place(0, 0))];
    kind.shifts[1].breaks = Some(vec![pause]);
    let mut api_problem = problem(
        vec![delivery("a", place(1, 0)), delivery("b", place(2, 0)), delivery("a", place(3, 0))],
        vec![kind],
    );
    api_problem.plan.relations = Some(vec![
        Relation {
            type_field: RelationType::Flexible,
            jobs: vec![
                "departure".to_string(),
                "b".to_string(),
                "break".to_string(),
                "a".to_string(),
                "arrival".to_string(),
                "a".to_string(),
            ],
            vehicle_id: "v_2".to_string(),
        },
        Relation { type_field: RelationType::Sequence, jobs: vec![], vehicle_id: "v_1".to_string() },
    ]);
    let read = map_to_problem(api_problem, vec![matrix(4, None)]).ok().unwrap();
    assert_eq!(read.fleet.actors.len(), 4);
    assert_eq!(read.jobs.len(), 5);
    assert_eq!(read.locks.len(), 2);
    assert_eq!((read.locks[0].actor, read.locks[0].jobs.clone()), (2, vec![1, 4, 0, 0]));
    assert!(matches!(read.locks[0].order, LockOrder::Sequence));
    assert_eq!((read.locks[1].actor, read.locks[1].jobs.clone()), (0, vec![]));
    assert!(matches!(read.locks[1].order, LockOrder::Strict));

    let fleet = &read.fleet;
    assert_eq!(find_vehicle(fleet, &"v_2".to_string()), Some(1));
    assert_eq!(find_vehicle(fleet, &"v_3".to_string()), None);
    assert_eq!(find_actor(fleet, 1), Some(2));
    assert_eq!(find_actor(fleet, 2), None);
    assert_eq!(find_job(&read.jobs, 0, &"a".to_string()), Some(0));
    assert_eq!(find_job(&read.jobs, 0, &"break".to_string()), Some(3));
    assert_eq!(find_job(&read.jobs, 1, &"break".to_string()), Some(4));
    assert_eq!(find_job(&read.jobs, 2, &"break".to_string()), None);
    assert_eq!(find_job(&read.jobs, 0, &"c".to_string()), None);
}

#[test]
fn a_relation_of_a_vehicle_without_shifts_cannot_be_read() {
    let mut kind = vehicle("v", place(0, 0));
    kind.shifts = vec![];
    let mut api_problem = problem(vec![delivery("a", place(1, 0))], vec![kind]);
    api_problem.plan.relations =
        Some(vec![Relation { type_field: RelationType::Tour, jobs: vec![], vehicle_id: "v_1".to_string() }]);
    assert_eq!(
        map_to_problem(api_problem, vec![matrix(1, None)]).err(),
        Some("cannot read a relation".to_string())
    );
}

#[test]
fn a_negative_distance_asks_for_the_module_that_watches_reachability() {
    let api_problem = problem(vec![delivery("a", place(1, 0))], vec![vehicle("v", place(0, 0))]);
    let mut cut = matrix(2, None);
    cut.distances[1] = -1;
    assert!(matrix_errors(&cut));
    assert!(!matrix_errors(&matrix(2, None)));
    assert!(matrix_errors(&matrix(2, Some(vec![0; 4]))));
    assert!(get_problem_properties(&api_problem, &vec![matrix(2, None), cut]).has_unreachable_locations);
    assert!(!get_problem_properties(&api_problem, &vec![matrix(2, None)]).has_unreachable_locations);
    let mut cut = matrix(2, None);
    cut.distances[2] = -7;
    let read = map_to_problem(api_problem, vec![cut]).ok().unwrap();
    assert!(read.constraint.modules.iter().any(|module| matches!(module, ConstraintModule::Reachable { code: 11 })));
}
