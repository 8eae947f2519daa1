use vrp_solver::construction::constraints::{
    schedule_stop, ConstraintModule, ConstraintPipeline, MAX_LOAD_KEY, TOTAL_DISTANCE_KEY, TOTAL_DURATION_KEY,
    WAITING_KEY,
};
use vrp_solver::construction::context::{
    contains_index, copy_routes, retain_indices, Activity, InsertionContext, Registry, RouteContext, RouteState,
    SolutionContext,
};
use vrp_solver::construction::evaluation::{amount, contains_all, in_time, ActivityContext};
use vrp_solver::construction::heuristics::{CheapestInsertion, NO_ROUTE_CODE};
use vrp_solver::construction::locking::{in_order, lock_kept, rank_of, together};
use vrp_solver::construction::metrics::get_values_from_route_state;
use vrp_solver::format::coord_index::CoordIndex;
use vrp_solver::models::common::{Schedule, TimeWindow};
use vrp_solver::models::examples::{
    create_example_fleet, create_example_jobs, create_example_problem, create_example_transport,
};
use vrp_solver::models::problem::{
    Costs, Dimensions, Driver, Extras, Fleet, Job, JobKind, Lock, LockOrder, Matrix, ObjectiveCost, Problem,
    TransportCost, TravelLimits, Vehicle, VehicleDetail, VehiclePlace,
};
use vrp_solver::solver::merging::absorb;
use vrp_solver::utils::numeric::{add_amounts, advance, clamp, elapsed, mul_amounts};
use vrp_solver::utils::index_set::index_set_of;
use vrp_solver::utils::random::Random;

fn line(xs: &[i64], blocked: &[(usize, usize)]) -> Matrix {
    let mut entries = vec![];
    for from in 0..xs.len() {
        for to in 0..xs.len() {
            if blocked.contains(&(from, to)) || blocked.contains(&(to, from)) {
                entries.push(-1);
            } else {
                entries.push((xs[from] - xs[to]).abs());
            }
        }
    }
    Matrix {
        num_origins: xs.len(),
        num_destinations: xs.len(),
        travel_times: entries.clone(),
        distances: entries,
        error_codes: None,
    }
}

fn job(kind: JobKind, location: usize, window: (i64, i64), demand: Vec<u64>) -> Job {
    Job {
        kind,
        location: Some(location),
        duration: 2,
        time: TimeWindow::new(window.0, window.1),
        demand,
        vehicle: None,
        dimens: Dimensions::new(),
    }
}

/// A problem on the line `0, 10, 20, 30` with one vehicle of capacity `[5]` that starts at `0` at time `100`.
fn problem(jobs: Vec<Job>, modules: Vec<ConstraintModule>, blocked: &[(usize, usize)]) -> Problem {
    let costs = |fixed, per_distance, time| Costs {
        fixed,
        per_distance,
        per_driving_time: time,
        per_waiting_time: time,
        per_service_time: time,
    };
    let drivers = vec![Driver { costs: costs(1, 0, 0), dimens: Dimensions::new(), details: vec![] }];
    let vehicles = vec![Vehicle {
        profile: 0,
        costs: costs(10, 2, 1),
        dimens: Dimensions::new(),
        capacity: vec![5],
        limits: TravelLimits::none(),
        details: vec![VehicleDetail {
            start: Some(VehiclePlace { location: 0, time: 100 }),
            end: Some(VehiclePlace { location: 0, time: 1000 }),
        }],
    }];
    let mut constraint = ConstraintPipeline::new();
    modules.into_iter().for_each(|module| constraint.add_module(module));
    Problem {
        fleet: Fleet::new(drivers, vehicles),
        jobs,
        locks: vec![],
        constraint,
        transport: TransportCost::new(vec![line(&[0, 10, 20, 30], blocked)]),
        objective: ObjectiveCost { unassigned_penalty: 1000 },
        extras: Extras {
            problem_id: String::new(),
            capacity_type: String::new(),
            coord_index: CoordIndex::new(),
        },
    }
}

fn transport_and_capacity() -> Vec<ConstraintModule> {
    vec![ConstraintModule::Transport { code: 1 }, ConstraintModule::Capacity { code: 2, multi_dimensional: false }]
}

fn times(route: &RouteContext) -> Vec<(i64, i64)> {
    route.tour.iter().map(|stop| (stop.schedule.arrival, stop.schedule.departure)).collect()
}

#[test]
fn a_route_is_scheduled_stop_by_stop() {
    let jobs = vec![
        job(JobKind::Delivery, 1, (0, 1000), vec![1]),
        job(JobKind::Delivery, 3, (150, 1000), vec![1]),
    ];
    let problem = problem(jobs, transport_and_capacity(), &[]);
    let seed = InsertionContext::new(&problem, Random::new(0));
    assert_eq!(seed.solution.required, vec![0, 1]);
    let inserted = CheapestInsertion::insert_required(&problem, seed);
    assert_eq!(inserted.solution.routes.len(), 1);
    let route = &inserted.solution.routes[0];
    assert_eq!(route.jobs(), vec![0, 1]);
    assert_eq!(route.job_count(), 2);
    // depart at 100; reach 10 at 110, leave at 112; reach 30 at 132, wait until 150, leave at 152; back at 182
    assert_eq!(times(route), vec![(100, 100), (110, 112), (132, 152), (182, 182)]);
    assert_eq!(route.state.get_route_state(TOTAL_DISTANCE_KEY), Some(60));
    assert_eq!(route.state.get_route_state(TOTAL_DURATION_KEY), Some(82));
    assert_eq!(route.state.get_route_state(MAX_LOAD_KEY), Some(2));
    assert_eq!(problem.max_load(0, &route.tour), 2);
    assert_eq!(problem.kind_max_load(&route.tour, 0), 2);
    assert_eq!(route.state.get_activity_state(WAITING_KEY, 2), Some(18));
    assert_eq!(route.state.get_activity_state(WAITING_KEY, 1), Some(0));
    assert_eq!(route.state.get_activity_state(WAITING_KEY, 4), None);
    assert_eq!(route.state.get_activity_state(TOTAL_DISTANCE_KEY, 1), None);
    assert_eq!(get_values_from_route_state(&inserted, TOTAL_DISTANCE_KEY), vec![60]);
    assert_eq!(get_values_from_route_state(&inserted, MAX_LOAD_KEY), vec![2]);
    assert_eq!(get_values_from_route_state(&inserted, 99), vec![0]);

    let statistic = problem.route_statistic(route);
    assert_eq!((statistic.distance, statistic.duration), (60, 82));
    assert_eq!(
        (statistic.times.driving, statistic.times.serving, statistic.times.waiting, statistic.times.break_time),
        (60, 4, 18, 0)
    );
    // fixed 10 + 1, way 60 * 2, time 82 * 1
    assert_eq!(statistic.cost, 213);
    assert_eq!(problem.total_statistic(&inserted).cost, 213);
    let fitness = problem.estimate_cost(&inserted);
    assert_eq!((fitness.unserved, fitness.cost), (0, 213));
}

#[test]
fn times_of_a_scheduled_tour_never_run_backwards() {
    let problem = problem(vec![], transport_and_capacity(), &[(1, 2)]);
    let stop = |location: usize, start: i64, arrival: i64| Activity {
        location,
        duration: 7,
        time: TimeWindow::new(start, 0),
        schedule: Schedule { arrival, departure: -5 },
        job: None,
        pause: false,
    };
    let mut route = RouteContext::new(0, vec![stop(3, -50, -20), stop(1, 0, 999), stop(2, 40, 999), stop(9, 0, 0)]);
    problem.accept_route_state(&mut route);
    // a pair without a way takes no time: 1 -> 2 and 2 -> 9
    assert_eq!(times(&route), vec![(-20, -13), (7, 14), (14, 47), (47, 54)]);
    assert!(route.tour.windows(2).all(|pair| pair[0].schedule.departure <= pair[1].schedule.arrival));
    assert!(route.tour.iter().all(|stop| stop.schedule.arrival <= stop.schedule.departure));
    assert_eq!(route.state.get_route_state(TOTAL_DISTANCE_KEY), Some(20));
}

#[test]
fn a_pipeline_without_transport_keeps_no_state() {
    let problem = problem(vec![], vec![ConstraintModule::Skills { code: 10 }], &[]);
    let mut route = RouteContext::new(
        0,
        vec![Activity {
            location: 1,
            duration: 1,
            time: TimeWindow::new(0, 10),
            schedule: Schedule { arrival: 3, departure: 1 },
            job: None,
            pause: false,
        }],
    );
    route.state.put_route_state(TOTAL_DISTANCE_KEY, 5);
    problem.accept_route_state(&mut route);
    assert_eq!(times(&route), vec![(3, 1)]);
    assert_eq!(route.state.get_route_state(TOTAL_DISTANCE_KEY), None);
    assert!(!problem.constraint.has_transport());
}

#[test]
fn a_stop_is_served_when_its_window_opens() {
    let stop = Activity {
        location: 0,
        duration: 5,
        time: TimeWindow::new(10, 20),
        schedule: Schedule { arrival: 0, departure: 0 },
        job: Some(1),
        pause: false,
    };
    let (early, waiting) = schedule_stop(stop, 4);
    assert_eq!((early.schedule.arrival, early.schedule.departure, waiting), (4, 15, 6));
    let (late, waiting) = schedule_stop(stop, 30);
    assert_eq!((late.schedule.arrival, late.schedule.departure, waiting), (30, 35, 0));
    assert_eq!(late.job, Some(1));
}

#[test]
fn state_is_kept_by_key_and_the_last_value_counts() {
    let mut state = RouteState::new();
    assert_eq!(state.get_route_state(1), None);
    state.put_route_state(1, 10);
    state.put_route_state(2, 20);
    state.put_route_state(1, 30);
    assert_eq!(state.get_route_state(1), Some(30));
    assert_eq!(state.get_route_state(2), Some(20));
    state.put_activity_state(1, 0, 5);
    state.put_activity_state(1, 1, 6);
    state.put_activity_state(1, 0, 7);
    assert_eq!(state.get_activity_state(1, 0), Some(7));
    assert_eq!(state.get_activity_state(1, 1), Some(6));
    assert_eq!(state.get_activity_state(2, 0), None);
}

#[test]
fn a_job_that_comes_too_late_is_left_unassigned_with_the_code_of_transport() {
    let jobs = vec![job(JobKind::Delivery, 3, (0, 120), vec![1])];
    let problem = problem(jobs, transport_and_capacity(), &[]);
    let inserted = CheapestInsertion::insert_required(&problem, InsertionContext::new(&problem, Random::new(0)));
    assert!(inserted.solution.routes.is_empty());
    assert_eq!(inserted.solution.unassigned.len(), 1);
    // no route exists and the route of the only actor objects: nothing of the routes objected
    assert_eq!((inserted.solution.unassigned[0].job, inserted.solution.unassigned[0].code), (0, NO_ROUTE_CODE));

    let fresh = problem.fresh_route(0);
    let target = problem.stop_of(0, 0);
    let activity_ctx = ActivityContext { index: 1, target };
    assert_eq!(problem.evaluate_hard_activity(&fresh, &activity_ctx), Err(1));
    assert_eq!(problem.evaluate_hard_route(&fresh, 0), Ok(()));
}

#[test]
fn load_beyond_the_capacity_is_turned_down_with_the_code_of_capacity() {
    let jobs = vec![
        job(JobKind::Delivery, 1, (0, 1000), vec![3]),
        job(JobKind::Delivery, 2, (0, 1000), vec![3]),
        job(JobKind::Pickup, 3, (0, 1000), vec![4]),
        job(JobKind::Pickup, 1, (0, 1000), vec![6]),
        job(JobKind::Pickup, 1, (0, 1000), vec![0, 1]),
    ];
    let problem = problem(jobs, transport_and_capacity(), &[]);
    let inserted = CheapestInsertion::insert_required(&problem, InsertionContext::new(&problem, Random::new(0)));
    assert_eq!(inserted.solution.routes.len(), 1);
    // the pickup of 4 fits only behind the delivery of 3
    assert_eq!(inserted.solution.routes[0].jobs(), vec![0, 2]);
    let left: Vec<(usize, i32)> = inserted.solution.unassigned.iter().map(|entry| (entry.job, entry.code)).collect();
    assert_eq!(left, vec![(1, 2), (3, 2), (4, 2)]);

    let route = &inserted.solution.routes[0];
    assert_eq!(problem.evaluate_hard_route(route, 3), Err(2));
    assert_eq!(problem.evaluate_hard_route(route, 4), Err(2));
    assert_eq!(problem.evaluate_hard_route(route, 1), Ok(()));
    assert!(problem.within_capacity(0, &route.tour));
    // three on board at the start, four behind the pickup
    assert_eq!(route.state.get_route_state(MAX_LOAD_KEY), Some(4));
    assert!(problem.constraint.has_capacity());
    assert!(problem.kind_within_capacity(0, &route.tour, 0));
    assert_eq!(problem.kinds_of(0, &route.tour), 1);
    assert_eq!(problem.capacity_of(0, 0), 5);
    assert_eq!(problem.capacity_of(0, 1), 0);
    assert_eq!(problem.stop_load(&route.tour[1], 0), (0, 3));
    assert_eq!(problem.stop_load(&route.tour[2], 0), (4, 0));
    assert_eq!(problem.stop_load(&route.tour[0], 0), (0, 0));
    // in front of the delivery the pickup would bring the load to 7
    let early = ActivityContext { index: 1, target: problem.stop_of(2, 0) };
    let without = problem.fresh_route(0);
    let with_delivery = CheapestInsertion::insert_into(&problem, &without, 0, 1);
    assert_eq!(problem.evaluate_hard_activity(&with_delivery, &early), Err(2));
    assert_eq!(problem.evaluate_tour(0, &route.tour), Ok(()));
}

#[test]
fn a_job_at_a_place_without_a_way_is_left_unassigned_with_the_code_of_reachability() {
    let jobs = vec![job(JobKind::Delivery, 1, (0, 1000), vec![1]), job(JobKind::Delivery, 2, (0, 1000), vec![1])];
    let mut modules = transport_and_capacity();
    modules.push(ConstraintModule::Reachable { code: 11 });
    let problem = problem(jobs, modules, &[(1, 2), (0, 2)]);
    let inserted = CheapestInsertion::insert_required(&problem, InsertionContext::new(&problem, Random::new(0)));
    assert_eq!(inserted.solution.routes.len(), 1);
    assert_eq!(inserted.solution.routes[0].jobs(), vec![0]);
    let left: Vec<(usize, i32)> = inserted.solution.unassigned.iter().map(|entry| (entry.job, entry.code)).collect();
    assert_eq!(left, vec![(1, 11)]);
    assert!(problem.reachable(0, &inserted.solution.routes[0].tour));
    assert!(inserted.solution.registry.available.is_empty());
}

#[test]
fn the_first_module_that_objects_decides() {
    let jobs = vec![job(JobKind::Delivery, 2, (0, 105), vec![9])];
    let late_first = problem(jobs, transport_and_capacity(), &[(0, 2)]);
    let fresh = late_first.fresh_route(0);
    let activity_ctx = ActivityContext { index: 1, target: late_first.stop_of(0, 0) };
    // transport does not object: without a way the stop is reached at once; capacity does
    assert_eq!(late_first.evaluate_hard_activity(&fresh, &activity_ctx), Err(2));
    let jobs = vec![job(JobKind::Delivery, 2, (0, 105), vec![9])];
    let modules = vec![
        ConstraintModule::Reachable { code: 11 },
        ConstraintModule::Capacity { code: 2, multi_dimensional: false },
        ConstraintModule::Transport { code: 1 },
    ];
    let reach_first = problem(jobs, modules, &[(0, 2)]);
    assert_eq!(reach_first.evaluate_hard_activity(&fresh, &activity_ctx), Err(11));
    assert_eq!(reach_first.evaluate_hard_route(&fresh, 0), Err(2));
}

#[test]
fn skills_locks_and_bindings_keep_jobs_off_a_route() {
    let mut skilled = job(JobKind::Delivery, 1, (0, 1000), vec![1]);
    skilled.dimens.skills = Some(vec!["fridge".to_string()]);
    let mut bound = job(JobKind::Break, 1, (0, 1000), vec![]);
    bound.vehicle = Some(3);
    let mut own = job(JobKind::Break, 1, (0, 1000), vec![]);
    own.vehicle = Some(0);
    let jobs = vec![skilled, bound, own, job(JobKind::Delivery, 2, (0, 1000), vec![1])];
    let modules = vec![
        ConstraintModule::Transport { code: 1 },
        ConstraintModule::Break { code: 4, unassigned_penalty: Some(-100), strict: false },
        ConstraintModule::Skills { code: 10 },
        ConstraintModule::StrictLocking { code: 3 },
    ];
    let mut problem = problem(jobs, modules, &[]);
    problem.locks = vec![Lock { actor: 7, order: LockOrder::Any, jobs: vec![3] }];
    let fresh = problem.fresh_route(0);
    assert_eq!(problem.evaluate_hard_route(&fresh, 0), Err(10));
    assert_eq!(problem.evaluate_hard_route(&fresh, 1), Err(4));
    assert_eq!(problem.evaluate_hard_route(&fresh, 2), Ok(()));
    assert_eq!(problem.evaluate_hard_route(&fresh, 3), Err(3));
    assert!(!problem.skills_fit(0, &problem.jobs[0]));
    assert!(problem.skills_fit(0, &problem.jobs[1]));
    assert!(!problem.binding_fits(0, &problem.jobs[1]));
    assert!(problem.binding_fits(0, &problem.jobs[2]));
    assert!(!problem.lock_fits(0, 3));
    assert!(problem.lock_fits(7, 3));
    assert!(problem.lock_fits(0, 2));
    assert!(problem.demand_fits(0, &problem.jobs[3]));

    problem.fleet.vehicles[0].dimens.skills = Some(vec!["crane".to_string(), "fridge".to_string()]);
    assert_eq!(problem.evaluate_hard_route(&fresh, 0), Ok(()));
    assert!(contains_all(&vec!["a".to_string(), "b".to_string()], &vec!["b".to_string()]));
    assert!(!contains_all(&vec!["a".to_string()], &vec!["a".to_string(), "b".to_string()]));
    assert!(contains_all(&vec![], &vec![]));
}

#[test]
fn a_tour_beyond_the_limits_of_its_vehicle_is_turned_down() {
    let jobs = vec![job(JobKind::Delivery, 1, (0, 1000), vec![1]), job(JobKind::Delivery, 3, (0, 1000), vec![1])];
    let mut modules = transport_and_capacity();
    modules.push(ConstraintModule::Travel { distance_code: 5, duration_code: 6 });
    let mut problem = problem(jobs, modules, &[]);
    let fresh = problem.fresh_route(0);
    let near = ActivityContext { index: 1, target: problem.stop_of(0, 0) };
    let far = ActivityContext { index: 1, target: problem.stop_of(1, 0) };
    assert_eq!(problem.evaluate_hard_activity(&fresh, &far), Ok(()));

    problem.fleet.vehicles[0].limits = TravelLimits { max_distance: Some(59), shift_time: Some(61) };
    // to the place at 30 and back: way 60, time 62
    assert_eq!(problem.evaluate_hard_activity(&fresh, &far), Err(5));
    assert_eq!(problem.evaluate_hard_activity(&fresh, &near), Ok(()));
    problem.fleet.vehicles[0].limits = TravelLimits { max_distance: Some(60), shift_time: Some(61) };
    assert_eq!(problem.evaluate_hard_activity(&fresh, &far), Err(6));
    problem.fleet.vehicles[0].limits = TravelLimits { max_distance: Some(60), shift_time: Some(62) };
    assert_eq!(problem.evaluate_hard_activity(&fresh, &far), Ok(()));

    let candidate = problem.candidate_tour(&fresh, &far);
    assert_eq!(problem.tour_distance(0, &candidate), 60);
    assert_eq!(problem.tour_distance(0, &vec![]), 0);
    assert!(!problem.too_long(0, &candidate));
    assert!(!problem.too_late(0, &candidate));
    assert_eq!(problem.limits_of(3).max_distance, None);
}

#[test]
fn an_insertion_costs_what_it_adds_to_the_route() {
    let jobs = vec![job(JobKind::Delivery, 1, (0, 1000), vec![1]), job(JobKind::Delivery, 3, (0, 1000), vec![1])];
    let problem = problem(jobs, transport_and_capacity(), &[]);
    let fresh = problem.fresh_route(0);
    // the empty route costs the fixed 11; with the job at 10: way 20 * 2 and time 22
    let first = ActivityContext { index: 1, target: problem.stop_of(0, 0) };
    assert_eq!(problem.evaluate_soft_activity(&fresh, &first), 62);
    let with_first = CheapestInsertion::insert_into(&problem, &fresh, 0, 1);
    assert_eq!(problem.route_statistic(&with_first).cost, 73);
    // behind the job at 10 the job at 30 adds way 40 * 2 and time 42
    let behind = ActivityContext { index: 2, target: problem.stop_of(1, 10) };
    assert_eq!(problem.evaluate_soft_activity(&with_first, &behind), 122);
    let found = problem.find_insertion(&vec![with_first], 1).ok().unwrap();
    assert_eq!((found.route, found.index, found.cost), (0, 1, 122));
    assert_eq!(problem.find_insertion(&vec![], 1).err(), Some(NO_ROUTE_CODE));
}

#[test]
fn a_job_that_the_problem_does_not_have_is_left_unassigned() {
    let problem = problem(vec![], transport_and_capacity(), &[]);
    let mut seed = InsertionContext::new(&problem, Random::new(3));
    seed.solution.required = vec![4];
    let inserted = CheapestInsertion::insert_required(&problem, seed);
    assert_eq!((inserted.solution.unassigned[0].job, inserted.solution.unassigned[0].code), (4, NO_ROUTE_CODE));
    assert!(inserted.solution.required.is_empty());
    assert_eq!(inserted.random.state, 3);
}

#[test]
fn locks_fix_the_routes_that_a_search_starts_from() {
    let jobs = vec![
        job(JobKind::Delivery, 1, (0, 1000), vec![1]),
        job(JobKind::Delivery, 2, (0, 1000), vec![1]),
        Job { location: None, ..job(JobKind::Break, 0, (0, 1000), vec![]) },
        job(JobKind::Delivery, 3, (0, 1000), vec![1]),
    ];
    let mut problem = problem(jobs, transport_and_capacity(), &[]);
    problem.locks = vec![
        Lock { actor: 5, order: LockOrder::Strict, jobs: vec![3] },
        Lock { actor: 0, order: LockOrder::Sequence, jobs: vec![1, 9, 2, 1, 0] },
        Lock { actor: 0, order: LockOrder::Strict, jobs: vec![3] },
    ];
    let seed = InsertionContext::new(&problem, Random::new(0));
    assert_eq!(seed.solution.routes.len(), 1);
    assert_eq!(seed.solution.routes[0].actor, 0);
    assert_eq!(seed.solution.routes[0].jobs(), vec![1, 2, 0]);
    // the break has no place of its own: it is taken where the job before it is
    assert_eq!(
        seed.solution.routes[0].tour.iter().map(|stop| stop.location).collect::<Vec<_>>(),
        vec![0, 2, 2, 1, 0]
    );
    assert_eq!(times(&seed.solution.routes[0]), vec![(100, 100), (120, 122), (122, 124), (134, 136), (146, 146)]);
    assert_eq!(seed.solution.required, vec![3]);
    assert_eq!(seed.solution.locked, vec![1, 2, 0]);
    assert!(seed.solution.ignored.is_empty() && seed.solution.unassigned.is_empty());
    assert!(seed.solution.registry.available.is_empty());
    assert_eq!(seed.solution.registry.all, vec![0]);

    problem.locks = vec![Lock { actor: 0, order: LockOrder::Any, jobs: vec![3] }];
    let seed = InsertionContext::new(&problem, Random::new(0));
    assert_eq!(seed.solution.routes[0].jobs(), vec![3]);
    assert!(seed.solution.locked.is_empty());
    assert_eq!(seed.solution.required, vec![0, 1, 2]);
}

#[test]
fn an_empty_individual_has_every_actor_available() {
    let problem = problem(vec![], transport_and_capacity(), &[]);
    let empty = InsertionContext::new_empty(&problem, Random::new(9));
    assert!(empty.solution.routes.is_empty() && empty.solution.required.is_empty());
    assert_eq!(empty.solution.registry.available, vec![0]);
    assert_eq!(empty.random.state, 9);
}

#[test]
fn a_solution_takes_in_the_parts_of_another() {
    let problem = problem(vec![job(JobKind::Delivery, 1, (0, 1000), vec![1])], transport_and_capacity(), &[]);
    let part = CheapestInsertion::insert_required(&problem, InsertionContext::new(&problem, Random::new(0)));
    let mut accumulator = SolutionContext {
        required: vec![5],
        ignored: vec![6],
        unassigned: vec![],
        locked: vec![1, 2],
        routes: vec![],
        registry: Registry::new(3),
        state: vec![],
    };
    let mut other = part.deep_copy().solution;
    other.required = vec![7];
    other.ignored = vec![8];
    other.locked = vec![2, 3, 3];
    absorb(&mut accumulator, &other);
    assert_eq!(accumulator.required, vec![5, 7]);
    assert_eq!(accumulator.ignored, vec![6, 8]);
    assert_eq!(accumulator.locked, vec![1, 2, 3]);
    assert_eq!(accumulator.routes.len(), 1);
    assert_eq!(accumulator.registry.available, vec![1, 2]);
    assert_eq!(accumulator.registry.all, vec![0, 1, 2]);
}

#[test]
fn a_registry_tells_which_actors_are_free() {
    let mut registry = Registry::new(4);
    registry.use_actor(2);
    registry.use_actor(2);
    registry.use_route(&RouteContext::new(0, vec![]));
    assert_eq!(registry.available, vec![1, 3]);
    assert_eq!(registry.deep_copy().available, vec![1, 3]);
    assert_eq!(retain_indices(&vec![4, 1, 4, 2], &index_set_of(&vec![4, 2, 9, 4])), vec![4, 4, 2]);
    let slice = registry.deep_slice(&index_set_of(&vec![3, 0]));
    assert_eq!((slice.all, slice.available), (vec![0, 3], vec![3]));
    assert!(contains_index(&vec![1, 2], 2));
    assert!(!contains_index(&vec![1, 2], 3));
    let routes = vec![RouteContext::new(1, vec![]), RouteContext::new(0, vec![])];
    assert_eq!(copy_routes(&routes).iter().map(|route| route.actor).collect::<Vec<_>>(), vec![1, 0]);
}

#[test]
fn matrices_answer_with_a_negative_number_where_they_know_no_way() {
    let mut matrix = line(&[0, 5, 9], &[(0, 2)]);
    matrix.error_codes = Some(vec![0, 0, 0, 0, 0, 1, 0, 0]);
    matrix.travel_times[1] = 7;
    assert_eq!(matrix.distance(0, 1), 5);
    assert_eq!(matrix.duration(0, 1), 7);
    assert_eq!(matrix.distance(1, 0), 5);
    assert_eq!(matrix.distance(0, 2), -1);
    assert_eq!(matrix.distance(1, 2), -1);
    assert_eq!(matrix.duration(1, 2), -1);
    assert_eq!(matrix.distance(2, 1), 4);
    assert_eq!(matrix.distance(3, 0), -1);
    assert_eq!(matrix.distance(0, 3), -1);
    let short = Matrix { num_origins: 2, num_destinations: 2, travel_times: vec![1, 2, 3], distances: vec![1, 2, 3, 4], error_codes: None };
    assert_eq!(short.distance(1, 0), 3);
    assert_eq!(short.distance(1, 1), -1);
    let huge = Matrix { num_origins: usize::MAX, num_destinations: usize::MAX, travel_times: vec![], distances: vec![], error_codes: None };
    assert_eq!(huge.distance(usize::MAX - 1, 5), -1);
    let transport = TransportCost::new(vec![matrix]);
    assert_eq!(transport.distance(0, 2, 1, 0), 4);
    assert_eq!(transport.duration(0, 0, 1, 55), 7);
    assert_eq!(transport.distance(1, 0, 1, 0), -1);
    assert_eq!(transport.duration(1, 0, 1, 0), -1);
}

#[test]
fn amounts_and_times_do_not_wrap_around() {
    assert_eq!(add_amounts(2, 3), 5);
    assert_eq!(add_amounts(u64::MAX, 1), u64::MAX);
    assert_eq!(mul_amounts(6, 7), 42);
    assert_eq!(mul_amounts(u64::MAX, 2), u64::MAX);
    assert_eq!(mul_amounts(u64::MAX, 0), 0);
    assert_eq!(advance(-5, 8), 3);
    assert_eq!(advance(i64::MAX - 1, 5), i64::MAX);
    assert_eq!(advance(i64::MIN, u64::MAX), i64::MAX);
    assert_eq!(advance(-1, u64::MAX), i64::MAX);
    assert_eq!(elapsed(3, 10), 7);
    assert_eq!(elapsed(10, 3), 0);
    assert_eq!(elapsed(i64::MIN, i64::MAX), u64::MAX);
    assert_eq!(clamp(-4), 0);
    assert_eq!(clamp(4), 4);
    assert_eq!(amount(&vec![3, 4], 1), 4);
    assert_eq!(amount(&vec![3, 4], 2), 0);
    let stop = |arrival: i64, end: i64| Activity {
        location: 0,
        duration: 0,
        time: TimeWindow::new(0, end),
        schedule: Schedule { arrival, departure: arrival },
        job: None,
        pause: false,
    };
    assert!(in_time(&vec![stop(5, 5), stop(0, 9)]));
    assert!(!in_time(&vec![stop(5, 5), stop(10, 9)]));
    let all = TimeWindow::max();
    assert_eq!((all.start, all.end), (0, i64::MAX));
}

#[test]
fn a_weighted_choice_follows_the_weights_and_the_seed() {
    let mut random = Random::new(11);
    assert_eq!(random.weighted(&vec![0, 5, 0]), 1);
    assert_eq!(random.weighted(&vec![0, 0]), 0);
    assert_eq!(random.weighted(&vec![]), 0);
    assert_eq!(random.weighted(&vec![usize::MAX, usize::MAX, 0]) < 2, true);
    let mut first = Random::new(42);
    let mut second = Random::new(42);
    let weights = vec![1, 2, 3, 4];
    let drawn: Vec<usize> = (0..20).map(|_| first.weighted(&weights)).collect();
    let again: Vec<usize> = (0..20).map(|_| second.weighted(&weights)).collect();
    assert_eq!(drawn, again);
    assert!(drawn.iter().all(|index| *index < 4));
    assert!(drawn.iter().any(|index| *index != drawn[0]));
    let mut third = Random::new(42);
    assert_eq!(third.next(), 42u64.wrapping_mul(6364136223846793005).wrapping_add(1442695040888963407));
    // the ticket 8 of the sum 10 falls to the last weight
    let mut fixed = Random { state: 0 };
    let ticket = (1442695040888963407u64 % 10) as usize;
    let expected = if ticket < 1 { 0 } else if ticket < 3 { 1 } else if ticket < 6 { 2 } else { 3 };
    assert_eq!(fixed.weighted(&weights), expected);
}

#[test]
fn the_example_problem_has_one_job_and_one_vehicle() {
    let problem = create_example_problem();
    assert_eq!(problem.jobs.len(), 1);
    assert_eq!(problem.jobs[0].location, Some(1));
    assert_eq!((problem.jobs[0].time.start, problem.jobs[0].time.end), (0, 100));
    assert_eq!(problem.fleet.vehicles[0].dimens.id, Some("v1".to_string()));
    assert_eq!(problem.fleet.vehicles[0].costs.per_distance, 1);
    assert_eq!(problem.fleet.actors.len(), 1);
    assert!(problem.locks.is_empty());
    assert_eq!(problem.transport.distance(0, 0, 1, 0), 42);
    assert_eq!(problem.transport.duration(0, 1, 1, 0), 42);
    assert_eq!(problem.profile(0), 0);
    assert_eq!(problem.profile(4), 0);
    assert_eq!(problem.constraint.modules.len(), 2);
    let fleet = create_example_fleet();
    let transport = create_example_transport();
    assert_eq!(create_example_jobs(&fleet, &transport).len(), 1);
    assert_eq!(fleet.drivers.len(), 1);
    let inserted = CheapestInsertion::insert_required(&problem, InsertionContext::new(&problem, Random::new(0)));
    assert_eq!(inserted.solution.routes[0].jobs(), vec![0]);
    assert_eq!(problem.route_statistic(&inserted.solution.routes[0]).cost, 42);
}

fn serving(jobs: &[Option<usize>]) -> Vec<Activity> {
    jobs.iter()
        .map(|job| Activity {
            location: 0,
            duration: 0,
            time: TimeWindow::max(),
            schedule: Schedule { arrival: 0, departure: 0 },
            job: *job,
            pause: false,
        })
        .collect()
}

#[test]
fn a_tour_keeps_a_lock_while_its_jobs_stand_as_the_lock_asks() {
    let stop = |job: Option<usize>| serving(&[job])[0];
    assert_eq!(rank_of(&vec![4, 7, 4], &stop(Some(4))), Some(0));
    assert_eq!(rank_of(&vec![4, 7, 4], &stop(Some(7))), Some(1));
    assert_eq!(rank_of(&vec![4, 7, 4], &stop(Some(5))), None);
    assert_eq!(rank_of(&vec![4, 7, 4], &stop(None)), None);
    assert_eq!(rank_of(&vec![], &stop(Some(4))), None);

    assert!(in_order(&vec![4, 7, 9], &serving(&[None, Some(4), Some(1), Some(9), None])));
    assert!(in_order(&vec![4, 7, 9], &serving(&[None, Some(7), None])));
    assert!(!in_order(&vec![4, 7, 9], &serving(&[None, Some(9), Some(1), Some(4)])));
    assert!(!in_order(&vec![4, 7, 9], &serving(&[Some(4), Some(2), Some(4)])));
    assert!(in_order(&vec![], &serving(&[Some(9), Some(4)])));
    assert!(in_order(&vec![4, 7, 9], &serving(&[])));

    assert!(together(&vec![4, 7, 9], &serving(&[None, Some(1), Some(4), Some(9), Some(2), None])));
    assert!(together(&vec![4, 7, 9], &serving(&[None, Some(9), Some(4), Some(7)])));
    assert!(!together(&vec![4, 7, 9], &serving(&[None, Some(4), Some(1), Some(9)])));
    assert!(!together(&vec![4, 9], &serving(&[Some(4), None, Some(9)])));
    assert!(together(&vec![4], &serving(&[Some(1), Some(4), Some(2)])));
    assert!(together(&vec![4], &serving(&[Some(1), Some(2)])));

    let tour = serving(&[None, Some(9), Some(1), Some(4), None]);
    assert!(lock_kept(&Lock { actor: 0, order: LockOrder::Any, jobs: vec![4, 9] }, &tour));
    assert!(!lock_kept(&Lock { actor: 0, order: LockOrder::Sequence, jobs: vec![4, 9] }, &tour));
    assert!(lock_kept(&Lock { actor: 0, order: LockOrder::Sequence, jobs: vec![9, 4] }, &tour));
    assert!(!lock_kept(&Lock { actor: 0, order: LockOrder::Strict, jobs: vec![9, 4] }, &tour));
    assert!(lock_kept(&Lock { actor: 0, order: LockOrder::Strict, jobs: vec![9, 1, 4] }, &tour));

    let mut problem = problem(vec![], vec![], &[]);
    problem.locks = vec![
        Lock { actor: 1, order: LockOrder::Strict, jobs: vec![9, 4] },
        Lock { actor: 0, order: LockOrder::Sequence, jobs: vec![9, 4] },
    ];
    assert!(problem.locks_kept(0, &tour));
    assert!(!problem.locks_kept(1, &tour));
    assert!(problem.locks_kept(2, &tour));
}

#[test]
fn a_job_does_not_go_between_the_jobs_of_a_strict_lock() {
    let jobs = || {
        vec![
            job(JobKind::Delivery, 1, (0, 1000), vec![1]),
            job(JobKind::Delivery, 3, (0, 1000), vec![1]),
            job(JobKind::Delivery, 2, (0, 1000), vec![1]),
        ]
    };
    let built = |order: LockOrder, watched: bool| {
        let mut modules = transport_and_capacity();
        if watched {
            modules.push(ConstraintModule::StrictLocking { code: 3 });
        }
        let mut problem = problem(jobs(), modules, &[]);
        problem.locks = vec![Lock { actor: 0, order, jobs: vec![0, 1] }];
        let seed = InsertionContext::new(&problem, Random::new(0));
        assert_eq!(seed.solution.routes[0].jobs(), vec![0, 1]);
        assert_eq!(seed.solution.required, vec![2]);
        let built = CheapestInsertion::insert_required(&problem, seed);
        assert!(built.solution.unassigned.is_empty());
        assert!(problem.is_feasible(&built.solution));
        built.solution.routes[0].jobs()
    };
    // on the way from the first job to the second the third costs no more way: it is the first cheapest place
    assert_eq!(built(LockOrder::Sequence, true), vec![0, 2, 1]);
    assert_eq!(built(LockOrder::Strict, false), vec![0, 2, 1]);
    assert_eq!(built(LockOrder::Strict, true), vec![0, 1, 2]);
}

#[test]
fn the_way_to_a_break_counts_from_the_arrival_at_the_stop_before_it() {
    let jobs = vec![
        Job { duration: 5, ..job(JobKind::Delivery, 1, (0, 1000), vec![1]) },
        Job { duration: 3, ..job(JobKind::Break, 3, (0, 1000), vec![]) },
        Job { duration: 4, ..job(JobKind::Break, 2, (0, 1000), vec![]) },
    ];
    let mut problem = problem(jobs, transport_and_capacity(), &[]);
    problem.locks = vec![Lock { actor: 0, order: LockOrder::Sequence, jobs: vec![0, 1, 2] }];
    let seed = InsertionContext::new(&problem, Random::new(0));
    let route = &seed.solution.routes[0];
    assert_eq!(route.tour.iter().map(|stop| stop.pause).collect::<Vec<_>>(), vec![false, false, true, true, false]);
    // the delivery is reached at 110 and left at 115; the way of 20 to the first break counts from 110;
    // the way of 10 to the second break counts from 130 and ends at 140, after the first break is over
    assert_eq!(times(route), vec![(100, 100), (110, 115), (130, 133), (140, 144), (164, 164)]);
    let statistic = problem.route_statistic(route);
    assert_eq!(statistic.distance, 60);
    assert_eq!((statistic.times.driving, statistic.times.serving, statistic.times.break_time), (60, 5, 7));
    assert_eq!(statistic.times.waiting, 0);
    assert_eq!(statistic.duration, 72);

    // a break that is close by is not reached before the stop before it is left
    let jobs = vec![
        Job { duration: 50, ..job(JobKind::Delivery, 1, (0, 1000), vec![1]) },
        Job { duration: 3, ..job(JobKind::Break, 2, (0, 1000), vec![]) },
    ];
    let mut problem = problem2(jobs);
    problem.locks = vec![Lock { actor: 0, order: LockOrder::Sequence, jobs: vec![0, 1] }];
    let seed = InsertionContext::new(&problem, Random::new(0));
    assert_eq!(times(&seed.solution.routes[0]), vec![(100, 100), (110, 160), (160, 163), (183, 183)]);
}

fn problem2(jobs: Vec<Job>) -> Problem {
    problem(jobs, transport_and_capacity(), &[])
}
