use vrp_solver::construction::constraints::{ConstraintModule, ConstraintPipeline};
use vrp_solver::construction::context::{
    Activity, InsertionContext, Registry, RouteContext, SolutionContext, Unassigned,
};
use vrp_solver::construction::metrics::{get_medoid, medoid_of};
use vrp_solver::format::coord_index::CoordIndex;
use vrp_solver::models::common::{Schedule, TimeWindow};
use vrp_solver::models::problem::{
    Costs, Dimensions, Driver, Extras, Fleet, Job, JobKind, Matrix, ObjectiveCost, Problem, TransportCost,
    TravelLimits, Vehicle, VehicleDetail, VehiclePlace,
};
use vrp_solver::solver::decompose_search::{
    create_empty_individuals, create_multiple_individuals, create_partial_individual, decompose_individual,
    DecomposeSearch,
};
use vrp_solver::solver::decomposition::{
    group_routes, medoid_distance, route_groups_distances, sort_route_distances, RouteDistance,
    MAX_ROUTES_PER_INDIVIDUAL,
};
use vrp_solver::solver::mutation::Mutation;
use vrp_solver::solver::population::Population;
use vrp_solver::solver::recreate::Recreate;
use vrp_solver::solver::refinement::RefinementContext;
use vrp_solver::utils::random::Random;

fn no_costs() -> Costs {
    Costs { fixed: 0, per_distance: 0, per_driving_time: 0, per_waiting_time: 0, per_service_time: 0 }
}

fn matrix(size: usize, distance: &dyn Fn(usize, usize) -> i64) -> Matrix {
    let mut entries = vec![];
    for from in 0..size {
        for to in 0..size {
            entries.push(distance(from, to));
        }
    }
    Matrix {
        num_origins: size,
        num_destinations: size,
        travel_times: entries.clone(),
        distances: entries,
        error_codes: None,
    }
}

/// A problem with one vehicle and one job at each of `size` places; the vehicle at a place starts there.
fn problem_with(size: usize, distance: &dyn Fn(usize, usize) -> i64) -> Problem {
    let drivers = vec![Driver { costs: no_costs(), dimens: Dimensions::new(), details: vec![] }];
    let vehicles = (0..size)
        .map(|place| Vehicle {
            profile: 0,
            costs: Costs { per_distance: 1, ..no_costs() },
            dimens: Dimensions::new(),
            capacity: vec![10],
            limits: TravelLimits::none(),
            details: vec![VehicleDetail {
                start: Some(VehiclePlace { location: place, time: 0 }),
                end: None,
            }],
        })
        .collect();
    let jobs = (0..size)
        .map(|place| Job {
            kind: JobKind::Delivery,
            location: Some(place),
            duration: 1,
            time: TimeWindow::new(0, 1000),
            demand: vec![1],
            vehicle: None,
            dimens: Dimensions::new(),
        })
        .collect();
    let mut constraint = ConstraintPipeline::new();
    constraint.add_module(ConstraintModule::Transport { code: 1 });
    constraint.add_module(ConstraintModule::Capacity { code: 2, multi_dimensional: false });
    Problem {
        fleet: Fleet::new(drivers, vehicles),
        jobs,
        locks: vec![],
        constraint,
        transport: TransportCost::new(vec![matrix(size, distance)]),
        objective: ObjectiveCost { unassigned_penalty: 1000 },
        extras: Extras {
            problem_id: String::new(),
            capacity_type: String::new(),
            coord_index: CoordIndex::new(),
        },
    }
}

fn stop(location: usize, job: Option<usize>) -> Activity {
    Activity {
        location,
        duration: if job.is_some() { 1 } else { 0 },
        time: TimeWindow::new(0, 1000),
        schedule: Schedule { arrival: 0, departure: 0 },
        job,
        pause: false,
    }
}

/// The route of the vehicle at `place` that serves the job at the same place.
fn route_at(problem: &Problem, place: usize) -> RouteContext {
    let mut route = RouteContext::new(place, vec![stop(place, None), stop(place, Some(place))]);
    problem.accept_route_state(&mut route);
    route
}

fn individual_with(problem: &Problem, places: &[usize], required: Vec<usize>) -> InsertionContext {
    let mut registry = Registry::new(problem.fleet.actors.len());
    let routes: Vec<RouteContext> = places.iter().map(|place| route_at(problem, *place)).collect();
    routes.iter().for_each(|route| registry.use_route(route));
    InsertionContext {
        solution: SolutionContext {
            required,
            ignored: vec![],
            unassigned: vec![],
            locked: vec![],
            routes,
            registry,
            state: vec![],
        },
        random: Random::new(7),
    }
}

fn line(from: usize, to: usize) -> i64 {
    (from as i64 - to as i64).abs()
}

/// Places on a line where there is no way between the place `0` and the place `2`.
fn broken_line(from: usize, to: usize) -> i64 {
    if (from == 0 && to == 2) || (from == 2 && to == 0) {
        -1
    } else {
        line(from, to)
    }
}

fn served(individual: &InsertionContext) -> Vec<usize> {
    let mut jobs: Vec<usize> = individual.solution.routes.iter().flat_map(|route| route.jobs()).collect();
    jobs.sort();
    jobs
}

fn compositions(individual: &InsertionContext) -> Vec<(usize, Vec<(usize, Option<usize>)>)> {
    let mut routes: Vec<(usize, Vec<(usize, Option<usize>)>)> = individual
        .solution
        .routes
        .iter()
        .map(|route| (route.actor, route.tour.iter().map(|stop| (stop.location, stop.job)).collect()))
        .collect();
    routes.sort();
    routes
}

#[test]
fn medoid_of_a_single_stop_is_its_location() {
    let transport = TransportCost::new(vec![matrix(3, &|_, _| -1)]);
    assert_eq!(medoid_of(&transport, 0, &vec![2]), Some(2));
    assert_eq!(medoid_of(&transport, 5, &vec![1]), Some(1));
}

#[test]
fn medoid_of_no_stop_is_nothing() {
    let transport = TransportCost::new(vec![matrix(3, &line)]);
    assert_eq!(medoid_of(&transport, 0, &vec![]), None);
}

#[test]
fn medoid_is_the_stop_with_the_least_sum_of_distances() {
    let transport = TransportCost::new(vec![matrix(5, &line)]);
    // sums: 0 -> 1 + 4 = 5, 1 -> 1 + 3 = 4, 4 -> 4 + 3 = 7
    assert_eq!(medoid_of(&transport, 0, &vec![0, 1, 4]), Some(1));
    // sums: 4 -> 3 + 4 = 7, 1 -> 3 + 1 = 4, 0 -> 4 + 1 = 5
    assert_eq!(medoid_of(&transport, 0, &vec![4, 1, 0]), Some(1));
}

#[test]
fn medoid_takes_the_first_of_equal_sums() {
    let transport = TransportCost::new(vec![matrix(4, &line)]);
    assert_eq!(medoid_of(&transport, 0, &vec![3, 1]), Some(3));
    assert_eq!(medoid_of(&transport, 0, &vec![1, 3]), Some(1));
}

#[test]
fn medoid_counts_a_pair_without_a_way_as_zero_and_passes_over_cut_off_stops() {
    let transport = TransportCost::new(vec![matrix(3, &broken_line)]);
    // 0 -> 0 (no way to 2) + 1 = 1, 2 -> 0 + 1 = 1, 1 -> 1 + 1 = 2: the first of the two cheapest
    assert_eq!(medoid_of(&transport, 0, &vec![0, 2, 1]), Some(0));
    // the two stops have no way to each other: none can be the medoid
    assert_eq!(medoid_of(&transport, 0, &vec![0, 2]), None);
    // a profile without a matrix knows no way at all
    assert_eq!(medoid_of(&transport, 1, &vec![0, 1]), None);
}

#[test]
fn medoid_of_a_route_is_taken_under_the_profile_of_its_vehicle() {
    let problem = problem_with(5, &line);
    let mut route = RouteContext::new(0, vec![stop(0, None), stop(1, Some(1)), stop(4, Some(4))]);
    problem.accept_route_state(&mut route);
    assert_eq!(get_medoid(&route, &problem), Some(1));
    assert_eq!(get_medoid(&RouteContext::new(0, vec![]), &problem), None);
}

#[test]
fn distances_between_medoids_are_absent_without_a_way() {
    let transport = TransportCost::new(vec![matrix(3, &broken_line)]);
    assert_eq!(medoid_distance(&transport, 0, Some(0), Some(1)), Some(1));
    assert_eq!(medoid_distance(&transport, 0, Some(0), Some(2)), None);
    assert_eq!(medoid_distance(&transport, 0, None, Some(2)), None);
    assert_eq!(medoid_distance(&transport, 0, Some(1), None), None);
}

fn entries(list: &Vec<RouteDistance>) -> Vec<(usize, Option<u64>)> {
    list.iter().map(|entry| (entry.index, entry.distance)).collect()
}

#[test]
fn route_distances_are_sorted_with_absent_ones_last_and_ties_in_order() {
    let list = vec![
        RouteDistance { index: 0, distance: None },
        RouteDistance { index: 1, distance: Some(5) },
        RouteDistance { index: 2, distance: Some(2) },
        RouteDistance { index: 3, distance: None },
        RouteDistance { index: 4, distance: Some(2) },
        RouteDistance { index: 5, distance: Some(0) },
    ];
    assert_eq!(
        entries(&sort_route_distances(&list)),
        vec![(5, Some(0)), (2, Some(2)), (4, Some(2)), (1, Some(5)), (0, None), (3, None)]
    );
}

#[test]
fn every_route_lists_the_other_routes_from_the_closest() {
    let transport = TransportCost::new(vec![matrix(4, &line)]);
    let lists = route_groups_distances(&transport, 0, &vec![Some(0), Some(3), Some(1), None]);
    assert_eq!(lists.len(), 4);
    assert_eq!(entries(&lists[0]), vec![(2, Some(1)), (1, Some(3)), (3, None)]);
    assert_eq!(entries(&lists[1]), vec![(2, Some(2)), (0, Some(3)), (3, None)]);
    assert_eq!(entries(&lists[2]), vec![(0, Some(1)), (1, Some(2)), (3, None)]);
    assert_eq!(entries(&lists[3]), vec![(0, None), (1, None), (2, None)]);
}

#[test]
fn groups_hold_every_route_exactly_once() {
    let transport = TransportCost::new(vec![matrix(8, &line)]);
    let medoids: Vec<Option<usize>> = vec![Some(0), Some(7), Some(1), Some(6), Some(2), Some(5), Some(3), None];
    let groups = group_routes(&route_groups_distances(&transport, 0, &medoids));
    assert_eq!(groups, vec![vec![2, 4, 0], vec![3, 5, 1], vec![6], vec![7]]);
    let mut all: Vec<usize> = groups.iter().flatten().cloned().collect();
    all.sort();
    assert_eq!(all, (0..8).collect::<Vec<_>>());
    assert!(groups.iter().all(|group| !group.is_empty() && group.len() <= MAX_ROUTES_PER_INDIVIDUAL));
}

#[test]
fn no_routes_form_no_group() {
    let transport = TransportCost::new(vec![matrix(2, &line)]);
    assert!(group_routes(&route_groups_distances(&transport, 0, &vec![])).is_empty());
}

#[test]
fn one_route_is_not_decomposed() {
    let problem = problem_with(3, &line);
    let individual = individual_with(&problem, &[1], vec![]);
    let parts = create_multiple_individuals(&individual, &problem).unwrap();
    assert_eq!(parts.len(), 1);
    let refinement_ctx = RefinementContext::new(&problem, Population::new(2), None);
    assert!(decompose_individual(&refinement_ctx, &individual).is_none());
}

#[test]
fn an_individual_without_routes_is_not_split() {
    let problem = problem_with(3, &line);
    let individual = individual_with(&problem, &[], vec![0, 1]);
    assert!(create_multiple_individuals(&individual, &problem).is_none());
    let refinement_ctx = RefinementContext::new(&problem, Population::new(2), None);
    assert!(decompose_individual(&refinement_ctx, &individual).is_none());
}

#[test]
fn three_routes_fall_into_two_parts_where_two_of_them_have_no_way_between() {
    let problem = problem_with(3, &broken_line);
    let individual = individual_with(&problem, &[0, 1, 2], vec![]);
    let parts = create_multiple_individuals(&individual, &problem).unwrap();
    assert_eq!(parts.len(), 2);
    assert_eq!(parts[0].solution.routes.iter().map(|route| route.actor).collect::<Vec<_>>(), vec![1, 0]);
    assert_eq!(parts[1].solution.routes.iter().map(|route| route.actor).collect::<Vec<_>>(), vec![2]);
    assert_eq!(parts[0].solution.registry.all, vec![0, 1]);
    assert_eq!(parts[1].solution.registry.all, vec![2]);
    assert!(parts.iter().all(|part| part.solution.registry.available.is_empty()));
    assert!(parts.iter().all(|part| part.solution.required.is_empty()));

    let refinement_ctx = RefinementContext::new(&problem, Population::new(2), None);
    let contexts = decompose_individual(&refinement_ctx, &individual).unwrap();
    assert_eq!(contexts.len(), 2);
    assert!(contexts.iter().all(|ctx| ctx.population.size() == 1 && ctx.population.max_size == 1));

    let search = DecomposeSearch::new(Box::new(Recreate::new()), 2);
    let merged = search.refine_decomposed(&refinement_ctx, individual.random, contexts);
    assert_eq!(served(&merged), vec![0, 1, 2]);
    assert_eq!(compositions(&merged), compositions(&individual));
    assert_eq!(merged.solution.registry.all, vec![0, 1, 2]);
    assert!(merged.solution.registry.available.is_empty());
}

#[test]
fn three_routes_with_ways_between_all_of_them_form_one_group() {
    let problem = problem_with(3, &line);
    let individual = individual_with(&problem, &[0, 1, 2], vec![]);
    let parts = create_multiple_individuals(&individual, &problem).unwrap();
    assert_eq!(parts.len(), 1);
    assert_eq!(parts[0].solution.routes.iter().map(|route| route.actor).collect::<Vec<_>>(), vec![1, 2, 0]);
}

#[test]
fn required_jobs_are_carried_by_a_part_of_their_own() {
    let problem = problem_with(8, &line);
    let individual = individual_with(&problem, &[0, 1, 2, 5], vec![7]);
    let carriers = create_empty_individuals(&individual);
    assert_eq!(carriers.len(), 1);
    assert_eq!(carriers[0].solution.required, vec![7]);
    assert!(carriers[0].solution.routes.is_empty());
    assert_eq!(carriers[0].solution.registry.available, vec![3, 4, 6, 7]);

    let parts = create_multiple_individuals(&individual, &problem).unwrap();
    assert_eq!(parts.len(), 3);
    assert_eq!(parts[2].solution.required, vec![7]);

    let mut population = Population::new(2);
    population.add(&problem, individual.deep_copy());
    let refinement_ctx = RefinementContext::new(&problem, population, None);
    let without_rounds = DecomposeSearch::new(Box::new(Recreate::new()), 0);
    let merged = without_rounds.mutate_one(&refinement_ctx, &individual);
    assert_eq!(merged.solution.required, vec![7]);
    assert_eq!(served(&merged), vec![0, 1, 2, 5]);
    assert_eq!(compositions(&merged), compositions(&individual));
    assert_eq!(merged.solution.registry.available, vec![3, 4, 6, 7]);

    let with_rounds = DecomposeSearch::new(Box::new(Recreate::new()), 1);
    let refined = with_rounds.mutate_one(&refinement_ctx, &individual);
    assert!(refined.solution.required.is_empty());
    assert_eq!(served(&refined), vec![0, 1, 2, 5, 7]);
}

#[test]
fn no_part_carries_jobs_where_none_is_required_or_unassigned() {
    let problem = problem_with(3, &line);
    let mut individual = individual_with(&problem, &[0], vec![]);
    individual.solution.ignored = vec![2];
    assert!(create_empty_individuals(&individual).is_empty());
    individual.solution.unassigned = vec![Unassigned { job: 1, code: 2 }];
    let carriers = create_empty_individuals(&individual);
    assert_eq!(carriers.len(), 1);
    assert_eq!(carriers[0].solution.ignored, vec![2]);
    assert_eq!(carriers[0].solution.unassigned.len(), 1);
    assert_eq!((carriers[0].solution.unassigned[0].job, carriers[0].solution.unassigned[0].code), (1, 2));
}

#[test]
fn a_part_keeps_the_locked_jobs_that_its_routes_serve() {
    let problem = problem_with(4, &line);
    let mut individual = individual_with(&problem, &[0, 1, 3], vec![]);
    individual.solution.locked = vec![3, 0, 2];
    let part = create_partial_individual(&individual, &vec![2, 0]);
    assert_eq!(part.solution.locked, vec![3, 0]);
    assert_eq!(part.solution.routes.iter().map(|route| route.actor).collect::<Vec<_>>(), vec![3, 0]);
    assert_eq!(part.solution.registry.all, vec![0, 3]);
    assert_eq!(part.random.state, individual.random.state);
}

#[test]
fn decomposition_falls_back_to_the_inner_mutation() {
    let problem = problem_with(3, &line);
    let individual = individual_with(&problem, &[1], vec![0]);
    let refinement_ctx = RefinementContext::new(&problem, Population::new(2), None);
    let search = DecomposeSearch::new(Box::new(Recreate::new()), 3);
    let mutated = search.mutate_one(&refinement_ctx, &individual);
    assert!(mutated.solution.required.is_empty());
    assert_eq!(served(&mutated), vec![0, 1]);
    let all = search.mutate_all(&refinement_ctx, vec![&individual, &individual]);
    assert_eq!(all.len(), 2);
    assert_eq!(compositions(&all[0]), compositions(&mutated));
    assert_eq!(compositions(&all[1]), compositions(&mutated));
}

#[test]
fn the_same_individual_is_mutated_to_the_same_result() {
    let problem = problem_with(6, &line);
    let individual = individual_with(&problem, &[0, 2, 4, 5], vec![1, 3]);
    let mut population = Population::new(2);
    population.add(&problem, individual.deep_copy());
    let refinement_ctx = RefinementContext::new(&problem, population, None);
    let search = DecomposeSearch::new(Box::new(Recreate::new()), 2);
    let first = search.mutate_one(&refinement_ctx, &individual);
    let second = search.mutate_one(&refinement_ctx, &individual);
    assert_eq!(compositions(&first), compositions(&second));
    assert_eq!(first.solution.required, second.solution.required);
    assert_eq!(first.random.state, second.random.state);
    let mut jobs = served(&first);
    jobs.extend(first.solution.required.iter().cloned());
    jobs.extend(first.solution.unassigned.iter().map(|entry| entry.job));
    jobs.sort();
    assert_eq!(jobs, vec![0, 1, 2, 3, 4, 5]);
}

#[test]
fn a_route_is_feasible_while_no_module_objects() {
    let problem = problem_with(5, &line);
    assert!(problem.is_route_feasible(&route_at(&problem, 3)));
    let mut early = stop(4, Some(4));
    early.time = TimeWindow::new(0, 3);
    let late = RouteContext::new(0, vec![stop(0, None), early]);
    assert!(!problem.is_route_feasible(&late));
    early.time = TimeWindow::new(0, 4);
    let in_time = RouteContext::new(0, vec![stop(0, None), early]);
    assert!(problem.is_route_feasible(&in_time));

    let mut heavy = problem_with(2, &line);
    heavy.jobs[1].demand = vec![11];
    assert!(!heavy.is_route_feasible(&route_at(&heavy, 1)));
    assert!(heavy.is_route_feasible(&route_at(&heavy, 0)));
    let individual = individual_with(&heavy, &[0, 1], vec![]);
    assert!(!heavy.is_feasible(&individual.solution));
    assert!(heavy.is_feasible(&individual_with(&heavy, &[0], vec![1]).solution));
    assert!(heavy.is_feasible(&individual_with(&heavy, &[], vec![0, 1]).solution));
}

#[test]
fn a_route_with_a_stop_that_cannot_be_reached_is_not_feasible() {
    let mut problem = problem_with(3, &broken_line);
    let across = RouteContext::new(0, vec![stop(0, None), stop(2, Some(2))]);
    assert!(problem.is_route_feasible(&across));
    problem.constraint.add_module(ConstraintModule::Reachable { code: 11 });
    assert!(!problem.is_route_feasible(&across));
    let around = RouteContext::new(0, vec![stop(0, None), stop(1, Some(1)), stop(2, Some(2))]);
    assert!(problem.is_route_feasible(&around));
}

#[test]
fn inserted_jobs_leave_the_routes_feasible() {
    let problem = problem_with(6, &line);
    let individual = individual_with(&problem, &[0, 4], vec![1, 2, 3, 5]);
    assert!(problem.is_feasible(&individual.solution));
    let built = vrp_solver::construction::heuristics::CheapestInsertion::insert_required(&problem, individual);
    assert!(built.solution.required.is_empty());
    assert!(problem.is_feasible(&built.solution));
    assert_eq!(served(&built), vec![0, 1, 2, 3, 4, 5]);
}

#[test]
fn the_merged_individual_is_feasible_exactly_if_the_best_of_every_part_is() {
    let problem = problem_with(3, &broken_line);
    let individual = individual_with(&problem, &[0, 1, 2], vec![]);
    let refinement_ctx = RefinementContext::new(&problem, Population::new(2), None);
    let search = DecomposeSearch::new(Box::new(Recreate::new()), 1);
    let contexts = decompose_individual(&refinement_ctx, &individual).unwrap();
    let merged = search.refine_decomposed(&refinement_ctx, individual.random, contexts);
    assert!(problem.is_feasible(&merged.solution));

    let mut heavy = problem_with(3, &broken_line);
    heavy.jobs[2].demand = vec![11];
    let individual = individual_with(&heavy, &[0, 1, 2], vec![]);
    let refinement_ctx = RefinementContext::new(&heavy, Population::new(2), None);
    let contexts = decompose_individual(&refinement_ctx, &individual).unwrap();
    let bests: Vec<bool> = contexts
        .iter()
        .map(|ctx| heavy.is_feasible(&search.refine_part(RefinementContext::new(&heavy, Population::greedy(
            Some(ctx.population.ranked()[0].deep_copy()),
        ), None)).ranked()[0].solution))
        .collect();
    assert_eq!(bests, vec![true, false]);
    let merged = search.refine_decomposed(&refinement_ctx, individual.random, contexts);
    assert!(!heavy.is_feasible(&merged.solution));
}

#[test]
fn the_actors_without_a_route_are_the_available_ones_after_an_insertion() {
    let mut problem = problem_with(4, &line);
    // the job at the last place fits no route but one of its own
    problem.jobs[3].time = TimeWindow::new(0, 0);
    let start = InsertionContext::new(&problem, Random::new(1));
    assert_eq!(start.solution.registry.available, vec![0, 1, 2, 3]);
    let built = vrp_solver::construction::heuristics::CheapestInsertion::insert_required(&problem, start);
    let mut running: Vec<usize> = built.solution.routes.iter().map(|route| route.actor).collect();
    running.sort();
    running.dedup();
    assert_eq!(running.len(), built.solution.routes.len());
    let free: Vec<usize> = (0..4).filter(|actor| !running.contains(actor)).collect();
    assert_eq!(built.solution.registry.available, free);
    assert!(built.solution.routes.len() >= 2);
    assert!(problem.is_feasible(&built.solution));
}

#[test]
fn a_stop_without_a_way_to_the_others_can_be_the_medoid() {
    // the place `3` has no way to any other place; its sum of distances, nothing, is the least
    let cut_off = |from: usize, to: usize| if (from == 3) != (to == 3) { -1 } else { line(from, to) };
    let transport = TransportCost::new(vec![matrix(4, &cut_off)]);
    assert_eq!(medoid_of(&transport, 0, &vec![0, 1, 3]), Some(3));
    assert_eq!(medoid_of(&transport, 0, &vec![0, 1]), Some(0));
    // where no stop has a way to another, there is no medoid
    assert_eq!(medoid_of(&transport, 0, &vec![0, 3]), None);
    assert_eq!(medoid_of(&transport, 0, &vec![3]), Some(3));
}

#[test]
fn ignored_jobs_are_carried_along_with_the_required_ones() {
    let problem = problem_with(5, &broken_line);
    let mut individual = individual_with(&problem, &[0, 1, 2], vec![3]);
    individual.solution.ignored = vec![4];
    let mut population = Population::new(2);
    population.add(&problem, individual.deep_copy());
    let refinement_ctx = RefinementContext::new(&problem, population, None);
    let search = DecomposeSearch::new(Box::new(Recreate::new()), 2);
    assert!(decompose_individual(&refinement_ctx, &individual).is_some());
    let mutated = search.mutate_one(&refinement_ctx, &individual);
    assert_eq!(mutated.solution.ignored, vec![4]);
    let mut known = served(&mutated);
    known.extend(mutated.solution.required.iter().cloned());
    known.extend(mutated.solution.unassigned.iter().map(|entry| entry.job));
    known.extend(mutated.solution.ignored.iter().cloned());
    known.sort();
    assert_eq!(known, vec![0, 1, 2, 3, 4]);
}

#[test]
fn distances_between_medoids_are_listed_pair_by_pair() {
    let problem = problem_with(5, &broken_line);
    let individual = individual_with(&problem, &[0, 2, 4, 1], vec![]);
    // medoids 0, 2, 4, 1; there is no way between 0 and 2
    assert_eq!(
        vrp_solver::construction::metrics::medoid_distances(&problem, &individual),
        vec![0, 4, 1, 2, 1, 3]
    );
    assert!(vrp_solver::construction::metrics::medoid_distances(&problem, &individual_with(&problem, &[], vec![0]))
        .is_empty());
    assert!(vrp_solver::construction::metrics::medoid_distances(&problem, &individual_with(&problem, &[3], vec![]))
        .is_empty());
}
