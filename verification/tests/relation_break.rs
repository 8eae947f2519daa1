use vrp_solver::construction::context::Individual;
use vrp_solver::construction::heuristics::CheapestInsertion;
use vrp_solver::format::api::{
    Coordinate, Fleet, Job, JobPlace, JobPlaces, JobVariant, Plan, Problem, Relation, RelationType,
    VehicleBreak, VehicleCosts, VehiclePlace, VehicleShift, VehicleType,
};
use vrp_solver::format::reader::PragmaticProblem;
use vrp_solver::models::problem::{JobKind, Matrix};
use vrp_solver::solver::decompose_search::DecomposeSearch;
use vrp_solver::solver::evolution::{
    EvolutionConfig, EvolutionSimulator, InitialBuilder, InitialConfig, PopulationConfig, RunSimple,
};
use vrp_solver::solver::population::Population;
use vrp_solver::solver::recreate::Recreate;
use vrp_solver::solver::telemetry::Telemetry;
use vrp_solver::solver::termination::MaxGeneration;
use vrp_solver::utils::random::Random;

#[derive(Debug, PartialEq)]
struct Timing {
    driving: u64,
    serving: u64,
    waiting: u64,
    break_time: u64,
}

#[derive(Debug, PartialEq)]
struct Statistic {
    cost: f64,
    distance: u64,
    duration: u64,
    times: Timing,
}

#[derive(Debug, PartialEq)]
struct Activity {
    job_id: String,
    activity_type: String,
}

#[derive(Debug, PartialEq)]
struct Stop {
    location: (f64, f64),
    time: (String, String),
    load: Vec<u64>,
    activities: Vec<Activity>,
}

#[derive(Debug, PartialEq)]
struct Tour {
    vehicle_id: String,
    type_id: String,
    stops: Vec<Stop>,
    statistic: Statistic,
}

#[derive(Debug, PartialEq)]
struct Extras {
    performance: Vec<String>,
}

#[derive(Debug, PartialEq)]
struct Solution {
    problem_id: String,
    statistic: Statistic,
    tours: Vec<Tour>,
    unassigned: Vec<String>,
    extras: Extras,
}

fn coordinate(location: Vec<f64>) -> Coordinate {
    Coordinate { lat: location[0].to_bits(), lng: location[1].to_bits() }
}

fn format_time(seconds: i64) -> String {
    chrono::DateTime::from_timestamp(seconds, 0)
        .unwrap()
        .to_rfc3339_opts(chrono::SecondsFormat::Secs, true)
}

fn create_delivery_job(id: &str, location: Vec<f64>) -> JobVariant {
    JobVariant::Single(Job {
        id: id.to_string(),
        places: JobPlaces {
            pickup: None,
            delivery: Some(JobPlace { location: coordinate(location), duration: 1, times: None }),
        },
        demand: vec![1],
        skills: None,
    })
}

fn create_default_vehicle_costs() -> VehicleCosts {
    VehicleCosts { fixed: Some(10), distance: 1, time: 1 }
}

fn create_default_vehicle_shift(vehicle_break: Option<VehicleBreak>) -> VehicleShift {
    VehicleShift {
        start: VehiclePlace { time: format_time(0), location: coordinate(vec![0., 0.]) },
        end: Some(VehiclePlace { time: format_time(1000), location: coordinate(vec![0., 0.]) }),
        breaks: vehicle_break.map(|pause| vec![pause]),
        reloads: None,
    }
}

fn create_stop_with_activity(
    id: &str,
    activity_type: &str,
    location: (f64, f64),
    load: u64,
    time: (&str, &str),
) -> Stop {
    Stop {
        location,
        time: (time.0.to_string(), time.1.to_string()),
        load: vec![load],
        activities: vec![Activity { job_id: id.to_string(), activity_type: activity_type.to_string() }],
    }
}

fn to_statistic(statistic: &vrp_solver::solver::objective::Statistic) -> Statistic {
    Statistic {
        cost: statistic.cost as f64,
        distance: statistic.distance,
        duration: statistic.duration,
        times: Timing {
            driving: statistic.times.driving,
            serving: statistic.times.serving,
            waiting: statistic.times.waiting,
            break_time: statistic.times.break_time,
        },
    }
}

fn create_solution(problem: &vrp_solver::models::problem::Problem, individual: &Individual) -> Solution {
    let tours = individual
        .solution
        .routes
        .iter()
        .map(|route| {
            let vehicle = &problem.fleet.vehicles[problem.fleet.actors[route.actor].vehicle];
            let vehicle_id = vehicle.dimens.id.clone().unwrap();
            let type_id = vehicle_id.rsplit_once('_').unwrap().0.to_string();
            let mut load: u64 = route
                .tour
                .iter()
                .filter_map(|stop| stop.job)
                .filter(|job| matches!(problem.jobs[*job].kind, JobKind::Delivery))
                .map(|job| problem.jobs[job].demand[0])
                .sum();
            let last = route.tour.len() - 1;
            let stops = route
                .tour
                .iter()
                .enumerate()
                .map(|(position, stop)| {
                    let (job_id, activity_type) = match stop.job {
                        Some(job) => {
                            let kind = match problem.jobs[job].kind {
                                JobKind::Delivery => {
                                    load -= problem.jobs[job].demand[0];
                                    "delivery"
                                }
                                JobKind::Pickup => {
                                    load += problem.jobs[job].demand[0];
                                    "pickup"
                                }
                                JobKind::Break => "break",
                            };
                            (problem.jobs[job].dimens.id.clone().unwrap(), kind.to_string())
                        }
                        None if position == last && position > 0 => {
                            ("arrival".to_string(), "arrival".to_string())
                        }
                        None => ("departure".to_string(), "departure".to_string()),
                    };
                    let place = problem.extras.coord_index.get_by_idx(stop.location).unwrap();
                    Stop {
                        location: (f64::from_bits(place.lat), f64::from_bits(place.lng)),
                        time: (format_time(stop.schedule.arrival), format_time(stop.schedule.departure)),
                        load: vec![load],
                        activities: vec![Activity { job_id, activity_type }],
                    }
                })
                .collect();
            Tour { vehicle_id, type_id, stops, statistic: to_statistic(&problem.route_statistic(route)) }
        })
        .collect();
    Solution {
        problem_id: problem.extras.problem_id.clone(),
        statistic: to_statistic(&problem.total_statistic(individual)),
        tours,
        unassigned: individual
            .solution
            .unassigned
            .iter()
            .map(|entry| problem.jobs[entry.job].dimens.id.clone().unwrap())
            .collect(),
        extras: Extras { performance: vec![] },
    }
}

fn solve_with_metaheuristic(problem: Problem, matrices: Vec<Matrix>) -> Solution {
    let problem = (problem, matrices).read_pragmatic().unwrap();
    let builder: Box<dyn InitialBuilder> = Box::new(CheapestInsertion::new());
    let config = EvolutionConfig {
        problem: &problem,
        population: PopulationConfig {
            initial: InitialConfig { size: 1, methods: vec![(builder, 1)], individuals: vec![] },
            variation: Some(Population::new(4)),
        },
        mutation: Box::new(DecomposeSearch::new(Box::new(Recreate::new()), 2)),
        termination: Box::new(MaxGeneration::new(10)),
        strategy: Box::new(RunSimple::new()),
        quota: None,
        random: Random::new(0),
        telemetry: Telemetry::new(),
    };
    let (population, _) = EvolutionSimulator::new(config).ok().unwrap().run().unwrap();
    create_solution(&problem, &population.ranked()[0])
}

#[test]
fn can_use_break_between_two_jobs_in_relation() {
    let relation_type = RelationType::Flexible;

    let problem = Problem {
        id: "my_problem".to_string(),
        plan: Plan {
            jobs: vec![create_delivery_job("job1", vec![1., 0.]), create_delivery_job("job2", vec![2., 0.])],
            relations: Some(vec![Relation {
                type_field: relation_type,
                jobs: vec!["job1".to_string(), "break".to_string(), "job2".to_string()],
                vehicle_id: "my_vehicle_1".to_string(),
            }]),
        },
        fleet: Fleet {
            types: vec![VehicleType {
                id: "my_vehicle".to_string(),
                profile: "car".to_string(),
                costs: create_default_vehicle_costs(),
                shifts: vec![create_default_vehicle_shift(Some(VehicleBreak {
                    times: vec![vec![format_time(0), format_time(1000)]],
                    duration: 2,
                    location: Some(coordinate(vec![3., 0.])),
                }))],
                capacity: vec![10],
                amount: 1,
                skills: None,
                limits: None,
            }],
        },
        config: None,
    };
    let matrix = Matrix {
        num_origins: 4,
        num_destinations: 4,
        travel_times: vec![0, 1, 1, 2, 1, 0, 2, 1, 1, 2, 0, 3, 2, 1, 3, 0],
        distances: vec![0, 1, 1, 2, 1, 0, 2, 1, 1, 2, 0, 3, 2, 1, 3, 0],
        error_codes: Option::None,
    };

    let solution = solve_with_metaheuristic(problem, vec![matrix]);

    assert_eq!(
        solution,
        Solution {
            problem_id: "my_problem".to_string(),
            statistic: Statistic {
                cost: 26.,
                distance: 6,
                duration: 10,
                times: Timing { driving: 6, serving: 2, waiting: 0, break_time: 2 },
            },
            tours: vec![Tour {
                vehicle_id: "my_vehicle_1".to_string(),
                type_id: "my_vehicle".to_string(),
                stops: vec![
                    create_stop_with_activity(
                        "departure",
                        "departure",
                        (0., 0.),
                        2,
                        ("1970-01-01T00:00:00Z", "1970-01-01T00:00:00Z"),
                    ),
                    create_stop_with_activity(
                        "job1",
                        "delivery",
                        (1., 0.),
                        1,
                        ("1970-01-01T00:00:01Z", "1970-01-01T00:00:02Z"),
                    ),
                    create_stop_with_activity(
                        "break",
                        "break",
                        (3., 0.),
                        1,
                        ("1970-01-01T00:00:03Z", "1970-01-01T00:00:05Z"),
                    ),
                    create_stop_with_activity(
                        "job2",
                        "delivery",
                        (2., 0.),
                        0,
                        ("1970-01-01T00:00:06Z", "1970-01-01T00:00:07Z"),
                    ),
                    create_stop_with_activity(
                        "arrival",
                        "arrival",
                        (0., 0.),
                        0,
                        ("1970-01-01T00:00:09Z", "1970-01-01T00:00:09Z"),
                    )
                ],
                statistic: Statistic {
                    cost: 26.,
                    distance: 6,
                    duration: 10,
                    times: Timing { driving: 6, serving: 2, waiting: 0, break_time: 2 },
                },
            }],
            unassigned: vec![],
            extras: Extras { performance: vec![] },
        }
    );
}
