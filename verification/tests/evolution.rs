use std::cell::Cell;
use vrp_solver::construction::context::InsertionContext;
use vrp_solver::construction::heuristics::CheapestInsertion;
use vrp_solver::construction::validity::{fits, note_jobs};
use vrp_solver::models::examples::create_example_problem;
use vrp_solver::models::problem::Problem;
use vrp_solver::solver::evolution::{
    decide_add_solution, decide_stop, on_generation, should_add_solution, should_stop, EvolutionConfig,
    EvolutionSimulator, EvolutionStrategy, InitialBuilder, InitialConfig, PopulationConfig, RunSimple,
};
use vrp_solver::solver::mutation::Mutation;
use vrp_solver::solver::objective::Fitness;
use vrp_solver::solver::population::Population;
use vrp_solver::solver::recreate::Recreate;
use vrp_solver::solver::refinement::{Quota, RefinementContext};
use vrp_solver::solver::telemetry::{Telemetry, TelemetryEvent};
use vrp_solver::solver::termination::{any_of, largest_of, CompositeTermination, MaxGeneration, Termination};
use vrp_solver::utils::random::Random;

struct Reached {}

impl Quota for Reached {
    fn is_reached(&self) -> bool {
        true
    }
}

/// A quota that is reached after it was asked `limit` times.
struct AfterCalls {
    calls: Cell<usize>,
    limit: usize,
}

impl Quota for AfterCalls {
    fn is_reached(&self) -> bool {
        self.calls.set(self.calls.get() + 1);
        self.calls.get() > self.limit
    }
}

fn config<'a>(
    problem: &'a Problem,
    size: usize,
    methods: Vec<(Box<dyn InitialBuilder>, usize)>,
    variation: Option<Population>,
    quota: Option<&'a dyn Quota>,
) -> EvolutionConfig<'a> {
    EvolutionConfig {
        problem,
        population: PopulationConfig { initial: InitialConfig { size, methods, individuals: vec![] }, variation },
        mutation: Box::new(Recreate::new()),
        termination: Box::new(MaxGeneration::new(3)),
        strategy: Box::new(RunSimple::new()),
        quota,
        random: Random::new(1),
        telemetry: Telemetry::new(),
    }
}

fn cheapest() -> Vec<(Box<dyn InitialBuilder>, usize)> {
    let builder: Box<dyn InitialBuilder> = Box::new(CheapestInsertion::new());
    vec![(builder, 1)]
}

#[test]
fn a_solution_is_always_added_to_an_empty_population() {
    let problem = create_example_problem();
    let quota = Reached {};
    let mut refinement_ctx = RefinementContext::new(&problem, Population::new(3), Some(&quota));
    assert!(should_add_solution(&refinement_ctx));
    refinement_ctx.population.add(&problem, InsertionContext::new(&problem, Random::new(0)));
    assert!(!should_add_solution(&refinement_ctx));
    let without_quota = RefinementContext::new(&problem, Population::new(3), None);
    assert!(should_add_solution(&without_quota));
}

#[test]
fn the_decision_to_add_follows_the_quota_and_the_size() {
    assert!(decide_add_solution(true, 0));
    assert!(decide_add_solution(false, 0));
    assert!(decide_add_solution(false, 3));
    assert!(!decide_add_solution(true, 3));
}

#[test]
fn the_decision_to_stop_follows_termination_and_quota() {
    assert!(!decide_stop(false, false));
    assert!(decide_stop(true, false));
    assert!(decide_stop(false, true));
    assert!(decide_stop(true, true));
}

#[test]
fn a_run_stops_when_the_quota_is_reached() {
    let problem = create_example_problem();
    let quota = Reached {};
    let never = MaxGeneration::new(100);
    let mut stopped = RefinementContext::new(&problem, Population::new(3), Some(&quota));
    assert!(should_stop(&mut stopped, &never));
    let mut running = RefinementContext::new(&problem, Population::new(3), None);
    assert!(!should_stop(&mut running, &never));
    assert!(should_stop(&mut running, &MaxGeneration::new(0)));
}

#[test]
fn a_simulator_needs_a_building_method() {
    let problem = create_example_problem();
    let result = EvolutionSimulator::new(config(&problem, 1, vec![], Some(Population::new(2)), None));
    assert_eq!(result.err(), Some("at least one initial method has to be specified".to_string()));
    assert!(EvolutionSimulator::new(config(&problem, 1, cheapest(), Some(Population::new(2)), None)).is_ok());
}

#[test]
fn a_run_needs_a_population_to_fill() {
    let problem = create_example_problem();
    let simulator = EvolutionSimulator::new(config(&problem, 1, cheapest(), None, None)).ok().unwrap();
    assert_eq!(simulator.run().err(), Some("population variation has to be specified".to_string()));
}

#[test]
fn the_initial_population_is_built_and_reported() {
    let problem = create_example_problem();
    let mut simulator =
        EvolutionSimulator::new(config(&problem, 3, cheapest(), Some(Population::new(5)), None)).ok().unwrap();
    let refinement_ctx = simulator.create_refinement_ctx().ok().unwrap();
    assert_eq!(refinement_ctx.population.size(), 3);
    assert_eq!(refinement_ctx.statistics.generation, 1);
    let events = &simulator.config.telemetry.events;
    assert_eq!(events.len(), 5);
    assert!(matches!(events[0], TelemetryEvent::ProblemSize { jobs: 1, actors: 1 }));
    assert!(matches!(events[1], TelemetryEvent::Initial { index: 0, total: 3 }));
    assert!(matches!(events[2], TelemetryEvent::Initial { index: 1, total: 3 }));
    assert!(matches!(events[3], TelemetryEvent::Initial { index: 2, total: 3 }));
    assert!(matches!(
        events[4],
        TelemetryEvent::Generation { generation: 0, is_improved: true, population_size: 3, .. }
    ));
    let best = &refinement_ctx.population.ranked()[0];
    assert!(best.solution.required.is_empty());
    assert_eq!(best.solution.routes.len(), 1);
    assert_eq!(best.solution.routes[0].jobs(), vec![0]);
}

#[test]
fn building_stops_when_the_quota_is_reached() {
    let problem = create_example_problem();
    // the quota is asked before and after each building: it is reached once two individuals are in
    let quota = AfterCalls { calls: Cell::new(0), limit: 4 };
    let mut simulator =
        EvolutionSimulator::new(config(&problem, 5, cheapest(), Some(Population::new(10)), Some(&quota)))
            .ok()
            .unwrap();
    let refinement_ctx = simulator.create_refinement_ctx().ok().unwrap();
    assert_eq!(refinement_ctx.population.size(), 2);
    // every building draws once: two draws were made, and no third
    let mut draws = Random::new(1);
    draws.next();
    draws.next();
    assert_eq!(simulator.config.random.state, draws.state);
    let events = &simulator.config.telemetry.events;
    assert_eq!(events.len(), 5);
    assert!(matches!(events[events.len() - 1], TelemetryEvent::Generation { is_improved: true, .. }));
    assert!(matches!(events[events.len() - 2], TelemetryEvent::SkippedBuilt { index: 2 }));
}

#[test]
fn an_empty_initial_population_is_reported() {
    let problem = create_example_problem();
    let mut simulator =
        EvolutionSimulator::new(config(&problem, 0, cheapest(), Some(Population::new(5)), None)).ok().unwrap();
    let refinement_ctx = simulator.create_refinement_ctx().ok().unwrap();
    assert_eq!(refinement_ctx.population.size(), 0);
    let events = &simulator.config.telemetry.events;
    assert_eq!(events.len(), 2);
    assert!(matches!(events[1], TelemetryEvent::EmptyPopulation));
}

#[test]
fn provided_individuals_are_taken_up_to_the_size() {
    let problem = create_example_problem();
    let mut config = config(&problem, 2, cheapest(), Some(Population::new(5)), None);
    config.population.initial.individuals = (0..3)
        .map(|seed| CheapestInsertion::insert_required(&problem, InsertionContext::new(&problem, Random::new(seed))))
        .collect();
    let mut simulator = EvolutionSimulator::new(config).ok().unwrap();
    let refinement_ctx = simulator.create_refinement_ctx().ok().unwrap();
    assert_eq!(refinement_ctx.population.size(), 2);
    let seeds: Vec<u64> = refinement_ctx.population.ranked().iter().map(|member| member.random.state).collect();
    assert_eq!(seeds, vec![0, 1]);
}

#[test]
fn a_run_evolves_until_the_last_generation() {
    let problem = create_example_problem();
    let simulator =
        EvolutionSimulator::new(config(&problem, 2, cheapest(), Some(Population::new(4)), None)).ok().unwrap();
    let (population, metrics) = simulator.run().ok().unwrap();
    assert_eq!(metrics.unwrap().generations, 3);
    assert_eq!(population.size(), 4);
    assert!(population.ranked().iter().all(|member| member.solution.routes.len() == 1));
}

#[test]
fn the_plain_strategy_ends_at_once_on_an_empty_population() {
    let problem = create_example_problem();
    let refinement_ctx = RefinementContext::new(&problem, Population::new(4), None);
    let (population, metrics) = RunSimple::new()
        .run(refinement_ctx, &(Box::new(Recreate::new()) as Box<dyn Mutation>), &MaxGeneration::new(10), Telemetry::new())
        .ok()
        .unwrap();
    assert_eq!(population.size(), 0);
    assert_eq!(metrics.unwrap().generations, 0);
}

#[test]
fn closing_a_generation_counts_and_reports_it() {
    let problem = create_example_problem();
    let mut refinement_ctx = RefinementContext::new(&problem, Population::new(4), None);
    let mut telemetry = Telemetry::new();
    on_generation(&mut refinement_ctx, &mut telemetry, &MaxGeneration::new(4), false);
    on_generation(&mut refinement_ctx, &mut telemetry, &MaxGeneration::new(4), true);
    assert_eq!(refinement_ctx.statistics.generation, 2);
    assert!(matches!(
        telemetry.events[0],
        TelemetryEvent::Generation { generation: 0, progress: 0, is_improved: false, population_size: 0 }
    ));
    assert!(matches!(
        telemetry.events[1],
        TelemetryEvent::Generation { generation: 1, progress: 250, is_improved: true, population_size: 0 }
    ));
}

#[test]
fn termination_after_generations_estimates_in_thousandths() {
    let problem = create_example_problem();
    let mut refinement_ctx = RefinementContext::new(&problem, Population::new(4), None);
    let termination = MaxGeneration::new(3);
    assert!(!termination.is_termination(&mut refinement_ctx));
    assert_eq!(termination.estimate(&refinement_ctx), 0);
    refinement_ctx.statistics.generation = 2;
    assert!(!termination.is_termination(&mut refinement_ctx));
    assert_eq!(termination.estimate(&refinement_ctx), 666);
    refinement_ctx.statistics.generation = 3;
    assert!(termination.is_termination(&mut refinement_ctx));
    assert_eq!(termination.estimate(&refinement_ctx), 1000);
    assert_eq!(MaxGeneration::new(0).estimate(&refinement_ctx), 1000);
}

#[test]
fn a_composite_termination_ends_when_one_part_does() {
    let problem = create_example_problem();
    let mut refinement_ctx = RefinementContext::new(&problem, Population::new(4), None);
    refinement_ctx.statistics.generation = 2;
    let parts: Vec<Box<dyn Termination>> = vec![Box::new(MaxGeneration::new(10)), Box::new(MaxGeneration::new(2))];
    let composite = CompositeTermination::new(parts);
    assert!(composite.is_termination(&mut refinement_ctx));
    assert_eq!(composite.estimate(&refinement_ctx), 1000);
    let later: Vec<Box<dyn Termination>> = vec![Box::new(MaxGeneration::new(10)), Box::new(MaxGeneration::new(4))];
    let composite = CompositeTermination::new(later);
    assert!(!composite.is_termination(&mut refinement_ctx));
    assert_eq!(composite.estimate(&refinement_ctx), 500);
    assert!(!CompositeTermination::new(vec![]).is_termination(&mut refinement_ctx));
    assert_eq!(CompositeTermination::new(vec![]).estimate(&refinement_ctx), 0);
    assert_eq!(refinement_ctx.statistics.generation, 2);
}

fn individual(problem: &Problem, seed: u64, inserted: bool) -> InsertionContext {
    let start = InsertionContext::new(problem, Random::new(seed));
    if inserted {
        CheapestInsertion::insert_required(problem, start)
    } else {
        start
    }
}

#[test]
fn a_population_ranks_by_unserved_jobs_then_cost_then_order() {
    let problem = create_example_problem();
    let mut population = Population::new(3);
    population.add(&problem, individual(&problem, 1, false));
    population.add(&problem, individual(&problem, 2, true));
    population.add(&problem, individual(&problem, 3, true));
    let seeds: Vec<u64> = population.ranked().iter().map(|member| member.random.state).collect();
    assert_eq!(seeds, vec![2, 3, 1]);
    assert_eq!(population.select().unwrap().random.state, 2);
    assert_eq!(population.best().unwrap().random.state, 2);
    population.add(&problem, individual(&problem, 4, true));
    let seeds: Vec<u64> = population.ranked().iter().map(|member| member.random.state).collect();
    assert_eq!(seeds, vec![2, 3, 4]);
    assert_eq!(population.size(), 3);
}

#[test]
fn a_greedy_population_keeps_the_first_of_the_best() {
    let problem = create_example_problem();
    let mut population = Population::greedy(Some(individual(&problem, 1, false)));
    assert_eq!(population.size(), 1);
    population.add(&problem, individual(&problem, 2, false));
    assert_eq!(population.select().unwrap().random.state, 1);
    population.add(&problem, individual(&problem, 3, true));
    assert_eq!(population.select().unwrap().random.state, 3);
    population.add(&problem, individual(&problem, 4, true));
    assert_eq!(population.select().unwrap().random.state, 3);
    assert_eq!(population.size(), 1);
    assert!(Population::greedy(None).select().is_none());
    assert!(Population::new(0).best().is_none());
}

#[test]
fn fitness_counts_unserved_jobs_first() {
    let problem = create_example_problem();
    let unserved = problem.estimate_cost(&individual(&problem, 1, false));
    let served = problem.estimate_cost(&individual(&problem, 1, true));
    assert_eq!((unserved.unserved, unserved.cost), (1, 0));
    assert_eq!((served.unserved, served.cost), (0, 42));
    assert!(served.better(&unserved));
    assert!(!unserved.better(&served));
    assert!(!served.better(&served));
    assert!(Fitness { unserved: 1, cost: 5 }.better(&Fitness { unserved: 1, cost: 6 }));
    assert!(Fitness { unserved: 0, cost: 9 }.better(&Fitness { unserved: 1, cost: 0 }));
}

#[test]
fn an_individual_fits_if_it_holds_every_job_once() {
    let problem = create_example_problem();
    let seed = individual(&problem, 0, false);
    let built = individual(&problem, 0, true);
    assert!(fits(&problem, &seed));
    assert!(fits(&problem, &built));

    let mut twice = individual(&problem, 0, true);
    twice.solution.required = vec![0];
    assert!(!fits(&problem, &twice));
    let mut none = individual(&problem, 0, false);
    none.solution.required = vec![];
    assert!(!fits(&problem, &none));
    let mut unknown = individual(&problem, 0, false);
    unknown.solution.required = vec![0, 1];
    assert!(!fits(&problem, &unknown));
    let mut repeated = individual(&problem, 0, false);
    repeated.solution.required = vec![0, 0];
    assert!(!fits(&problem, &repeated));
    let mut ignoring = individual(&problem, 0, false);
    ignoring.solution.ignored = vec![0];
    assert!(!fits(&problem, &ignoring));
    ignoring.solution.required = vec![];
    assert!(fits(&problem, &ignoring));
    ignoring.solution.ignored = vec![0, 5];
    assert!(!fits(&problem, &ignoring));
    ignoring.solution.ignored = vec![0, 0];
    assert!(!fits(&problem, &ignoring));
    let mut double = individual(&problem, 0, true);
    let stop = double.solution.routes[0].tour[1];
    double.solution.routes[0].tour.insert(1, stop);
    assert!(!fits(&problem, &double));
    let mut left = individual(&problem, 0, false);
    left.solution.required = vec![];
    left.solution.unassigned = vec![vrp_solver::construction::context::Unassigned { job: 0, code: 1 }];
    assert!(fits(&problem, &left));
    left.solution.unassigned.push(vrp_solver::construction::context::Unassigned { job: 0, code: 2 });
    assert!(!fits(&problem, &left));
}

#[test]
fn jobs_are_noted_once_and_within_the_limit() {
    let mut seen = vec![7usize].into_iter().collect();
    assert!(note_jobs(&vec![1, 2], 3, &mut seen));
    assert!(!note_jobs(&vec![0, 1], 3, &mut seen));
    let mut seen = vec![7usize].into_iter().collect();
    assert!(!note_jobs(&vec![1, 3], 3, &mut seen));
    let mut seen = vec![7usize].into_iter().collect();
    assert!(!note_jobs(&vec![8, 7], 9, &mut seen));
    let mut seen = vec![7usize].into_iter().collect();
    assert!(!note_jobs(&vec![4, 4], 9, &mut seen));
    let mut seen = vec![7usize].into_iter().collect();
    assert!(note_jobs(&vec![usize::MAX - 1, 4], usize::MAX, &mut seen));
    assert!(!note_jobs(&vec![usize::MAX], usize::MAX, &mut seen));
}

#[test]
fn a_run_needs_a_building_method() {
    let problem = create_example_problem();
    let simulator = EvolutionSimulator { config: config(&problem, 1, vec![], Some(Population::new(2)), None) };
    assert_eq!(simulator.run().err(), Some("at least one initial method has to be specified".to_string()));
}

#[test]
fn a_run_starts_with_the_population_as_it_is_found() {
    let problem = create_example_problem();
    let mut twice = individual(&problem, 0, true);
    twice.solution.required = vec![0];
    assert!(!fits(&problem, &twice));
    let mut population = Population::new(3);
    population.add(&problem, individual(&problem, 1, true));
    population.add(&problem, twice);
    let simulator = EvolutionSimulator::new(config(&problem, 1, cheapest(), Some(population), None)).ok().unwrap();
    let (population, _) = simulator.run().ok().unwrap();
    assert!(population.size() >= 2);
}

#[test]
fn provided_individuals_are_taken_as_they_are_and_no_more_than_the_size() {
    let problem = create_example_problem();
    let mut twice = individual(&problem, 5, true);
    twice.solution.required = vec![0];
    let mut config = config(&problem, 2, cheapest(), Some(Population::new(5)), None);
    config.population.initial.individuals =
        vec![twice, individual(&problem, 6, true), individual(&problem, 7, true)];
    let mut simulator = EvolutionSimulator::new(config).ok().unwrap();
    let refinement_ctx = simulator.create_refinement_ctx().ok().unwrap();
    let mut seeds: Vec<u64> = refinement_ctx.population.ranked().iter().map(|member| member.random.state).collect();
    seeds.sort();
    assert_eq!(seeds, vec![5, 6]);
    assert_eq!(refinement_ctx.statistics.generation, 1);
    let events = &simulator.config.telemetry.events;
    assert_eq!(events.len(), 4);
    assert!(matches!(events[1], TelemetryEvent::Initial { index: 0, total: 2 }));
    assert!(matches!(events[2], TelemetryEvent::Initial { index: 1, total: 2 }));
    assert!(matches!(events[3], TelemetryEvent::Generation { generation: 0, is_improved: true, population_size: 2, .. }));
}

#[test]
fn a_reached_quota_lets_the_first_provided_individual_in_and_no_other() {
    let problem = create_example_problem();
    let reached = Reached {};
    let mut config = config(&problem, 3, cheapest(), Some(Population::new(5)), Some(&reached));
    config.population.initial.individuals = vec![individual(&problem, 6, true), individual(&problem, 7, true)];
    let mut simulator = EvolutionSimulator::new(config).ok().unwrap();
    let refinement_ctx = simulator.create_refinement_ctx().ok().unwrap();
    let seeds: Vec<u64> = refinement_ctx.population.ranked().iter().map(|member| member.random.state).collect();
    assert_eq!(seeds, vec![6]);
    let events = &simulator.config.telemetry.events;
    assert!(matches!(events[1], TelemetryEvent::Initial { index: 0, total: 3 }));
    assert!(matches!(events[2], TelemetryEvent::SkippedProvided { index: 1 }));
}

#[test]
fn one_yes_among_the_answers_is_enough() {
    assert!(!any_of(&vec![]));
    assert!(!any_of(&vec![false, false]));
    assert!(any_of(&vec![false, true, false]));
    assert!(any_of(&vec![true]));
}

#[test]
fn the_largest_estimate_counts() {
    assert_eq!(largest_of(&vec![]), 0);
    assert_eq!(largest_of(&vec![200, 900, 300]), 900);
    assert_eq!(largest_of(&vec![0]), 0);
}

#[test]
fn a_population_stays_as_it_is_when_a_generation_ends() {
    let problem = create_example_problem();
    let mut population = Population::new(2);
    population.add(&problem, individual(&problem, 3, true));
    population.add(&problem, individual(&problem, 4, false));
    let before: Vec<u64> = population.ranked().iter().map(|member| member.random.state).collect();
    population.on_generation(&vrp_solver::solver::refinement::Statistics { generation: 7 });
    let after: Vec<u64> = population.ranked().iter().map(|member| member.random.state).collect();
    assert_eq!(before, vec![3, 4]);
    assert_eq!(after, before);
    assert_eq!(population.max_size, 2);
}

#[test]
fn the_plain_strategy_goes_generation_by_generation() {
    let problem = create_example_problem();
    let mut population = Population::new(3);
    population.add(&problem, individual(&problem, 1, false));
    let mut by_hand = RefinementContext::new(&problem, Population::new(3), None);
    by_hand.population.add(&problem, individual(&problem, 1, false));
    let mutation: Box<dyn Mutation> = Box::new(Recreate::new());
    (0..2).for_each(|_| {
        let child = mutation.mutate_one(&by_hand, by_hand.population.select().unwrap());
        assert!(fits(&problem, &child));
        by_hand.population.add(&problem, child);
        by_hand.statistics.generation += 1;
    });

    let refinement_ctx = RefinementContext::new(&problem, population, None);
    let (population, metrics) =
        RunSimple::new().run(refinement_ctx, &mutation, &MaxGeneration::new(2), Telemetry::new()).ok().unwrap();
    assert_eq!(metrics.map(|metrics| metrics.generations), Some(2));
    assert_eq!(population.max_size, 3);
    let shape = |population: &Population| -> Vec<(usize, usize, u64)> {
        population
            .ranked()
            .iter()
            .map(|member| (member.solution.routes.len(), member.solution.required.len(), member.random.state))
            .collect()
    };
    assert_eq!(shape(&population), shape(&by_hand.population));
    assert_eq!(population.size(), 3);
    assert_eq!(shape(&population)[0], (1, 0, 1));
}

#[test]
fn nothing_is_built_when_the_run_is_over_before_it_begins() {
    let problem = create_example_problem();
    let mut config = config(&problem, 3, cheapest(), Some(Population::new(5)), None);
    config.termination = Box::new(MaxGeneration::new(0));
    let mut simulator = EvolutionSimulator::new(config).ok().unwrap();
    let refinement_ctx = simulator.create_refinement_ctx().ok().unwrap();
    assert_eq!(refinement_ctx.population.size(), 0);
    assert_eq!(refinement_ctx.statistics.generation, 0);
    // no building method was chosen: no draw was made
    assert_eq!(simulator.config.random.state, Random::new(1).state);
    let events = &simulator.config.telemetry.events;
    assert_eq!(events.len(), 2);
    assert!(matches!(events[1], TelemetryEvent::EmptyPopulation));
}

#[test]
fn every_building_starts_from_the_starting_individual_of_the_problem() {
    let problem = create_example_problem();
    let mut simulator =
        EvolutionSimulator::new(config(&problem, 3, cheapest(), Some(Population::new(5)), None)).ok().unwrap();
    let refinement_ctx = simulator.create_refinement_ctx().ok().unwrap();
    assert_eq!(refinement_ctx.population.size(), 3);
    // each individual was built from a copy of the starting individual, which holds the randomness of the
    // configuration as it was before the first draw
    assert!(refinement_ctx.population.ranked().iter().all(|member| member.random.state == 1
        && member.solution.required.is_empty()
        && member.solution.routes.len() == 1));
    let mut draws = Random::new(1);
    (0..3).for_each(|_| {
        draws.next();
    });
    assert_eq!(simulator.config.random.state, draws.state);
}
