//! The evolution: an initial population is built, then generations of
//! mutation follow until the run ends.

use vstd::prelude::*;
use crate::construction::constraints::spec_accept_solution;
use crate::construction::context::{InsertionContext, InsertionView};
use crate::construction::seeding::spec_seed;
use crate::construction::feasibility::spec_solution_feasible;
use crate::construction::heuristics::{spec_insert_required, CheapestInsertion};
use crate::construction::validity::spec_fits;
use crate::models::problem::Problem;
use crate::solver::mutation::Mutation;
use crate::solver::population::{lemma_add_members, spec_add, spec_individual_views, spec_ranked, Population};
use crate::solver::population::PopulationView;
use crate::solver::refinement::{Quota, RefinementContext, RefinementView, Statistics};
use crate::solver::telemetry::{Telemetry, TelemetryEvent};
use crate::solver::termination::Termination;
use crate::utils::random::Random;

verus! {

/// What a run counts.
#[derive(Clone, Copy, Debug)]
pub struct Metrics {
    /// The number of generations that the run went through.
    pub generations: usize,
}

/// What an evolution ends in: the population and, if they were kept, the
/// counts of the run; or the reason for which the run did not start.
pub type EvolutionResult = Result<(Population, Option<Metrics>), String>;

/// Whether every individual of a list fits a problem.
pub open spec fn spec_all_fit(problem: &Problem, individuals: Seq<InsertionView>) -> bool {
    forall|m: int| 0 <= m < individuals.len() ==> spec_fits(problem, #[trigger] individuals[m])
}

/// A population of individuals that fit a problem still holds only such
/// individuals after one more of them was added.
pub proof fn lemma_add_keeps_fit(
    problem: &Problem,
    individuals: Seq<InsertionView>,
    max_size: usize,
    new: InsertionView,
)
    requires
        spec_all_fit(problem, individuals),
        spec_fits(problem, new),
    ensures
        spec_all_fit(problem, spec_add(problem, individuals, max_size, new)),
{
    lemma_add_members(problem, individuals, max_size, new);
    let after = spec_add(problem, individuals, max_size, new);
    assert forall|m: int| 0 <= m < after.len() implies spec_fits(problem, #[trigger] after[m]) by {
        if after[m] != new {
            assert(individuals.contains(after[m]));
            let i = choose|i: int| 0 <= i < individuals.len() && individuals[i] == after[m];
            assert(spec_fits(problem, individuals[i]));
        }
    }
}

/// A method that builds an individual for the initial population.
pub trait InitialBuilder {
    /// What `run` returns: it depends on nothing but the problem, the state
    /// of the run and the individual with its randomness.
    spec fn spec_run(
        &self,
        problem: &Problem,
        refinement_ctx: RefinementView,
        insertion_ctx: InsertionView,
    ) -> InsertionView;

    /// Builds an individual out of `insertion_ctx` by inserting its required
    /// jobs.
    fn run(&self, refinement_ctx: &RefinementContext, insertion_ctx: InsertionContext) -> (result:
        InsertionContext)
        ensures
            result@ == self.spec_run(refinement_ctx.problem, refinement_ctx@, insertion_ctx@),
    ;
}

impl InitialBuilder for CheapestInsertion {
    /// The individual with every required job inserted where it costs the
    /// least; its randomness stays as it is.
    open spec fn spec_run(
        &self,
        problem: &Problem,
        refinement_ctx: RefinementView,
        insertion_ctx: InsertionView,
    ) -> InsertionView {
        InsertionView {
            solution: spec_insert_required(problem, insertion_ctx.solution),
            random: insertion_ctx.random,
        }
    }

    /// Every required job is inserted where it costs the least, as
    /// `insert_required` does.
    fn run(&self, refinement_ctx: &RefinementContext, insertion_ctx: InsertionContext) -> (result:
        InsertionContext)
        ensures
            result@.solution == spec_insert_required(refinement_ctx.problem, insertion_ctx@.solution),
            result@.random == insertion_ctx@.random,
            insertion_ctx@.solution.unique() ==> result@.solution.unique(),
            insertion_ctx@.solution.unique() ==> forall|job: usize|
                #[trigger] result@.solution.is_active(job) <==> insertion_ctx@.solution.is_active(job),
            spec_solution_feasible(refinement_ctx.problem, insertion_ctx@.solution) ==> spec_solution_feasible(
                refinement_ctx.problem,
                result@.solution,
            ),
    {
        CheapestInsertion::insert_required(refinement_ctx.problem, insertion_ctx)
    }
}

/// How the initial population is made.
pub struct InitialConfig {
    /// The number of individuals to start with.
    pub size: usize,
    /// The building methods, each with its weight in the choice of one.
    pub methods: Vec<(Box<dyn InitialBuilder>, usize)>,
    /// Individuals that are there already.
    pub individuals: Vec<InsertionContext>,
}

/// The population of a run.
pub struct PopulationConfig {
    pub initial: InitialConfig,
    /// The population that the run fills.
    pub variation: Option<Population>,
}

/// The way in which a population is evolved.
pub trait EvolutionStrategy {
    /// Whether a run of the strategy from the state `start`, with or without
    /// a quota, can end in `result`.
    spec fn spec_ran(
        &self,
        mutation: &Box<dyn Mutation>,
        problem: &Problem,
        start: RefinementView,
        without_quota: bool,
        result: EvolutionResult,
    ) -> bool;

    /// Evolves the population of `refinement_ctx` until the run ends. Where
    /// the individuals stand from the best to the worst to begin with, so do
    /// those of the result.
    fn run(
        &self,
        refinement_ctx: RefinementContext,
        mutation: &Box<dyn Mutation>,
        termination: &dyn Termination,
        telemetry: Telemetry,
    ) -> (result: EvolutionResult)
        ensures
            self.spec_ran(
                mutation,
                refinement_ctx.problem,
                refinement_ctx@,
                refinement_ctx.quota is None,
                result,
            ),
            spec_ranked(refinement_ctx.problem, refinement_ctx@.population.individuals) ==> match result {
                Ok((population, _)) => spec_ranked(refinement_ctx.problem, population@.individuals),
                Err(_) => true,
            },
    ;
}

/// Everything that a run is set up with.
pub struct EvolutionConfig<'a> {
    pub problem: &'a Problem,
    pub population: PopulationConfig,
    pub mutation: Box<dyn Mutation>,
    pub termination: Box<dyn Termination>,
    pub strategy: Box<dyn EvolutionStrategy>,
    pub quota: Option<&'a dyn Quota>,
    pub random: Random,
    pub telemetry: Telemetry,
}

/// Whether a solution is taken into the population, given what the quota
/// says and how many individuals the population holds: always while the
/// population is empty, and otherwise as long as the quota is not reached.
pub open spec fn spec_decide_add(is_quota_reached: bool, population_size: nat) -> bool {
    population_size == 0 || !is_quota_reached
}

/// Decides whether a solution is taken into the population.
pub fn decide_add_solution(is_quota_reached: bool, population_size: usize) -> (add: bool)
    ensures
        add == spec_decide_add(is_quota_reached, population_size as nat),
{
    population_size == 0 || !is_quota_reached
}

/// Tells whether a solution is taken into the population: the quota is
/// asked, and the solution is taken unless the quota is reached and the
/// population holds an individual already. With an empty population the
/// answer is yes whatever the quota says, so that a run always ends with a
/// result.
pub fn should_add_solution(refinement_ctx: &RefinementContext) -> (add: bool)
    ensures
        refinement_ctx@.population.individuals.len() == 0 ==> add,
        refinement_ctx.quota is None ==> add,
{
    let is_quota_reached: bool = refinement_ctx.is_quota_reached();
    decide_add_solution(is_quota_reached, refinement_ctx.population.size())
}

/// Whether a run stops, given what the termination criterion and the quota
/// say: as soon as either asks for it.
pub open spec fn spec_decide_stop(is_terminated: bool, is_quota_reached: bool) -> bool {
    is_terminated || is_quota_reached
}

/// Decides whether a run stops.
pub fn decide_stop(is_terminated: bool, is_quota_reached: bool) -> (stop: bool)
    ensures
        stop == spec_decide_stop(is_terminated, is_quota_reached),
{
    is_terminated || is_quota_reached
}

/// Tells whether a run stops: the termination criterion and the quota are
/// asked, and the run stops if either says so. The population stays as it
/// is.
pub fn should_stop(refinement_ctx: &mut RefinementContext, termination: &dyn Termination) -> (stop: bool)
    ensures
        final(refinement_ctx).problem == old(refinement_ctx).problem,
        final(refinement_ctx).population == old(refinement_ctx).population,
        final(refinement_ctx).quota == old(refinement_ctx).quota,
        final(refinement_ctx).statistics == old(refinement_ctx).statistics,
{
    let is_terminated: bool = termination.is_termination(refinement_ctx);
    let is_quota_reached: bool = refinement_ctx.is_quota_reached();
    decide_stop(is_terminated, is_quota_reached)
}

/// Closes a generation: the progress of the run is asked of the termination
/// criterion and reported with the generation, and the count of generations
/// goes up by one, unless it is at its largest value already.
pub fn on_generation(
    refinement_ctx: &mut RefinementContext,
    telemetry: &mut Telemetry,
    termination: &dyn Termination,
    is_improved: bool,
)
    ensures
        final(refinement_ctx).problem == old(refinement_ctx).problem,
        final(refinement_ctx).population == old(refinement_ctx).population,
        final(refinement_ctx).quota == old(refinement_ctx).quota,
        final(refinement_ctx).statistics.generation == if old(refinement_ctx).statistics.generation
            < usize::MAX {
            (old(refinement_ctx).statistics.generation + 1) as usize
        } else {
            usize::MAX
        },
        final(telemetry).events@.len() == old(telemetry).events@.len() + 1,
        final(telemetry).events@.drop_last() == old(telemetry).events@,
        final(telemetry).events@.last().closes_generation(
            old(refinement_ctx).statistics.generation,
            is_improved,
            old(refinement_ctx)@.population.individuals.len(),
        ),
{
    let termination_estimate: u64 = termination.estimate(refinement_ctx);
    let size: usize = refinement_ctx.population.size();
    let ghost before = telemetry.events@;
    telemetry.on_generation(refinement_ctx, termination_estimate, is_improved);
    assert(telemetry.events@.drop_last() =~= before);
    let statistics: Statistics = refinement_ctx.statistics;
    refinement_ctx.population.on_generation(&statistics);
    if refinement_ctx.statistics.generation < usize::MAX {
        refinement_ctx.statistics.generation = refinement_ctx.statistics.generation + 1;
    }
}

/// The state of a run after one generation of the plain strategy: the
/// mutation has made a new individual of the best one, which has gone into
/// the population if it was allowed in; and the count of generations has
/// gone up by one.
pub open spec fn spec_generation(
    mutation: &Box<dyn Mutation>,
    problem: &Problem,
    before: RefinementView,
    allowed: bool,
) -> RefinementView {
    let held = before.population.individuals;
    let child = mutation.spec_mutate_one(problem, before, held[0]);
    RefinementView {
        population: PopulationView {
            max_size: before.population.max_size,
            individuals: if allowed {
                spec_add(problem, held, before.population.max_size, child)
            } else {
                held
            },
        },
        statistics: Statistics { generation: (before.statistics.generation + 1) as usize },
    }
}

/// What a generation of the plain strategy leaves: the population with the
/// new individual where it was taken in, and the count of generations one
/// higher.
pub proof fn lemma_generation(
    mutation: &Box<dyn Mutation>,
    problem: &Problem,
    before: RefinementView,
    made: InsertionView,
    taken: bool,
    after: RefinementView,
)
    requires
        made == mutation.spec_mutate_one(problem, before, before.population.individuals[0]),
        after.population.max_size == before.population.max_size,
        after.population.individuals == if taken {
            spec_add(problem, before.population.individuals, before.population.max_size, made)
        } else {
            before.population.individuals
        },
        after.statistics.generation == before.statistics.generation + 1,
    ensures
        after == spec_generation(mutation, problem, before, taken),
{
}

/// Whether the generation at `g` of a run of the plain strategy began with
/// an individual in the population and with the count of generations below
/// its largest value, and led from the state before it to the state after
/// it.
pub open spec fn spec_led(
    mutation: &Box<dyn Mutation>,
    problem: &Problem,
    states: Seq<RefinementView>,
    allowed: Seq<bool>,
    g: int,
) -> bool {
    &&& states[g].population.individuals.len() > 0
    &&& states[g].statistics.generation < usize::MAX
    &&& states[g + 1] == spec_generation(mutation, problem, states[g], allowed[g])
}

/// Whether a run of the plain strategy that starts from `start` can end in
/// `result` by way of `states`, the state before every generation and the
/// state at the end: every generation began with an individual in the
/// population and with the count of generations below its largest value,
/// and led to the next state; `allowed` tells for every generation whether
/// the new individual was allowed into the population, which without a
/// quota it always was; and the result is the population of the last state
/// with its count of generations.
pub open spec fn spec_run_ends(
    mutation: &Box<dyn Mutation>,
    problem: &Problem,
    start: RefinementView,
    without_quota: bool,
    states: Seq<RefinementView>,
    allowed: Seq<bool>,
    result: EvolutionResult,
) -> bool {
    &&& states.len() == allowed.len() + 1
    &&& states[0] == start
    &&& forall|g: int| 0 <= g < allowed.len() ==> #[trigger] spec_led(mutation, problem, states, allowed, g)
    &&& without_quota ==> forall|g: int| 0 <= g < allowed.len() ==> #[trigger] allowed[g]
    &&& match result {
        Ok((population, metrics)) => population@ == states.last().population && metrics == Some(
            Metrics { generations: states.last().statistics.generation },
        ),
        Err(_) => false,
    }
}

/// The plain strategy: generation after generation, the best individual is
/// mutated and the result goes into the population.
pub struct RunSimple {}

impl RunSimple {
    /// The plain strategy.
    pub fn new() -> RunSimple {
        RunSimple {  }
    }
}

impl EvolutionStrategy for RunSimple {
    /// A run of the plain strategy ends in the state that its generations
    /// lead to from the start, however many of them pass.
    open spec fn spec_ran(
        &self,
        mutation: &Box<dyn Mutation>,
        problem: &Problem,
        start: RefinementView,
        without_quota: bool,
        result: EvolutionResult,
    ) -> bool {
        exists|states: Seq<RefinementView>, allowed: Seq<bool>|
            #[trigger] spec_run_ends(mutation, problem, start, without_quota, states, allowed, result)
    }

    /// In every generation the run first asks whether it has to stop; if
    /// not, the best individual is mutated, the result is added unless the
    /// quota forbids it, and the generation is closed. The run also ends when the population is empty or the count
    /// of generations is at its largest value. What is handed back is the
    /// population after the last generation and the count of generations:
    /// the state that the generations lead to from the start, whatever the
    /// number of them that the termination criterion and the quota let
    /// pass.
    #[verifier::rlimit(40)]
    fn run(
        &self,
        refinement_ctx: RefinementContext,
        mutation: &Box<dyn Mutation>,
        termination: &dyn Termination,
        telemetry: Telemetry,
    ) -> (result: EvolutionResult)
        ensures
            result is Ok,
            exists|states: Seq<RefinementView>, allowed: Seq<bool>|
                #[trigger] spec_run_ends(
                    mutation,
                    refinement_ctx.problem,
                    refinement_ctx@,
                    refinement_ctx.quota is None,
                    states,
                    allowed,
                    result,
                ),
    {
        let mut ctx = refinement_ctx;
        let mut telemetry = telemetry;
        let mut running: bool = true;
        let ghost start = refinement_ctx@;
        let ghost mut allowed: Seq<bool> = Seq::empty();
        let ghost mut states: Seq<RefinementView> = seq![start];
        while running && ctx.statistics.generation < usize::MAX
            invariant
                ctx.problem == refinement_ctx.problem,
                ctx.quota == refinement_ctx.quota,
                start == refinement_ctx@,
                states.len() == allowed.len() + 1,
                states[0] == start,
                states.last() == ctx@,
                forall|g: int|
                    0 <= g < allowed.len() ==> #[trigger] spec_led(mutation, refinement_ctx.problem, states, allowed, g),
                ctx.quota is None ==> forall|g: int| 0 <= g < allowed.len() ==> #[trigger] allowed[g],
                spec_ranked(refinement_ctx.problem, refinement_ctx@.population.individuals) ==> spec_ranked(
                    ctx.problem,
                    ctx@.population.individuals,
                ),
            decreases usize::MAX - ctx.statistics.generation + (if running { 1int } else { 0int }),
        {
            if should_stop(&mut ctx, termination) || ctx.population.size() == 0 {
                running = false;
            } else {
                let ghost held = ctx@.population.individuals;
                let ghost before = ctx@;
                let ghost earlier = allowed;
                let ghost passed = states;
                let (child, is_improved) = {
                    let parent = ctx.population.select().unwrap();
                    let child = mutation.mutate_one(&ctx, parent);
                    let improved: bool = ctx.problem.estimate_cost(&child).better(
                        &ctx.problem.estimate_cost(parent),
                    );
                    (child, improved)
                };
                let ghost made = child@;
                let mut taken: bool = false;
                if should_add_solution(&ctx) {
                    ctx.population.add(ctx.problem, child);
                    taken = true;
                }
                on_generation(&mut ctx, &mut telemetry, termination, is_improved);
                proof {
                    let answer = taken;
                    allowed = earlier.push(answer);
                    states = passed.push(ctx@);
                    lemma_generation(mutation, ctx.problem, before, made, taken, ctx@);
                    assert forall|g: int| 0 <= g < allowed.len() implies #[trigger] spec_led(
                        mutation,
                        refinement_ctx.problem,
                        states,
                        allowed,
                        g,
                    ) by {
                        assert(states[g] == passed[g]);
                        if g < earlier.len() {
                            assert(spec_led(mutation, refinement_ctx.problem, passed, earlier, g));
                            assert(states[g + 1] == passed[g + 1]);
                            assert(allowed[g] == earlier[g]);
                        }
                    }
                }
            }
        }
        let metrics = Metrics { generations: ctx.statistics.generation };
        let result: EvolutionResult = Ok((ctx.population, Some(metrics)));
        assert(spec_run_ends(
            mutation,
            refinement_ctx.problem,
            start,
            refinement_ctx.quota is None,
            states,
            allowed,
            result,
        ));
        assert(self.spec_ran(mutation, refinement_ctx.problem, start, refinement_ctx.quota is None, result));
        result
    }
}

/// The error of a simulator that was given no building method.
pub open spec fn spec_no_methods_message() -> Seq<char> {
    "at least one initial method has to be specified"@
}

/// The error of a run that was given no population to fill.
pub open spec fn spec_no_variation_message() -> Seq<char> {
    "population variation has to be specified"@
}

/// Why a run with the given configuration does not start, if it does not:
/// it has no building method, or no population to fill.
pub open spec fn spec_startable(config: &EvolutionConfig) -> Option<Seq<char>> {
    if config.population.initial.methods@.len() == 0 {
        Some(spec_no_methods_message())
    } else if config.population.variation is None {
        Some(spec_no_variation_message())
    } else {
        None
    }
}

/// Whether the individuals that the population to fill holds at the start
/// stand from the best to the worst.
pub open spec fn spec_starts_ranked(config: &EvolutionConfig) -> bool {
    match config.population.variation {
        Some(population) => spec_ranked(config.problem, population@.individuals),
        None => true,
    }
}

/// The individuals that a population holds after the first `upto` of the
/// individuals that were offered to it have been taken in, where `taken`
/// says so, or passed over.
pub open spec fn spec_seeded(
    problem: &Problem,
    start: Seq<InsertionView>,
    max_size: usize,
    offered: Seq<InsertionView>,
    taken: Seq<bool>,
    upto: int,
) -> Seq<InsertionView>
    decreases upto,
{
    if upto <= 0 {
        start
    } else {
        let before = spec_seeded(problem, start, max_size, offered, taken, upto - 1);
        if taken[upto - 1] {
            spec_add(problem, before, max_size, offered[upto - 1])
        } else {
            before
        }
    }
}

/// What a population holds after the first individuals were offered to it
/// hangs on those individuals and the answers to them alone.
pub proof fn lemma_seeded_alike(
    problem: &Problem,
    start: Seq<InsertionView>,
    max_size: usize,
    offered: Seq<InsertionView>,
    taken: Seq<bool>,
    others: Seq<InsertionView>,
    answers: Seq<bool>,
    upto: int,
)
    requires
        forall|k: int| 0 <= k < upto ==> offered[k] == others[k] && taken[k] == answers[k],
    ensures
        spec_seeded(problem, start, max_size, offered, taken, upto) == spec_seeded(
            problem,
            start,
            max_size,
            others,
            answers,
            upto,
        ),
    decreases upto,
{
    if upto > 0 {
        lemma_seeded_alike(problem, start, max_size, offered, taken, others, answers, upto - 1);
    }
}

/// A population of individuals that fit a problem holds only such
/// individuals after individuals that fit it were taken in.
pub proof fn lemma_seeded_fit(
    problem: &Problem,
    start: Seq<InsertionView>,
    max_size: usize,
    offered: Seq<InsertionView>,
    taken: Seq<bool>,
    upto: int,
)
    requires
        spec_all_fit(problem, start),
        forall|k: int| 0 <= k < upto && taken[k] ==> spec_fits(problem, #[trigger] offered[k]),
    ensures
        spec_all_fit(problem, spec_seeded(problem, start, max_size, offered, taken, upto)),
    decreases upto,
{
    if upto > 0 {
        lemma_seeded_fit(problem, start, max_size, offered, taken, upto - 1);
        if taken[upto - 1] {
            assert(spec_fits(problem, offered[upto - 1]));
            lemma_add_keeps_fit(
                problem,
                spec_seeded(problem, start, max_size, offered, taken, upto - 1),
                max_size,
                offered[upto - 1],
            );
        }
    }
}

/// The individuals of those provided that are offered to the initial
/// population: the first `size` of them, in their order.
pub open spec fn spec_offered(provided: Seq<InsertionView>, size: usize) -> Seq<InsertionView> {
    if size < provided.len() {
        provided.take(size as int)
    } else {
        provided
    }
}

/// Whether the answer to the provided individual at `i` is as it is owed:
/// yes, where the population is empty when the individual is offered or
/// where there is no quota.
pub open spec fn spec_owed(
    problem: &Problem,
    start: PopulationView,
    offered: Seq<InsertionView>,
    without_quota: bool,
    taken: Seq<bool>,
    i: int,
) -> bool {
    (without_quota || spec_seeded(problem, start.individuals, start.max_size, offered, taken, i).len() == 0)
        ==> taken[i]
}

/// The individual that every building method starts from: the starting
/// individual of the problem, with the randomness of the configuration.
pub open spec fn spec_start_individual(config: &EvolutionConfig) -> InsertionView {
    InsertionView {
        solution: spec_accept_solution(config.problem, spec_seed(config.problem)),
        random: config.random,
    }
}

/// The weights of the building methods, in their order.
pub open spec fn spec_weights(methods: Seq<(Box<dyn InitialBuilder>, usize)>) -> Seq<usize> {
    Seq::new(methods.len(), |m: int| methods[m].1)
}

/// The state of the building of the initial population: the individuals
/// that the population holds, and the randomness by which the next building
/// method is chosen.
pub struct BuildStage {
    pub held: Seq<InsertionView>,
    pub random: Random,
}

/// What is built at a stage: the building method is chosen by one draw
/// with the weights of the methods, and builds an individual from the
/// starting individual, with the state of the run before it.
pub open spec fn spec_made(config: &EvolutionConfig, stage: BuildStage) -> InsertionView {
    let methods = config.population.initial.methods@;
    let choice = stage.random.spec_weighted(spec_weights(methods));
    methods[choice].0.spec_run(
        config.problem,
        RefinementView {
            population: PopulationView {
                max_size: config.population.variation->0@.max_size,
                individuals: stage.held,
            },
            statistics: Statistics::spec_default(),
        },
        spec_start_individual(config),
    )
}

/// The stage after one building: what was built is in the population where
/// it was kept, and the randomness is one draw further.
pub open spec fn spec_next_stage(config: &EvolutionConfig, stage: BuildStage, kept: bool) -> BuildStage {
    BuildStage {
        held: if kept {
            spec_add(config.problem, stage.held, config.population.variation->0@.max_size, spec_made(config, stage))
        } else {
            stage.held
        },
        random: Random { state: Random::spec_step(stage.random.state) },
    }
}

/// Whether the building at `k` led from its stage to the next, and what it
/// built was kept where that was owed: wherever the population was empty or
/// there is no quota.
pub open spec fn spec_built(config: &EvolutionConfig, stages: Seq<BuildStage>, kept: Seq<bool>, k: int) -> bool {
    &&& stages[k + 1] == spec_next_stage(config, stages[k], kept[k])
    &&& (config.quota is None || stages[k].held.len() == 0) ==> kept[k]
}

/// Whether the seeding with a configuration can end in the state `end`:
/// the first `size` of the provided individuals were offered in their order
/// and taken in where `taken` says so, which it does wherever the population
/// was empty or there is no quota; then individuals were built, stage by
/// stage, no more of them than the population was short of `size`, and kept
/// where `kept` says so; and the count of generations is one where the
/// population holds an individual, and zero otherwise.
pub open spec fn spec_seeding_ends(
    config: &EvolutionConfig,
    taken: Seq<bool>,
    kept: Seq<bool>,
    stages: Seq<BuildStage>,
    end: RefinementView,
) -> bool {
    let problem = config.problem;
    let start = config.population.variation->0@;
    let size = config.population.initial.size;
    let offered = spec_offered(spec_individual_views(config.population.initial.individuals@), size);
    let first = spec_seeded(problem, start.individuals, start.max_size, offered, taken, offered.len() as int);
    &&& taken.len() == offered.len()
    &&& forall|i: int|
        0 <= i < taken.len() ==> #[trigger] spec_owed(problem, start, offered, config.quota is None, taken, i)
    &&& stages.len() == kept.len() + 1
    &&& stages[0] == (BuildStage { held: first, random: config.random })
    &&& forall|k: int| 0 <= k < kept.len() ==> #[trigger] spec_built(config, stages, kept, k)
    &&& kept.len() == 0 || first.len() + kept.len() <= size
    &&& end.population.max_size == start.max_size
    &&& end.population.individuals == stages.last().held
    &&& end.statistics.generation == if end.population.individuals.len() > 0 {
        1usize
    } else {
        0usize
    }
}

/// The driver of an evolution.
pub struct EvolutionSimulator<'a> {
    pub config: EvolutionConfig<'a>,
}

impl<'a> EvolutionSimulator<'a> {
    /// A simulator for `config`. A configuration without a building method
    /// is turned down.
    pub fn new(config: EvolutionConfig<'a>) -> (result: Result<EvolutionSimulator<'a>, String>)
        ensures
            match result {
                Ok(simulator) => config.population.initial.methods@.len() > 0 && simulator.config
                    == config,
                Err(message) => config.population.initial.methods@.len() == 0 && message@
                    == spec_no_methods_message(),
            },
    {
        if config.population.initial.methods.len() == 0 {
            return Err("at least one initial method has to be specified".to_owned());
        }
        Ok(EvolutionSimulator { config })
    }

    /// Runs the evolution: the initial population is built, and the strategy
    /// of the configuration evolves it. The run does not start without a
    /// building method or without a population to fill, and ends in the
    /// error that says so. Otherwise the result is what the strategy of the
    /// configuration makes, with the mutation of the configuration, of the
    /// state that the seeding ends in. Where the individuals that the
    /// population held at the start stood from the best to the worst, so do
    /// those of the result.
    pub fn run(self) -> (result: EvolutionResult)
        ensures
            match spec_startable(&self.config) {
                Some(reason) => result is Err && result->Err_0@ == reason,
                None => exists|taken: Seq<bool>, kept: Seq<bool>, stages: Seq<BuildStage>, seeded: RefinementView|
                    #[trigger] spec_seeding_ends(&self.config, taken, kept, stages, seeded)
                        && self.config.strategy.spec_ran(
                        &self.config.mutation,
                        self.config.problem,
                        seeded,
                        self.config.quota is None,
                        result,
                    ),
            },
            match result {
                Ok((population, _)) => spec_starts_ranked(&self.config) ==> spec_ranked(
                    self.config.problem,
                    population@.individuals,
                ),
                Err(_) => true,
            },
    {
        let mut simulator = self;
        match simulator.create_refinement_ctx() {
            Ok(refinement_ctx) => {
                let ghost seeded = refinement_ctx@;
                let config = simulator.config;
                let result = config.strategy.run(
                    refinement_ctx,
                    &config.mutation,
                    &*config.termination,
                    config.telemetry,
                );
                proof {
                    let (taken, kept, stages) = choose|taken: Seq<bool>, kept: Seq<bool>, stages: Seq<BuildStage>|
                        #[trigger] spec_seeding_ends(&self.config, taken, kept, stages, seeded);
                    assert(spec_seeding_ends(&self.config, taken, kept, stages, seeded));
                    assert(self.config.strategy.spec_ran(
                        &self.config.mutation,
                        self.config.problem,
                        seeded,
                        self.config.quota is None,
                        result,
                    ));
                }
                result
            },
            Err(message) => Err(message),
        }
    }

    /// Builds the state that the evolution starts from. The population to
    /// fill is taken out of the configuration; without one there is no
    /// state. The size of the problem is reported first. The individuals that
    /// the configuration provides go into the population, the first `size`
    /// of them in their order, each unless the quota forbids it. Then, until
    /// as many individuals were built as the population was short of `size`,
    /// a building method is chosen by its weight and builds an individual
    /// from a copy of the starting individual of the problem, which goes
    /// into the population; building ends early when the termination
    /// criterion says so or the quota forbids a further individual. At the
    /// end a first generation is closed if the population holds an
    /// individual, and an empty population is reported otherwise.
    pub fn create_refinement_ctx(&mut self) -> (result: Result<RefinementContext<'a>, String>)
        ensures
            final(self).config.problem == old(self).config.problem,
            final(self).config.mutation == old(self).config.mutation,
            final(self).config.termination == old(self).config.termination,
            final(self).config.strategy == old(self).config.strategy,
            match result {
                Ok(refinement_ctx) => {
                    &&& spec_startable(&old(self).config) is None
                    &&& refinement_ctx.problem == old(self).config.problem
                    &&& refinement_ctx.quota == old(self).config.quota
                    &&& exists|taken: Seq<bool>, kept: Seq<bool>, stages: Seq<BuildStage>|
                        #[trigger] spec_seeding_ends(&old(self).config, taken, kept, stages, refinement_ctx@)
                    &&& spec_starts_ranked(&old(self).config) ==> spec_ranked(
                        refinement_ctx.problem,
                        refinement_ctx@.population.individuals,
                    )
                    &&& final(self).config.telemetry.events@.len() >= old(
                        self,
                    ).config.telemetry.events@.len() + 2
                    &&& final(self).config.telemetry.events@[old(self).config.telemetry.events@.len() as int]
                        == (TelemetryEvent::ProblemSize {
                        jobs: old(self).config.problem.jobs@.len() as usize,
                        actors: old(self).config.problem.fleet.actors@.len() as usize,
                    })
                    &&& if refinement_ctx@.population.individuals.len() > 0 {
                        final(self).config.telemetry.events@.last().closes_generation(
                            0,
                            true,
                            refinement_ctx@.population.individuals.len(),
                        )
                    } else {
                        final(self).config.telemetry.events@.last() == TelemetryEvent::EmptyPopulation
                    }
                },
                Err(message) => Some(message@) == spec_startable(&old(self).config),
            },
    {
        let problem = self.config.problem;
        if self.config.population.initial.methods.len() == 0 {
            return Err("at least one initial method has to be specified".to_owned());
        }
        let population = match self.config.population.variation.take() {
            Some(population) => population,
            None => {
                return Err("population variation has to be specified".to_owned());
            },
        };
        let ghost sorted = spec_ranked(problem, population@.individuals);
        let ghost origin = population@;
        let ghost without_quota = self.config.quota is None;
        let mut refinement_ctx = RefinementContext::new(problem, population, self.config.quota);
        let ghost events_before = self.config.telemetry.events@;
        let jobs: usize = problem.jobs.len();
        let actors: usize = problem.fleet.actors.len();
        self.config.telemetry.log(TelemetryEvent::ProblemSize { jobs, actors });
        let size: usize = self.config.population.initial.size;
        let mut provided: Vec<InsertionContext> = Vec::new();
        core::mem::swap(&mut provided, &mut self.config.population.initial.individuals);
        let ghost provided_views = spec_individual_views(provided@);
        let ghost offered = spec_offered(provided_views, size);
        let ghost mut taken: Seq<bool> = Seq::empty();
        let total: usize = provided.len();
        let mut index: usize = 0;
        while index < total && index < size
            invariant
                index <= total,
                index <= size,
                total == provided_views.len(),
                provided@.len() + index == total,
                forall|i: int| 0 <= i < provided@.len() ==> (#[trigger] provided@[i])@ == provided_views[index + i],
                offered == spec_offered(provided_views, size),
                origin.max_size == refinement_ctx@.population.max_size,
                without_quota == (old(self).config.quota is None),
                taken.len() == index,
                refinement_ctx@.population.individuals == spec_seeded(
                    problem,
                    origin.individuals,
                    origin.max_size,
                    offered,
                    taken,
                    index as int,
                ),
                forall|i: int|
                    0 <= i < taken.len() ==> #[trigger] spec_owed(problem, origin, offered, without_quota, taken, i),
                refinement_ctx.problem == problem,
                refinement_ctx.quota == old(self).config.quota,
                sorted ==> spec_ranked(problem, refinement_ctx@.population.individuals),
                self.config.problem == old(self).config.problem,
                self.config.mutation == old(self).config.mutation,
                self.config.termination == old(self).config.termination,
                self.config.strategy == old(self).config.strategy,
                self.config.population.initial.methods == old(self).config.population.initial.methods,
                self.config.population.initial.size == size,
                self.config.random == old(self).config.random,
                self.config.telemetry.events@.len() > events_before.len(),
                self.config.telemetry.events@[events_before.len() as int] == (TelemetryEvent::ProblemSize {
                    jobs,
                    actors,
                }),
                refinement_ctx.statistics.generation == 0,
            decreases total - index,
        {
            let individual = provided.remove(0);
            assert(individual@ == provided_views[index as int]);
            assert(offered[index as int] == provided_views[index as int]);
            let ghost earlier = taken;
            let ghost held = refinement_ctx@.population.individuals;
            let add: bool = should_add_solution(&refinement_ctx);
            if add {
                self.config.telemetry.on_initial(index, size);
                refinement_ctx.population.add(problem, individual);
            } else {
                self.config.telemetry.log(TelemetryEvent::SkippedProvided { index });
            }
            proof {
                taken = earlier.push(add);
                lemma_seeded_alike(
                    problem,
                    origin.individuals,
                    origin.max_size,
                    offered,
                    taken,
                    offered,
                    earlier,
                    index as int,
                );
                assert forall|i: int| 0 <= i < taken.len() implies #[trigger] spec_owed(
                    problem,
                    origin,
                    offered,
                    without_quota,
                    taken,
                    i,
                ) by {
                    lemma_seeded_alike(
                        problem,
                        origin.individuals,
                        origin.max_size,
                        offered,
                        taken,
                        offered,
                        earlier,
                        i,
                    );
                    if i < index {
                        assert(spec_owed(problem, origin, offered, without_quota, earlier, i));
                    }
                }
            }
            index = index + 1;
        }
        let ghost first = refinement_ctx@.population.individuals;
        assert(index == offered.len());
        let ghost config = old(self).config;
        let ghost mut kept: Seq<bool> = Seq::empty();
        let ghost mut stages: Seq<BuildStage> = seq![BuildStage { held: first, random: self.config.random }];
        let mut weights: Vec<usize> = Vec::new();
        let mut m: usize = 0;
        while m < self.config.population.initial.methods.len()
            invariant
                m <= self.config.population.initial.methods@.len(),
                weights@.len() == m,
                forall|k: int| 0 <= k < m ==> weights@[k] == self.config.population.initial.methods@[k].1,
            decreases self.config.population.initial.methods@.len() - m,
        {
            weights.push(self.config.population.initial.methods[m].1);
            m = m + 1;
        }
        assert(weights@ =~= spec_weights(self.config.population.initial.methods@));
        let empty_ctx = InsertionContext::new(problem, self.config.random);
        let mut built: usize = refinement_ctx.population.size();
        let mut building: bool = true;
        while building && built < size
            invariant
                weights@.len() == self.config.population.initial.methods@.len(),
                weights@.len() > 0,
                origin.max_size == refinement_ctx@.population.max_size,
                origin == config.population.variation->0@,
                config.problem == problem,
                config.quota == old(self).config.quota,
                config.population.initial.methods == self.config.population.initial.methods,
                weights@ == spec_weights(config.population.initial.methods@),
                empty_ctx@ == spec_start_individual(&config),
                first.len() + kept.len() <= built,
                kept.len() == 0 || built <= size,
                stages.len() == kept.len() + 1,
                stages[0] == (BuildStage { held: first, random: config.random }),
                stages.last() == (BuildStage {
                    held: refinement_ctx@.population.individuals,
                    random: self.config.random,
                }),
                forall|k: int| 0 <= k < kept.len() ==> #[trigger] spec_built(&config, stages, kept, k),
                refinement_ctx.problem == problem,
                refinement_ctx.quota == old(self).config.quota,
                sorted ==> spec_ranked(problem, refinement_ctx@.population.individuals),
                self.config.problem == old(self).config.problem,
                self.config.mutation == old(self).config.mutation,
                self.config.termination == old(self).config.termination,
                self.config.strategy == old(self).config.strategy,
                self.config.population.initial.size == size,
                self.config.telemetry.events@.len() > events_before.len(),
                self.config.telemetry.events@[events_before.len() as int] == (TelemetryEvent::ProblemSize {
                    jobs,
                    actors,
                }),
                refinement_ctx.statistics.generation == 0,
            decreases size - built + (if building { 1int } else { 0int }),
        {
            if self.config.termination.is_termination(&mut refinement_ctx) {
                building = false;
            } else if !should_add_solution(&refinement_ctx) {
                self.config.telemetry.log(TelemetryEvent::SkippedBuilt { index: built });
                building = false;
            } else {
                let method: usize = self.config.random.weighted(&weights);
                let start = empty_ctx.deep_copy();
                let insertion_ctx = self.config.population.initial.methods[method].0.run(
                    &refinement_ctx,
                    start,
                );
                let ghost made = insertion_ctx@;
                let ghost stage = stages.last();
                let ghost earlier = kept;
                let ghost passed = stages;
                assert(made == spec_made(&config, stage));
                let keep: bool = should_add_solution(&refinement_ctx);
                if keep {
                    refinement_ctx.population.add(problem, insertion_ctx);
                    self.config.telemetry.on_initial(built, size);
                } else {
                    self.config.telemetry.log(TelemetryEvent::SkippedBuilt { index: built });
                }
                built = built + 1;
                proof {
                    kept = earlier.push(keep);
                    stages = passed.push(
                        BuildStage { held: refinement_ctx@.population.individuals, random: self.config.random },
                    );
                    assert(stages.last() == spec_next_stage(&config, stage, keep));
                    assert forall|k: int| 0 <= k < kept.len() implies #[trigger] spec_built(
                        &config,
                        stages,
                        kept,
                        k,
                    ) by {
                        assert(stages[k] == passed[k]);
                        if k < earlier.len() {
                            assert(spec_built(&config, passed, earlier, k));
                            assert(stages[k + 1] == passed[k + 1]);
                            assert(kept[k] == earlier[k]);
                        }
                    }
                }
            }
        }
        if refinement_ctx.population.size() > 0 {
            on_generation(&mut refinement_ctx, &mut self.config.telemetry, &*self.config.termination, true);
        } else {
            self.config.telemetry.log(TelemetryEvent::EmptyPopulation);
        }
        assert(spec_seeding_ends(&config, taken, kept, stages, refinement_ctx@));
        Ok(refinement_ctx)
    }
}

} // verus!
