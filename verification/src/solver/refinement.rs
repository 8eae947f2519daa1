//! What a refinement run carries from one generation to the next.

use vstd::prelude::*;
use crate::construction::context::{InsertionView, RouteValue, SolutionView};
use crate::models::problem::Problem;
use crate::solver::population::{Population, PopulationView};

verus! {

/// A signal from outside that the run has to end, such as a limit of time.
/// It is asked between two units of work.
pub trait Quota {
    /// Tells whether the run has to end now.
    fn is_reached(&self) -> bool;
}

/// Counters of a refinement run.
#[derive(Clone, Copy, Debug)]
pub struct Statistics {
    /// The number of generations that have passed.
    pub generation: usize,
}

impl Statistics {
    /// The counters at the start of a run.
    pub open spec fn spec_default() -> Statistics {
        Statistics { generation: 0 }
    }
}

impl Default for Statistics {
    fn default() -> (statistics: Statistics)
        ensures
            statistics == Statistics::spec_default(),
    {
        Statistics { generation: 0 }
    }
}

/// The state of a refinement run.
pub struct RefinementContext<'a> {
    pub problem: &'a Problem,
    pub population: Population,
    /// Values that the parts of the engine keep for the run.
    pub state: Vec<RouteValue>,
    pub quota: Option<&'a dyn Quota>,
    pub statistics: Statistics,
}

/// The state of a refinement run as a value: what a mutation may read of it
/// besides the problem.
pub struct RefinementView {
    pub population: PopulationView,
    pub statistics: Statistics,
}

impl<'a> View for RefinementContext<'a> {
    type V = RefinementView;

    open spec fn view(&self) -> RefinementView {
        RefinementView { population: self.population@, statistics: self.statistics }
    }
}

impl RefinementView {
    /// Whether the best individual of the population, if there is one,
    /// keeps to the jobs of `individual`: neither holds a job twice, and both
    /// serve, require or leave unassigned the same jobs.
    pub open spec fn agrees_with(self, individual: InsertionView) -> bool {
        &&& individual.solution.unique()
        &&& self.population.individuals.len() > 0 ==> self.population.individuals[0].solution.unique()
            && self.population.individuals[0].solution.active() == individual.solution.active()
    }

    /// The jobs that `individual` or an individual of the population
    /// ignores.
    pub open spec fn ignorable(self, individual: InsertionView) -> Set<usize> {
        Set::new(
            |job: usize|
                individual.solution.ignored.contains(job) || exists|m: int|
                    0 <= m < self.population.individuals.len() && (
                    #[trigger] self.population.individuals[m]).solution.ignored.contains(job),
        )
    }
}

impl SolutionView {
    /// Whether the solution keeps to the jobs of the individual that it was
    /// made of: it holds no job twice; it serves, requires or leaves
    /// unassigned the same jobs; and it ignores no job that neither the
    /// individual nor the population of the run ignored.
    pub open spec fn keeps_to(self, refinement_ctx: RefinementView, individual: InsertionView) -> bool {
        &&& self.unique()
        &&& self.active() == individual.solution.active()
        &&& self.ignored_set().subset_of(refinement_ctx.ignorable(individual))
    }
}

/// What is made of an individual and keeps to its jobs splits the jobs that
/// the individual splits, where neither the individual nor the population
/// ignores a job: every one of the jobs is served, required or left
/// unassigned, nothing else is, and no job is in two of the groups or twice
/// in one.
pub proof fn lemma_kept_partition(
    refinement_ctx: RefinementView,
    individual: InsertionView,
    made: SolutionView,
    all_jobs: Set<usize>,
)
    requires
        individual.solution.partitions(all_jobs),
        individual.solution.ignored.len() == 0,
        forall|m: int|
            0 <= m < refinement_ctx.population.individuals.len() ==> (
            #[trigger] refinement_ctx.population.individuals[m]).solution.ignored.len() == 0,
        made.keeps_to(refinement_ctx, individual),
    ensures
        made.partitions(all_jobs),
        made.ignored.len() == 0,
{
    if made.ignored.len() > 0 {
        let job = made.ignored[0];
        assert(made.ignored.contains(job));
        assert(made.ignored_set().contains(job));
        assert(refinement_ctx.ignorable(individual).contains(job));
    }
    assert forall|job: usize| made.jobs().contains(job) == all_jobs.contains(job) by {
        assert(made.active().contains(job) == individual.solution.active().contains(job));
        assert(individual.solution.jobs().contains(job) == all_jobs.contains(job));
    }
    assert(made.jobs() =~= all_jobs);
}

impl<'a> RefinementContext<'a> {
    /// The state at the start of a run on `problem` with the given
    /// population.
    pub fn new(problem: &'a Problem, population: Population, quota: Option<&'a dyn Quota>) -> (refinement_ctx:
        RefinementContext<'a>)
        ensures
            refinement_ctx.problem == problem,
            refinement_ctx.population == population,
            refinement_ctx.quota == quota,
            refinement_ctx.statistics == Statistics::spec_default(),
            refinement_ctx.state@ == Seq::<RouteValue>::empty(),
    {
        RefinementContext {
            problem,
            population,
            state: Vec::new(),
            quota,
            statistics: Statistics { generation: 0 },
        }
    }

    /// Asks the quota, if there is one. Without a quota nothing is reached.
    pub fn is_quota_reached(&self) -> (reached: bool)
        ensures
            self.quota is None ==> !reached,
    {
        match self.quota {
            Some(quota) => quota.is_reached(),
            None => false,
        }
    }
}

} // verus!
