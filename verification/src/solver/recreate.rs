//! A mutation that tries again to place the jobs that were left out.

use vstd::prelude::*;
use crate::construction::context::{InsertionContext, InsertionView, SolutionView, Unassigned};
use crate::construction::feasibility::spec_solution_feasible;
use crate::construction::heuristics::{spec_insert_required, CheapestInsertion};
use crate::construction::insertion_laws::{lemma_insert_required_feasible, lemma_insert_required_ignored};
use crate::construction::insertion_laws::lemma_insert_required_sound;
use crate::construction::validity::spec_unassigned_jobs;
use crate::models::problem::Problem;
use crate::solver::merging::{lemma_concat_contains, lemma_concat_no_duplicates};
use crate::solver::mutation::Mutation;
use crate::solver::refinement::{RefinementContext, RefinementView};

verus! {

/// A solution whose unassigned jobs are required again, behind the jobs
/// that were required already.
pub open spec fn spec_requeued(solution: SolutionView) -> SolutionView {
    SolutionView {
        required: solution.required + spec_unassigned_jobs(solution.unassigned),
        ignored: solution.ignored,
        unassigned: Seq::empty(),
        locked: solution.locked,
        routes: solution.routes,
        registry: solution.registry,
        state: solution.state,
    }
}

/// A solution that holds no job twice still holds none twice when its
/// unassigned jobs are required again, and it serves, requires or leaves
/// unassigned the same jobs.
pub proof fn lemma_requeued(solution: SolutionView)
    requires
        solution.unique(),
    ensures
        spec_requeued(solution).unique(),
        forall|job: usize| #[trigger] spec_requeued(solution).is_active(job) <==> solution.is_active(job),
{
    let after = spec_requeued(solution);
    let jobs = spec_unassigned_jobs(solution.unassigned);
    assert forall|job: usize| #[trigger] jobs.contains(job) <==> solution.leaves_out(job) by {
        if jobs.contains(job) {
            let i = choose|i: int| 0 <= i < jobs.len() && jobs[i] == job;
            assert(solution.unassigned[i].job == job);
        }
        if solution.leaves_out(job) {
            let i = choose|i: int|
                0 <= i < solution.unassigned.len() && (#[trigger] solution.unassigned[i]).job == job;
            assert(jobs[i] == job);
        }
    }
    assert(jobs.no_duplicates()) by {
        assert forall|i: int, j: int| 0 <= i < jobs.len() && 0 <= j < jobs.len() && i != j implies jobs[i]
            != jobs[j] by {
            if i < j {
                assert(solution.unassigned[i].job != solution.unassigned[j].job);
            } else {
                assert(solution.unassigned[j].job != solution.unassigned[i].job);
            }
        }
    }
    assert forall|job: usize| !(solution.required.contains(job) && jobs.contains(job)) by {
        assert(solution.in_one_group(job));
    }
    lemma_concat_no_duplicates(solution.required, jobs);
    lemma_concat_contains(solution.required, jobs);
    assert forall|job: usize| !after.leaves_out(job) by {}
    assert forall|job: usize| #[trigger] after.in_one_group(job) by {
        assert(solution.in_one_group(job));
    }
    assert forall|job: usize| #[trigger] after.is_active(job) <==> solution.is_active(job) by {}
}

/// The mutation that requires the unassigned jobs of an individual again
/// and inserts every required job where it costs the least.
pub struct Recreate {}

impl Recreate {
    /// The mutation.
    pub fn new() -> Recreate {
        Recreate {  }
    }
}

impl Mutation for Recreate {
    /// The individual with its unassigned jobs required again and then
    /// every required job inserted; its randomness stays as it is.
    open spec fn spec_mutate_one(
        &self,
        problem: &Problem,
        refinement_ctx: RefinementView,
        insertion_ctx: InsertionView,
    ) -> InsertionView {
        InsertionView {
            solution: spec_insert_required(problem, spec_requeued(insertion_ctx.solution)),
            random: insertion_ctx.random,
        }
    }

    fn mutate_one(&self, refinement_ctx: &RefinementContext, insertion_ctx: &InsertionContext) -> (result:
        InsertionContext) {
        let mut copy = insertion_ctx.deep_copy();
        let ghost before = copy@.solution;
        let mut left: Vec<Unassigned> = Vec::new();
        core::mem::swap(&mut left, &mut copy.solution.unassigned);
        let ghost required = copy.solution.required@;
        let mut u: usize = 0;
        assert(required + spec_unassigned_jobs(left@).take(0) =~= required);
        while u < left.len()
            invariant
                u <= left@.len(),
                left@ == before.unassigned,
                required == before.required,
                copy.solution.required@ == required + spec_unassigned_jobs(left@).take(u as int),
                copy@.solution.ignored == before.ignored,
                copy@.solution.locked == before.locked,
                copy@.solution.routes == before.routes,
                copy@.solution.registry == before.registry,
                copy@.solution.state == before.state,
                copy@.solution.unassigned == Seq::<Unassigned>::empty(),
                copy@.random == insertion_ctx@.random,
            decreases left@.len() - u,
        {
            copy.solution.required.push(left[u].job);
            u = u + 1;
            assert(copy.solution.required@ =~= required + spec_unassigned_jobs(left@).take(u as int));
        }
        proof {
            assert(spec_unassigned_jobs(left@).take(u as int) =~= spec_unassigned_jobs(left@));
            assert(copy@.solution == spec_requeued(before));
            if before.unique() {
                lemma_requeued(before);
            }
        }
        let result = CheapestInsertion::insert_required(refinement_ctx.problem, copy);
        proof {
            if refinement_ctx@.agrees_with(insertion_ctx@) {
                assert(result@.solution.active() =~= insertion_ctx@.solution.active());
                assert forall|job: usize| result@.solution.ignored_set().contains(job)
                    implies refinement_ctx@.ignorable(insertion_ctx@).contains(job) by {
                    assert(insertion_ctx@.solution.ignored.contains(job));
                }
            }
        }
        result
    }

    fn mutate_all(&self, refinement_ctx: &RefinementContext, individuals: Vec<&InsertionContext>) -> (results:
        Vec<InsertionContext>) {
        let mut results: Vec<InsertionContext> = Vec::new();
        let mut i: usize = 0;
        while i < individuals.len()
            invariant
                i <= individuals@.len(),
                results@.len() == i,
                forall|k: int|
                    0 <= k < i ==> (#[trigger] results@[k])@ == self.spec_mutate_one(
                        refinement_ctx.problem,
                        refinement_ctx@,
                        individuals@[k]@,
                    ),
            decreases individuals@.len() - i,
        {
            results.push(self.mutate_one(refinement_ctx, individuals[i]));
            i = i + 1;
        }
        results
    }
}

/// What the mutation makes of an individual whose jobs split `all_jobs`
/// splits them too: every one of the jobs is served, required, ignored or
/// left unassigned, nothing else is, and no job is in two of the groups or
/// twice in one.
pub proof fn lemma_recreate_keeps_partition(
    problem: &Problem,
    refinement_ctx: RefinementView,
    individual: InsertionView,
    all_jobs: Set<usize>,
)
    requires
        individual.solution.partitions(all_jobs),
    ensures
        (Recreate {  }).spec_mutate_one(problem, refinement_ctx, individual).solution.partitions(all_jobs),
{
    let queued = spec_requeued(individual.solution);
    let made = spec_insert_required(problem, queued);
    lemma_requeued(individual.solution);
    lemma_insert_required_sound(problem, queued);
    assert forall|job: usize| made.jobs().contains(job) == all_jobs.contains(job) by {
        assert(made.is_active(job) <==> queued.is_active(job));
        assert(queued.is_active(job) <==> individual.solution.is_active(job));
        assert(individual.solution.jobs().contains(job) == all_jobs.contains(job));
    }
    assert(made.jobs() =~= all_jobs);
}

/// What the mutation makes of an individual to whose routes no module
/// objects is an individual to whose routes no module objects.
pub proof fn lemma_recreate_keeps_feasible(
    problem: &Problem,
    refinement_ctx: RefinementView,
    individual: InsertionView,
)
    requires
        spec_solution_feasible(problem, individual.solution),
    ensures
        spec_solution_feasible(
            problem,
            (Recreate {  }).spec_mutate_one(problem, refinement_ctx, individual).solution,
        ),
{
    let queued = spec_requeued(individual.solution);
    assert(queued.routes == individual.solution.routes);
    assert(spec_solution_feasible(problem, queued));
    lemma_insert_required_feasible(problem, queued);
}

/// The mutation leaves the list of ignored jobs of every individual as it
/// is.
pub proof fn lemma_recreate_keeps_ignored(
    problem: &Problem,
    refinement_ctx: RefinementView,
    individual: InsertionView,
)
    ensures
        (Recreate {  }).spec_mutate_one(problem, refinement_ctx, individual).solution.ignored
            == individual.solution.ignored,
{
    lemma_insert_required_ignored(problem, spec_requeued(individual.solution));
}

} // verus!
