//! What every mutation operator offers.

use vstd::prelude::*;
use crate::construction::context::{InsertionContext, InsertionView};
use crate::models::problem::Problem;
use crate::solver::refinement::{RefinementContext, RefinementView};

verus! {

/// An operator that makes a new individual of an existing one.
pub trait Mutation {
    /// What `mutate_one` returns: it depends on nothing but the problem, the
    /// state of the run and the individual with its randomness.
    spec fn spec_mutate_one(
        &self,
        problem: &Problem,
        refinement_ctx: RefinementView,
        insertion_ctx: InsertionView,
    ) -> InsertionView;

    /// Makes a new individual of `insertion_ctx`. Where neither it nor the
    /// best individual of the population holds a job twice and both serve,
    /// require or leave unassigned the same jobs, the new individual holds no
    /// job twice; it serves, requires or leaves unassigned the same jobs; and
    /// it ignores no job that neither `insertion_ctx` nor the population
    /// ignored.
    fn mutate_one(&self, refinement_ctx: &RefinementContext, insertion_ctx: &InsertionContext) -> (result:
        InsertionContext)
        ensures
            result@ == self.spec_mutate_one(
                refinement_ctx.problem,
                refinement_ctx@,
                insertion_ctx@,
            ),
            refinement_ctx@.agrees_with(insertion_ctx@) ==> result@.solution.keeps_to(
                refinement_ctx@,
                insertion_ctx@,
            ),
    ;

    /// Makes a new individual of each of `individuals`, in their order.
    fn mutate_all(&self, refinement_ctx: &RefinementContext, individuals: Vec<&InsertionContext>) -> (results:
        Vec<InsertionContext>)
        ensures
            results@.len() == individuals@.len(),
            forall|i: int|
                0 <= i < results@.len() ==> (#[trigger] results@[i])@ == self.spec_mutate_one(
                    refinement_ctx.problem,
                    refinement_ctx@,
                    individuals@[i]@,
                ),
    ;
}

} // verus!
