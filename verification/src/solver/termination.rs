//! When a refinement run ends.

use vstd::prelude::*;
use crate::solver::refinement::RefinementContext;

verus! {

/// A criterion for the end of a run.
pub trait Termination {
    /// Tells whether the run has to end. The criterion may keep notes in
    /// the state of the run; the problem, the population, the quota and the
    /// counters stay as they are.
    fn is_termination(&self, refinement_ctx: &mut RefinementContext) -> (terminated: bool)
        ensures
            final(refinement_ctx).problem == old(refinement_ctx).problem,
            final(refinement_ctx).population == old(refinement_ctx).population,
            final(refinement_ctx).quota == old(refinement_ctx).quota,
            final(refinement_ctx).statistics == old(refinement_ctx).statistics,
    ;

    /// How far the run has come, in thousandths of the way to its end: from
    /// `0` at the start to `1000` at the end.
    fn estimate(&self, refinement_ctx: &RefinementContext) -> (estimate: u64)
        ensures
            estimate <= 1000,
    ;
}

/// The end of a run after a number of generations.
pub struct MaxGeneration {
    pub limit: usize,
}

impl MaxGeneration {
    /// How far a run is after `generation` of `limit` generations, in
    /// thousandths.
    pub open spec fn spec_estimate(limit: usize, generation: usize) -> u64 {
        if limit == 0 || generation >= limit {
            1000
        } else {
            ((generation * 1000) / (limit as int)) as u64
        }
    }

    /// A criterion that ends a run after `limit` generations.
    pub fn new(limit: usize) -> (termination: MaxGeneration)
        ensures
            termination.limit == limit,
    {
        MaxGeneration { limit }
    }
}

impl Termination for MaxGeneration {
    /// The run ends once `limit` generations have passed.
    fn is_termination(&self, refinement_ctx: &mut RefinementContext) -> (terminated: bool)
        ensures
            terminated == (old(refinement_ctx).statistics.generation >= self.limit),
            *final(refinement_ctx) == *old(refinement_ctx),
    {
        refinement_ctx.statistics.generation >= self.limit
    }

    fn estimate(&self, refinement_ctx: &RefinementContext) -> (estimate: u64)
        ensures
            estimate == Self::spec_estimate(self.limit, refinement_ctx.statistics.generation),
            estimate <= 1000,
    {
        let generation: usize = refinement_ctx.statistics.generation;
        if self.limit == 0 || generation >= self.limit {
            1000
        } else {
            let done: u128 = generation as u128 * 1000;
            let estimate: u128 = done / (self.limit as u128);
            assert(estimate <= 1000) by (nonlinear_arith)
                requires
                    estimate == done / (self.limit as u128),
                    done == generation * 1000,
                    generation < self.limit,
            ;
            estimate as u64
        }
    }
}

/// Whether one of the answers is yes.
pub open spec fn spec_any(answers: Seq<bool>) -> bool {
    exists|i: int| 0 <= i < answers.len() && answers[i]
}

/// Tells whether one of the answers is yes.
pub fn any_of(answers: &Vec<bool>) -> (fired: bool)
    ensures
        fired == spec_any(answers@),
{
    let mut i: usize = 0;
    while i < answers.len()
        invariant
            i <= answers@.len(),
            forall|k: int| 0 <= k < i ==> !answers@[k],
        decreases answers@.len() - i,
    {
        if answers[i] {
            return true;
        }
        i = i + 1;
    }
    false
}

/// The largest of the first `upto` estimates, and `0` where there is none.
pub open spec fn spec_largest(estimates: Seq<u64>, upto: int) -> u64
    decreases upto,
{
    if upto <= 0 {
        0
    } else if estimates[upto - 1] > spec_largest(estimates, upto - 1) {
        estimates[upto - 1]
    } else {
        spec_largest(estimates, upto - 1)
    }
}

/// The largest of estimates is one of them, or `0`, and none is larger.
pub proof fn lemma_largest(estimates: Seq<u64>, upto: int)
    requires
        0 <= upto <= estimates.len(),
    ensures
        forall|k: int| 0 <= k < upto ==> estimates[k] <= spec_largest(estimates, upto),
        spec_largest(estimates, upto) == 0 || exists|k: int|
            0 <= k < upto && estimates[k] == spec_largest(estimates, upto),
    decreases upto,
{
    if upto > 0 {
        lemma_largest(estimates, upto - 1);
        if !(estimates[upto - 1] > spec_largest(estimates, upto - 1)) && spec_largest(estimates, upto) != 0 {
            let k = choose|k: int| 0 <= k < upto - 1 && estimates[k] == spec_largest(estimates, upto - 1);
            assert(estimates[k] == spec_largest(estimates, upto));
        }
    }
}

/// Finds the largest of the estimates.
pub fn largest_of(estimates: &Vec<u64>) -> (largest: u64)
    ensures
        largest == spec_largest(estimates@, estimates@.len() as int),
{
    let mut largest: u64 = 0;
    let mut i: usize = 0;
    while i < estimates.len()
        invariant
            i <= estimates@.len(),
            largest == spec_largest(estimates@, i as int),
        decreases estimates@.len() - i,
    {
        if estimates[i] > largest {
            largest = estimates[i];
        }
        i = i + 1;
    }
    largest
}

/// The end of a run as soon as one of several criteria asks for it.
pub struct CompositeTermination {
    pub terminations: Vec<Box<dyn Termination>>,
}

impl CompositeTermination {
    /// A criterion that ends a run when one of `terminations` does.
    pub fn new(terminations: Vec<Box<dyn Termination>>) -> (termination: CompositeTermination)
        ensures
            termination.terminations == terminations,
    {
        CompositeTermination { terminations }
    }
}

impl Termination for CompositeTermination {
    /// Every criterion is asked, in order; the run ends if one of them says
    /// so. Without a criterion the run does not end, and the state of the
    /// run stays as it is.
    fn is_termination(&self, refinement_ctx: &mut RefinementContext) -> (terminated: bool)
        ensures
            exists|answers: Seq<bool>|
                answers.len() == self.terminations@.len() && terminated == #[trigger] spec_any(answers),
            self.terminations@.len() == 0 ==> *final(refinement_ctx) == *old(refinement_ctx),
    {
        let mut answers: Vec<bool> = Vec::new();
        let mut t: usize = 0;
        while t < self.terminations.len()
            invariant
                t <= self.terminations@.len(),
                answers@.len() == t,
                t == 0 ==> *refinement_ctx == *old(refinement_ctx),
                refinement_ctx.problem == old(refinement_ctx).problem,
                refinement_ctx.population == old(refinement_ctx).population,
                refinement_ctx.quota == old(refinement_ctx).quota,
                refinement_ctx.statistics == old(refinement_ctx).statistics,
            decreases self.terminations@.len() - t,
        {
            let one: bool = self.terminations[t].is_termination(refinement_ctx);
            answers.push(one);
            t = t + 1;
        }
        let terminated: bool = any_of(&answers);
        assert(answers@.len() == self.terminations@.len() && terminated == spec_any(answers@));
        terminated
    }

    /// The largest estimate of the criteria, and `0` without a criterion.
    fn estimate(&self, refinement_ctx: &RefinementContext) -> (estimate: u64)
        ensures
            exists|estimates: Seq<u64>|
                estimates.len() == self.terminations@.len() && estimate == #[trigger] spec_largest(
                    estimates,
                    estimates.len() as int,
                ),
            estimate <= 1000,
    {
        let mut estimates: Vec<u64> = Vec::new();
        let mut t: usize = 0;
        while t < self.terminations.len()
            invariant
                t <= self.terminations@.len(),
                estimates@.len() == t,
                forall|k: int| 0 <= k < t ==> estimates@[k] <= 1000,
            decreases self.terminations@.len() - t,
        {
            let one: u64 = self.terminations[t].estimate(refinement_ctx);
            estimates.push(one);
            t = t + 1;
        }
        let estimate: u64 = largest_of(&estimates);
        proof {
            lemma_largest(estimates@, estimates@.len() as int);
        }
        assert(estimates@.len() == self.terminations@.len() && estimate == spec_largest(
            estimates@,
            estimates@.len() as int,
        ));
        estimate
    }
}

} // verus!
