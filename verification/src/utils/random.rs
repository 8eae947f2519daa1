//! A small reproducible source of randomness that each individual carries.

use vstd::prelude::*;

verus! {

/// The state of a generator. Two generators in the same state draw the same
/// numbers.
#[derive(Clone, Copy, Debug)]
pub struct Random {
    pub state: u64,
}

/// The sum of the first `n` weights.
pub open spec fn spec_weight_sum(weights: Seq<usize>, n: int) -> int
    decreases n,
{
    if n <= 0 {
        0
    } else {
        spec_weight_sum(weights, n - 1) + weights[n - 1]
    }
}

/// The position that a `ticket` selects among `weights`: the first one at
/// which the running sum of the weights exceeds the ticket.
pub open spec fn spec_bucket(weights: Seq<usize>, ticket: int, from: int) -> int
    decreases weights.len() - from,
{
    if from >= weights.len() {
        weights.len() as int
    } else if ticket < spec_weight_sum(weights, from + 1) {
        from
    } else {
        spec_bucket(weights, ticket, from + 1)
    }
}

pub proof fn lemma_weight_sum_monotone(weights: Seq<usize>, a: int, b: int)
    requires
        0 <= a <= b <= weights.len(),
    ensures
        0 <= spec_weight_sum(weights, a) <= spec_weight_sum(weights, b),
    decreases b,
{
    if a < b {
        lemma_weight_sum_monotone(weights, a, b - 1);
    } else if a > 0 {
        lemma_weight_sum_monotone(weights, a - 1, a - 1);
        lemma_weight_sum_monotone(weights, 0, a - 1);
    }
}

/// A ticket below the sum of all weights selects a position of the list, and
/// the weight at that position is not zero.
pub proof fn lemma_bucket_in_range(weights: Seq<usize>, ticket: int, from: int)
    requires
        0 <= from <= weights.len(),
        spec_weight_sum(weights, from) <= ticket < spec_weight_sum(weights, weights.len() as int),
    ensures
        from <= spec_bucket(weights, ticket, from) < weights.len(),
        weights[spec_bucket(weights, ticket, from)] > 0,
    decreases weights.len() - from,
{
    if from < weights.len() && ticket >= spec_weight_sum(weights, from + 1) {
        lemma_bucket_in_range(weights, ticket, from + 1);
    }
}

impl Random {
    /// The state that follows `state`.
    pub open spec fn spec_step(state: u64) -> u64 {
        vstd::wrapping::u64_specs::wrapping_add(
            vstd::wrapping::u64_specs::wrapping_mul(state, 6364136223846793005u64),
            1442695040888963407u64,
        )
    }

    /// The position that the generator selects among `weights` from its
    /// present state: the weights' sum is cut at the next state's value,
    /// reduced modulo the sum. Without a positive weight it is `0`.
    pub open spec fn spec_weighted(&self, weights: Seq<usize>) -> int {
        let total = spec_weight_sum(weights, weights.len() as int);
        if total <= 0 {
            0
        } else {
            spec_bucket(weights, Self::spec_step(self.state) as int % total, 0)
        }
    }

    /// A generator that starts from `seed`.
    pub fn new(seed: u64) -> (random: Random)
        ensures
            random.state == seed,
    {
        Random { state: seed }
    }

    /// Draws the next number.
    pub fn next(&mut self) -> (value: u64)
        ensures
            value == Self::spec_step(old(self).state),
            final(self).state == value,
    {
        let value: u64 = self.state.wrapping_mul(6364136223846793005u64).wrapping_add(
            1442695040888963407u64,
        );
        self.state = value;
        value
    }

    /// Selects a position of `weights` with a chance in proportion to its
    /// weight. With no positive weight the first position is selected.
    pub fn weighted(&mut self, weights: &Vec<usize>) -> (index: usize)
        ensures
            index == old(self).spec_weighted(weights@),
            final(self).state == Self::spec_step(old(self).state),
            weights@.len() > 0 ==> index < weights@.len(),
            spec_weight_sum(weights@, weights@.len() as int) > 0 ==> weights@[index as int] > 0,
    {
        let value: u64 = self.next();
        let mut total: u128 = 0;
        let mut i: usize = 0;
        while i < weights.len()
            invariant
                i <= weights.len(),
                total == spec_weight_sum(weights@, i as int),
                total <= i * usize::MAX,
            decreases weights.len() - i,
        {
            assert((i + 1) * usize::MAX == i * usize::MAX + usize::MAX) by (nonlinear_arith);
            assert(i * usize::MAX + usize::MAX <= u128::MAX) by (nonlinear_arith)
                requires
                    i < usize::MAX,
                    usize::MAX <= u64::MAX,
            ;
            total = total + weights[i] as u128;
            i = i + 1;
        }
        if total == 0 {
            return 0;
        }
        let ticket: u128 = value as u128 % total;
        proof {
            lemma_weight_sum_monotone(weights@, 0, 0);
            lemma_bucket_in_range(weights@, ticket as int, 0);
        }
        let mut running: u128 = 0;
        let mut k: usize = 0;
        while k < weights.len()
            invariant
                k <= weights.len(),
                running == spec_weight_sum(weights@, k as int),
                running <= ticket,
                ticket < total,
                total == spec_weight_sum(weights@, weights@.len() as int),
                spec_bucket(weights@, ticket as int, 0) == spec_bucket(weights@, ticket as int, k as int),
                ticket == value as int % (total as int),
                value == Self::spec_step(old(self).state),
                self.state == value,
                total > 0,
            decreases weights.len() - k,
        {
            proof {
                lemma_weight_sum_monotone(weights@, k as int + 1, weights@.len() as int);
            }
            running = running + weights[k] as u128;
            if ticket < running {
                return k;
            }
            k = k + 1;
        }
        0
    }
}

} // verus!
