//! The ranked container of the individuals that the search holds.

use vstd::prelude::*;
use crate::construction::context::{Individual, InsertionView};
use crate::models::problem::Problem;
use crate::solver::objective::{spec_fitness, Fitness};
use crate::solver::refinement::Statistics;

verus! {

/// The views of a list of individuals.
pub open spec fn spec_individual_views(individuals: Seq<Individual>) -> Seq<InsertionView> {
    Seq::new(individuals.len(), |i: int| individuals[i]@)
}

/// Individuals from the best to the worst, at most `max_size` of them. An
/// individual that ranks like one that is already held stands behind it.
pub struct Population {
    pub max_size: usize,
    pub individuals: Vec<Individual>,
}

/// A population as a value.
pub struct PopulationView {
    pub max_size: usize,
    pub individuals: Seq<InsertionView>,
}

impl View for Population {
    type V = PopulationView;

    open spec fn view(&self) -> PopulationView {
        PopulationView {
            max_size: self.max_size,
            individuals: spec_individual_views(self.individuals@),
        }
    }
}

/// Where a new individual goes among those held: in front of the first one
/// that it is better than, counted from `from`.
pub open spec fn spec_rank_position(
    problem: &Problem,
    individuals: Seq<InsertionView>,
    new: InsertionView,
    from: int,
) -> int
    decreases individuals.len() - from,
{
    if from < 0 || from >= individuals.len() {
        individuals.len() as int
    } else if spec_fitness(problem, new.solution).spec_better(
        spec_fitness(problem, individuals[from].solution),
    ) {
        from
    } else {
        spec_rank_position(problem, individuals, new, from + 1)
    }
}

/// The individuals held after `new` was added: it takes its place by rank,
/// and what then exceeds `max_size` falls off the end.
pub open spec fn spec_add(
    problem: &Problem,
    individuals: Seq<InsertionView>,
    max_size: usize,
    new: InsertionView,
) -> Seq<InsertionView> {
    let at = spec_rank_position(problem, individuals, new, 0);
    let grown = individuals.insert(at, new);
    if grown.len() > max_size {
        grown.take(max_size as int)
    } else {
        grown
    }
}

/// Where a new individual goes lies within the list.
pub proof fn lemma_rank_position_in_range(
    problem: &Problem,
    individuals: Seq<InsertionView>,
    new: InsertionView,
    from: int,
)
    requires
        0 <= from <= individuals.len(),
    ensures
        from <= spec_rank_position(problem, individuals, new, from) <= individuals.len(),
    decreases individuals.len() - from,
{
    if from < individuals.len() && !spec_fitness(problem, new.solution).spec_better(
        spec_fitness(problem, individuals[from].solution),
    ) {
        lemma_rank_position_in_range(problem, individuals, new, from + 1);
    }
}

/// Whatever is held after an individual was added was held before or is the
/// new one.
pub proof fn lemma_add_members(
    problem: &Problem,
    individuals: Seq<InsertionView>,
    max_size: usize,
    new: InsertionView,
)
    ensures
        forall|i: int|
            0 <= i < spec_add(problem, individuals, max_size, new).len() ==> (#[trigger] spec_add(
                problem,
                individuals,
                max_size,
                new,
            )[i]) == new || individuals.contains(spec_add(problem, individuals, max_size, new)[i]),
        spec_add(problem, individuals, max_size, new).len() <= individuals.len() + 1,
        spec_add(problem, individuals, max_size, new).len() <= max_size,
        max_size > 0 ==> spec_add(problem, individuals, max_size, new).len() > 0,
{
    lemma_rank_position_in_range(problem, individuals, new, 0);
    let at = spec_rank_position(problem, individuals, new, 0);
    let grown = individuals.insert(at, new);
    let out = spec_add(problem, individuals, max_size, new);
    assert forall|i: int| 0 <= i < out.len() implies (#[trigger] out[i]) == new
        || individuals.contains(out[i]) by {
        assert(out[i] == grown[i]);
        if i < at {
            assert(grown[i] == individuals[i]);
        } else if i > at {
            assert(grown[i] == individuals[i - 1]);
        }
    }
}

/// Whether individuals stand from the best to the worst: none is better
/// than one that stands in front of it.
pub open spec fn spec_ranked(problem: &Problem, individuals: Seq<InsertionView>) -> bool {
    forall|i: int, j: int|
        0 <= i < j < individuals.len() ==> !spec_fitness(problem, (#[trigger] individuals[j]).solution).spec_better(
            spec_fitness(problem, (#[trigger] individuals[i]).solution),
        )
}

/// A new individual goes behind every individual that it is not better
/// than, and in front of the first one that it is better than.
pub proof fn lemma_rank_position(problem: &Problem, individuals: Seq<InsertionView>, new: InsertionView, from: int)
    requires
        0 <= from <= individuals.len(),
    ensures
        forall|i: int|
            from <= i < spec_rank_position(problem, individuals, new, from) ==> !spec_fitness(
                problem,
                new.solution,
            ).spec_better(spec_fitness(problem, (#[trigger] individuals[i]).solution)),
        spec_rank_position(problem, individuals, new, from) < individuals.len() ==> spec_fitness(
            problem,
            new.solution,
        ).spec_better(
            spec_fitness(problem, individuals[spec_rank_position(problem, individuals, new, from)].solution),
        ),
    decreases individuals.len() - from,
{
    if from < individuals.len() && !spec_fitness(problem, new.solution).spec_better(
        spec_fitness(problem, individuals[from].solution),
    ) {
        lemma_rank_position(problem, individuals, new, from + 1);
    }
}

/// Individuals that stand from the best to the worst still do after one
/// more was added.
#[verifier::rlimit(40)]
pub proof fn lemma_add_keeps_rank(
    problem: &Problem,
    individuals: Seq<InsertionView>,
    max_size: usize,
    new: InsertionView,
)
    requires
        spec_ranked(problem, individuals),
    ensures
        spec_ranked(problem, spec_add(problem, individuals, max_size, new)),
{
    lemma_rank_position_in_range(problem, individuals, new, 0);
    lemma_rank_position(problem, individuals, new, 0);
    let at = spec_rank_position(problem, individuals, new, 0);
    let grown = individuals.insert(at, new);
    let out = spec_add(problem, individuals, max_size, new);
    assert forall|i: int, j: int| 0 <= i < j < out.len() implies !spec_fitness(
        problem,
        (#[trigger] out[j]).solution,
    ).spec_better(spec_fitness(problem, (#[trigger] out[i]).solution)) by {
        assert(out[i] == grown[i] && out[j] == grown[j]);
        if j < at {
            assert(grown[i] == individuals[i] && grown[j] == individuals[j]);
        } else if j == at {
            assert(grown[i] == individuals[i]);
        } else if i < at {
            assert(grown[i] == individuals[i] && grown[j] == individuals[j - 1]);
        } else if i == at {
            assert(grown[j] == individuals[j - 1]);
            if j - 1 > at {
                assert(!spec_fitness(problem, individuals[j - 1].solution).spec_better(
                    spec_fitness(problem, individuals[at].solution),
                ));
            }
        } else {
            assert(grown[i] == individuals[i - 1] && grown[j] == individuals[j - 1]);
        }
    }
}

impl Population {
    /// An empty population that holds up to `max_size` individuals.
    pub fn new(max_size: usize) -> (population: Population)
        ensures
            population@.max_size == max_size,
            population@.individuals == Seq::<InsertionView>::empty(),
    {
        let population = Population { max_size, individuals: Vec::new() };
        assert(population@.individuals =~= Seq::<InsertionView>::empty());
        population
    }

    /// A population that holds only the best individual it was given, and
    /// to begin with `individual`, if there is one.
    pub fn greedy(individual: Option<Individual>) -> (population: Population)
        ensures
            population@.max_size == 1,
            population@.individuals == match individual {
                Some(first) => seq![first@],
                None => Seq::<InsertionView>::empty(),
            },
    {
        let mut individuals: Vec<Individual> = Vec::new();
        match individual {
            Some(first) => {
                individuals.push(first);
            },
            None => {},
        }
        let population = Population { max_size: 1, individuals };
        assert(population@.individuals =~= match individual {
            Some(first) => seq![first@],
            None => Seq::<InsertionView>::empty(),
        });
        population
    }

    /// The number of individuals held.
    pub fn size(&self) -> (size: usize)
        ensures
            size == self@.individuals.len(),
    {
        self.individuals.len()
    }

    /// Adds an individual at the place of its rank; the worst individual
    /// falls out where the population holds more than `max_size` then. A
    /// population that stood from the best to the worst still does.
    pub fn add(&mut self, problem: &Problem, individual: Individual)
        ensures
            final(self)@.max_size == old(self)@.max_size,
            final(self)@.individuals == spec_add(
                problem,
                old(self)@.individuals,
                old(self)@.max_size,
                individual@,
            ),
            spec_ranked(problem, old(self)@.individuals) ==> spec_ranked(problem, final(self)@.individuals),
    {
        proof {
            if spec_ranked(problem, self@.individuals) {
                lemma_add_keeps_rank(problem, self@.individuals, self.max_size, individual@);
            }
        }
        let fitness: Fitness = problem.estimate_cost(&individual);
        let ghost before = self@.individuals;
        let mut at: usize = 0;
        let mut found: bool = false;
        while !found && at < self.individuals.len()
            invariant
                *self == *old(self),
                before == self@.individuals,
                at <= self.individuals@.len(),
                fitness == spec_fitness(problem, individual@.solution),
                spec_rank_position(problem, before, individual@, 0) == spec_rank_position(
                    problem,
                    before,
                    individual@,
                    at as int,
                ),
                found ==> at < self.individuals@.len() && fitness.spec_better(
                    spec_fitness(problem, before[at as int].solution),
                ),
            decreases self.individuals@.len() - at + (if found { 0int } else { 1int }),
        {
            let other: Fitness = problem.estimate_cost(&self.individuals[at]);
            if fitness.better(&other) {
                found = true;
            } else {
                at = at + 1;
            }
        }
        assert(at == spec_rank_position(problem, before, individual@, 0));
        let ghost new = individual@;
        self.individuals.insert(at, individual);
        assert(self@.individuals =~= before.insert(at as int, new));
        if self.individuals.len() > self.max_size {
            self.individuals.truncate(self.max_size);
            assert(self@.individuals =~= before.insert(at as int, new).take(self.max_size as int));
        }
    }

    /// Takes note of the end of a generation. A population of this kind
    /// keeps nothing by generation: it stays as it is.
    pub fn on_generation(&mut self, statistics: &Statistics)
        ensures
            *final(self) == *old(self),
    {
    }

    /// The individual to mutate next: the best one.
    pub fn select(&self) -> (selected: Option<&Individual>)
        ensures
            match selected {
                Some(individual) => self@.individuals.len() > 0 && individual@
                    == self@.individuals[0],
                None => self@.individuals.len() == 0,
            },
    {
        if self.individuals.len() > 0 {
            Some(&self.individuals[0])
        } else {
            None
        }
    }

    /// The individuals from the best to the worst; the rank of each is its
    /// position.
    pub fn ranked(&self) -> (ranked: &Vec<Individual>)
        ensures
            spec_individual_views(ranked@) == self@.individuals,
    {
        &self.individuals
    }

    /// The best individual.
    pub fn best(&self) -> (best: Option<&Individual>)
        ensures
            match best {
                Some(individual) => self@.individuals.len() > 0 && individual@
                    == self@.individuals[0],
                None => self@.individuals.len() == 0,
            },
    {
        self.select()
    }
}

} // verus!
