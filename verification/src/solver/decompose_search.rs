//! A mutation that splits a solution into parts, refines each part on its
//! own, and puts the parts together again.
//!
//! The routes of the best individual are grouped by how close they lie to
//! each other. Each group becomes an individual of its own with nothing but
//! the routes of the group; the jobs that are not served go into one more
//! individual without routes. Each part is refined for a number of rounds by
//! another mutation, and the best of every part is merged into the result.

use vstd::prelude::*;
use crate::construction::context::{Individual, InsertionContext, InsertionView, RegistryView};
use crate::construction::context::{RouteContext, RouteView, SolutionContext, SolutionView};
use crate::construction::context::{lemma_tour_jobs_contains, retain_indices};
use crate::construction::context::{spec_actors_of, spec_jobs_of};
use crate::construction::context::{spec_retain, spec_route_views, spec_routes_serve, spec_routes_use};
use crate::construction::context::spec_routes_unique;
use crate::construction::constraints::{lemma_accept_solution_keeps_jobs, spec_accept_solution};
use crate::construction::feasibility::{lemma_accept_solution_feasible, spec_route_feasible};
use crate::construction::feasibility::spec_solution_feasible;
use crate::construction::metrics::{get_medoid, spec_locations, spec_medoid};
use crate::models::common::{Location, Profile};
use crate::models::problem::Problem;
use crate::solver::decomposition::{group_routes, route_groups_distances, spec_group_views};
use crate::solver::decomposition::{spec_groups, spec_route_groups_distances, spec_splits};
use crate::solver::decomposition::{spec_in_groups, spec_member, spec_total};
use crate::solver::merging::{absorb, lemma_merge_actors, lemma_merge_upto, spec_all_unique, spec_apart};
use crate::solver::merging::spec_empty_solution;
use crate::solver::merging::{spec_merge_upto, spec_some_active, spec_some_ignores, spec_some_uses};
use crate::solver::mutation::Mutation;
use crate::solver::population::{Population, PopulationView, spec_add, spec_individual_views, lemma_add_members};
use crate::solver::refinement::{RefinementContext, RefinementView, Statistics};
use crate::utils::index_set::{index_set_contents, index_set_insert, index_set_new};
use crate::utils::random::Random;

verus! {

/// The medoid of every route.
pub open spec fn spec_route_medoids(problem: &Problem, routes: Seq<RouteView>) -> Seq<Option<Location>> {
    Seq::new(
        routes.len(),
        |r: int|
            spec_medoid(
                &problem.transport,
                problem.spec_profile(routes[r].actor),
                spec_locations(routes[r].tour),
            ),
    )
}

/// The groups into which the routes of a solution fall. Distances between
/// medoids are taken under the profile of the first route's vehicle.
pub open spec fn spec_route_groups(problem: &Problem, routes: Seq<RouteView>) -> Seq<Seq<usize>> {
    spec_groups(
        spec_route_groups_distances(
            &problem.transport,
            problem.spec_profile(routes[0].actor),
            spec_route_medoids(problem, routes),
        ),
        0,
        Set::empty(),
    )
}

/// The routes of a group, in the order of the group.
pub open spec fn spec_routes_of(routes: Seq<RouteView>, group: Seq<usize>) -> Seq<RouteView> {
    Seq::new(group.len(), |k: int| routes[group[k] as int])
}

/// The part of an individual that a group of routes forms: the routes of
/// the group, a registry that knows their actors only, those locked jobs
/// that the routes serve, and no job outside the routes.
pub open spec fn spec_partial(individual: InsertionView, group: Seq<usize>) -> InsertionView {
    let routes = spec_routes_of(individual.solution.routes, group);
    InsertionView {
        solution: SolutionView {
            required: Seq::empty(),
            ignored: Seq::empty(),
            unassigned: Seq::empty(),
            locked: spec_retain(individual.solution.locked, spec_jobs_of(routes)),
            routes,
            registry: RegistryView {
                all: spec_retain(individual.solution.registry.all, spec_actors_of(routes)),
                available: spec_retain(
                    individual.solution.registry.available,
                    spec_actors_of(routes),
                ),
            },
            state: Seq::empty(),
        },
        random: individual.random,
    }
}

/// The part of an individual that carries the jobs outside its routes: it
/// has no routes, and the required, ignored, unassigned and locked jobs and
/// the registry of the individual.
pub open spec fn spec_carrier(individual: InsertionView) -> InsertionView {
    InsertionView {
        solution: SolutionView {
            required: individual.solution.required,
            ignored: individual.solution.ignored,
            unassigned: individual.solution.unassigned,
            locked: individual.solution.locked,
            routes: Seq::empty(),
            registry: individual.solution.registry,
            state: Seq::empty(),
        },
        random: individual.random,
    }
}

/// The carriers of an individual: one if it has required or unassigned jobs,
/// none otherwise.
pub open spec fn spec_empty_individuals(individual: InsertionView) -> Seq<InsertionView> {
    if individual.solution.required.len() == 0 && individual.solution.unassigned.len() == 0 {
        Seq::empty()
    } else {
        seq![spec_carrier(individual)]
    }
}

/// The parts of an individual for given groups of routes, group by group.
pub open spec fn spec_partials(individual: InsertionView, groups: Seq<Seq<usize>>) -> Seq<InsertionView> {
    Seq::new(groups.len(), |g: int| spec_partial(individual, groups[g]))
}

/// The parts into which an individual with at least one route is split: one
/// for each group of routes, then the carrier if there is one.
pub open spec fn spec_multiple_individuals(problem: &Problem, individual: InsertionView) -> Seq<InsertionView> {
    spec_partials(individual, spec_route_groups(problem, individual.solution.routes))
        + spec_empty_individuals(individual)
}

/// The parts that a decomposition of an individual works on, if it is worth
/// it: the individual has a route and falls into more than one part.
pub open spec fn spec_decomposed(problem: &Problem, individual: InsertionView) -> Option<Seq<InsertionView>> {
    if individual.solution.routes.len() > 0 && spec_multiple_individuals(problem, individual).len()
        > 1 {
        Some(spec_multiple_individuals(problem, individual))
    } else {
        None
    }
}

/// A population that keeps only the best individual, and starts with
/// `individual`.
pub fn create_population(individual: Individual) -> (population: Population)
    ensures
        population@ == (PopulationView { max_size: 1, individuals: seq![individual@] }),
{
    Population::greedy(Some(individual))
}

/// Builds the part of an individual that the routes at `route_indices` form.
pub fn create_partial_individual(individual: &Individual, route_indices: &Vec<usize>) -> (partial: Individual)
    requires
        forall|k: int|
            0 <= k < route_indices@.len() ==> (#[trigger] route_indices@[k])
                < individual.solution.routes@.len(),
    ensures
        partial@ == spec_partial(individual@, route_indices@),
{
    let ghost source = individual@.solution.routes;
    let ghost target = spec_routes_of(source, route_indices@);
    let mut routes: Vec<RouteContext> = Vec::new();
    let mut actors = index_set_new();
    let mut jobs = index_set_new();
    let mut k: usize = 0;
    while k < route_indices.len()
        invariant
            k <= route_indices@.len(),
            source == individual@.solution.routes,
            target == spec_routes_of(source, route_indices@),
            forall|i: int|
                0 <= i < route_indices@.len() ==> (#[trigger] route_indices@[i])
                    < individual.solution.routes@.len(),
            routes@.len() == k,
            forall|i: int| 0 <= i < k ==> (#[trigger] routes@[i])@ == target[i],
            forall|actor: usize|
                #[trigger] index_set_contents(actors).contains(actor) <==> spec_routes_use(
                    target.take(k as int),
                    actor,
                ),
            forall|job: usize|
                #[trigger] index_set_contents(jobs).contains(job) <==> spec_routes_serve(
                    target.take(k as int),
                    job,
                ),
        decreases route_indices@.len() - k,
    {
        let route = individual.solution.routes[route_indices[k]].deep_copy();
        let ghost shorter = target.take(k as int);
        let ghost longer = target.take(k as int + 1);
        let ghost actors_before = index_set_contents(actors);
        let ghost jobs_before = index_set_contents(jobs);
        assert(route@ == target[k as int]);
        index_set_insert(&mut actors, route.actor);
        assert forall|actor: usize| #[trigger] index_set_contents(actors).contains(actor)
            <==> spec_routes_use(longer, actor) by {
            assert(actors_before.contains(actor) <==> spec_routes_use(shorter, actor));
            if spec_routes_use(longer, actor) {
                let r = choose|r: int| 0 <= r < longer.len() && (#[trigger] longer[r]).actor == actor;
                if r < k {
                    assert(shorter[r].actor == actor);
                }
            }
            if spec_routes_use(shorter, actor) {
                let r = choose|r: int| 0 <= r < shorter.len() && (#[trigger] shorter[r]).actor == actor;
                assert(longer[r].actor == actor);
            }
            if actor == route.actor {
                assert(longer[k as int].actor == actor);
            }
        }
        let served = route.jobs();
        let mut j: usize = 0;
        while j < served.len()
            invariant
                j <= served@.len(),
                forall|job: usize|
                    #[trigger] index_set_contents(jobs).contains(job) <==> (jobs_before.contains(job)
                        || served@.take(j as int).contains(job)),
            decreases served@.len() - j,
        {
            let ghost few = served@.take(j as int);
            let ghost more = served@.take(j as int + 1);
            let ghost old_set = index_set_contents(jobs);
            index_set_insert(&mut jobs, served[j]);
            assert forall|job: usize| #[trigger] index_set_contents(jobs).contains(job) <==> (
            jobs_before.contains(job) || more.contains(job)) by {
                assert(old_set.contains(job) <==> (jobs_before.contains(job) || few.contains(job)));
                if more.contains(job) {
                    let i = choose|i: int| 0 <= i < more.len() && more[i] == job;
                    if i < j {
                        assert(few[i] == job);
                    }
                }
                if few.contains(job) {
                    let i = choose|i: int| 0 <= i < few.len() && few[i] == job;
                    assert(more[i] == job);
                }
                if job == served@[j as int] {
                    assert(more[j as int] == job);
                }
            }
            j = j + 1;
        }
        assert(served@.take(j as int) =~= served@);
        assert forall|job: usize| #[trigger] index_set_contents(jobs).contains(job)
            <==> spec_routes_serve(longer, job) by {
            assert(jobs_before.contains(job) <==> spec_routes_serve(shorter, job));
            lemma_tour_jobs_contains(route.tour@, job);
            assert(served@.contains(job) <==> route@.serves(job));
            if spec_routes_serve(longer, job) {
                let r = choose|r: int| 0 <= r < longer.len() && (#[trigger] longer[r]).serves(job);
                if r < k {
                    assert(shorter[r].serves(job));
                }
            }
            if spec_routes_serve(shorter, job) {
                let r = choose|r: int| 0 <= r < shorter.len() && (#[trigger] shorter[r]).serves(job);
                assert(longer[r].serves(job));
            }
            if route@.serves(job) {
                assert(longer[k as int].serves(job));
            }
        }
        routes.push(route);
        k = k + 1;
    }
    assert(target.take(k as int) =~= target);
    assert(index_set_contents(actors) =~= spec_actors_of(target));
    assert(index_set_contents(jobs) =~= spec_jobs_of(target));
    assert(spec_route_views(routes@) =~= target);
    let registry = individual.solution.registry.deep_slice(&actors);
    let locked = retain_indices(&individual.solution.locked, &jobs);
    InsertionContext {
        solution: SolutionContext {
            required: Vec::new(),
            ignored: Vec::new(),
            unassigned: Vec::new(),
            locked,
            routes,
            registry,
            state: Vec::new(),
        },
        random: individual.random,
    }
}

/// Builds the carrier of an individual, if it has required or unassigned
/// jobs.
pub fn create_empty_individuals(individual: &Individual) -> (carriers: Vec<Individual>)
    ensures
        spec_individual_views(carriers@) == spec_empty_individuals(individual@),
{
    let mut carriers: Vec<Individual> = Vec::new();
    if individual.solution.required.is_empty() && individual.solution.unassigned.is_empty() {
        assert(spec_individual_views(carriers@) =~= spec_empty_individuals(individual@));
        carriers
    } else {
        let required = individual.solution.required.clone();
        let ignored = individual.solution.ignored.clone();
        let unassigned = individual.solution.unassigned.clone();
        let locked = individual.solution.locked.clone();
        assert(required@ =~= individual.solution.required@);
        assert(ignored@ =~= individual.solution.ignored@);
        assert(unassigned@ =~= individual.solution.unassigned@);
        assert(locked@ =~= individual.solution.locked@);
        let carrier = InsertionContext {
            solution: SolutionContext {
                required,
                ignored,
                unassigned,
                locked,
                routes: Vec::new(),
                registry: individual.solution.registry.deep_copy(),
                state: Vec::new(),
            },
            random: individual.random,
        };
        assert(carrier@.solution.routes =~= Seq::<RouteView>::empty());
        assert(carrier@ == spec_carrier(individual@));
        carriers.push(carrier);
        assert(spec_individual_views(carriers@) =~= spec_empty_individuals(individual@));
        carriers
    }
}

/// Splits an individual into parts: one for each group of routes that lie
/// close to each other, and one more that carries the required and the
/// unassigned jobs, if there are any. An individual without routes is not
/// split.
pub fn create_multiple_individuals(individual: &Individual, problem: &Problem) -> (parts: Option<Vec<Individual>>)
    ensures
        match parts {
            Some(individuals) => individual@.solution.routes.len() > 0 && spec_individual_views(
                individuals@,
            ) == spec_multiple_individuals(problem, individual@),
            None => individual@.solution.routes.len() == 0,
        },
{
    let n: usize = individual.solution.routes.len();
    if n == 0 {
        return None;
    }
    let profile: Profile = problem.profile(individual.solution.routes[0].actor);
    let mut medoids: Vec<Option<Location>> = Vec::new();
    let mut r: usize = 0;
    while r < n
        invariant
            n == individual.solution.routes@.len(),
            r <= n,
            medoids@.len() == r,
            forall|i: int|
                0 <= i < r ==> #[trigger] medoids@[i] == spec_route_medoids(
                    problem,
                    individual@.solution.routes,
                )[i],
        decreases n - r,
    {
        medoids.push(get_medoid(&individual.solution.routes[r], problem));
        r = r + 1;
    }
    assert(medoids@ =~= spec_route_medoids(problem, individual@.solution.routes));
    let lists = route_groups_distances(&problem.transport, profile, &medoids);
    let groups = group_routes(&lists);
    let ghost group_views = spec_group_views(groups@);
    assert(group_views == spec_route_groups(problem, individual@.solution.routes));
    let mut individuals: Vec<Individual> = Vec::new();
    let mut g: usize = 0;
    while g < groups.len()
        invariant
            n == individual.solution.routes@.len(),
            g <= groups@.len(),
            group_views == spec_group_views(groups@),
            spec_splits(group_views, n as int),
            individuals@.len() == g,
            forall|i: int|
                0 <= i < g ==> (#[trigger] individuals@[i])@ == spec_partial(
                    individual@,
                    group_views[i],
                ),
        decreases groups@.len() - g,
    {
        assert(group_views[g as int] == groups@[g as int]@);
        assert forall|k: int| 0 <= k < groups@[g as int]@.len() implies (#[trigger] groups@[g as int]@[k])
            < individual.solution.routes@.len() by {
            assert(spec_member(group_views, g as int, k));
            assert(group_views[g as int][k] < n);
        }
        individuals.push(create_partial_individual(individual, &groups[g]));
        g = g + 1;
    }
    let ghost partials = spec_individual_views(individuals@);
    assert(partials =~= spec_partials(individual@, group_views));
    let mut carriers = create_empty_individuals(individual);
    let ghost carrier_views = spec_individual_views(carriers@);
    individuals.append(&mut carriers);
    assert(spec_individual_views(individuals@) =~= partials + carrier_views);
    Some(individuals)
}

/// Splits an individual into parts and sets up a refinement of its own for
/// each part: the same problem and quota, a population that holds the part
/// alone, no state, and counters at their start. There is no result where the
/// individual has no route or does not fall into more than one part.
pub fn decompose_individual<'a>(refinement_ctx: &RefinementContext<'a>, individual: &Individual) -> (contexts:
    Option<Vec<RefinementContext<'a>>>)
    ensures
        match contexts {
            Some(contexts) => {
                &&& spec_decomposed(refinement_ctx.problem, individual@) is Some
                &&& contexts@.len() == spec_decomposed(refinement_ctx.problem, individual@)->0.len()
                &&& forall|p: int|
                    0 <= p < contexts@.len() ==> {
                        &&& (#[trigger] contexts@[p]).problem == refinement_ctx.problem
                        &&& contexts@[p].quota == refinement_ctx.quota
                        &&& contexts@[p].state@.len() == 0
                        &&& contexts@[p]@ == spec_part_context(
                            spec_decomposed(refinement_ctx.problem, individual@)->0[p],
                        )
                    }
            },
            None => spec_decomposed(refinement_ctx.problem, individual@) is None,
        },
{
    match create_multiple_individuals(individual, refinement_ctx.problem) {
        Some(mut individuals) => {
            let ghost parts = spec_individual_views(individuals@);
            if individuals.len() > 1 {
                let mut contexts: Vec<RefinementContext<'a>> = Vec::new();
                let total: usize = individuals.len();
                while individuals.len() > 0
                    invariant
                        total == parts.len(),
                        individuals@.len() <= total,
                        contexts@.len() + individuals@.len() == total,
                        forall|i: int|
                            0 <= i < individuals@.len() ==> (#[trigger] individuals@[i])@ == parts[i],
                        forall|p: int|
                            0 <= p < contexts@.len() ==> {
                                &&& (#[trigger] contexts@[p]).problem == refinement_ctx.problem
                                &&& contexts@[p].quota == refinement_ctx.quota
                                &&& contexts@[p].state@.len() == 0
                                &&& contexts@[p]@ == spec_part_context(parts[total - 1 - p])
                            },
                    decreases individuals@.len(),
                {
                    let part = individuals.pop().unwrap();
                    contexts.push(
                        RefinementContext {
                            problem: refinement_ctx.problem,
                            population: create_population(part),
                            state: Vec::new(),
                            quota: refinement_ctx.quota,
                            statistics: Statistics::default(),
                        },
                    );
                }
                let mut ordered: Vec<RefinementContext<'a>> = Vec::new();
                while contexts.len() > 0
                    invariant
                        total == parts.len(),
                        contexts@.len() + ordered@.len() == total,
                        forall|p: int|
                            0 <= p < contexts@.len() ==> {
                                &&& (#[trigger] contexts@[p]).problem == refinement_ctx.problem
                                &&& contexts@[p].quota == refinement_ctx.quota
                                &&& contexts@[p].state@.len() == 0
                                &&& contexts@[p]@ == spec_part_context(parts[total - 1 - p])
                            },
                        forall|p: int|
                            0 <= p < ordered@.len() ==> {
                                &&& (#[trigger] ordered@[p]).problem == refinement_ctx.problem
                                &&& ordered@[p].quota == refinement_ctx.quota
                                &&& ordered@[p].state@.len() == 0
                                &&& ordered@[p]@ == spec_part_context(parts[p])
                            },
                    decreases contexts@.len(),
                {
                    let context = contexts.pop().unwrap();
                    ordered.push(context);
                }
                Some(ordered)
            } else {
                None
            }
        },
        None => None,
    }
}

/// The state of the refinement of one part at its start: a population that
/// holds the part alone, and counters at their start.
pub open spec fn spec_part_context(part: InsertionView) -> RefinementView {
    RefinementView {
        population: PopulationView { max_size: 1, individuals: seq![part] },
        statistics: Statistics::spec_default(),
    }
}

/// Whether one of the routes of a group serves `job`.
pub open spec fn spec_group_serves(routes: Seq<RouteView>, group: Seq<usize>, job: usize) -> bool {
    exists|k: int| 0 <= k < group.len() && (#[trigger] routes[group[k] as int]).serves(job)
}

/// What the part of a group knows: the jobs that the routes of the group
/// serve, and none of them twice.
pub proof fn lemma_partial(individual: InsertionView, groups: Seq<Seq<usize>>, g: int)
    requires
        individual.solution.unique(),
        spec_splits(groups, individual.solution.routes.len() as int),
        0 <= g < groups.len(),
    ensures
        spec_partial(individual, groups[g]).solution.unique(),
        forall|job: usize|
            #[trigger] spec_partial(individual, groups[g]).solution.knows(job) <==> spec_group_serves(
                individual.solution.routes,
                groups[g],
                job,
            ),
        forall|job: usize|
            #[trigger] spec_partial(individual, groups[g]).solution.is_active(job)
                <==> spec_group_serves(individual.solution.routes, groups[g], job),
        forall|job: usize| !(#[trigger] spec_partial(individual, groups[g]).solution.ignored.contains(job)),
{
    let routes = individual.solution.routes;
    let group = groups[g];
    let part = spec_partial(individual, group).solution;
    assert forall|job: usize| #[trigger] part.serves(job) <==> spec_group_serves(routes, group, job) by {
        if part.serves(job) {
            let k = choose|k: int| 0 <= k < part.routes.len() && (#[trigger] part.routes[k]).serves(job);
            assert(routes[group[k] as int].serves(job));
        }
        if spec_group_serves(routes, group, job) {
            let k = choose|k: int| 0 <= k < group.len() && (#[trigger] routes[group[k] as int]).serves(job);
            assert(part.routes[k].serves(job));
        }
    }
    assert forall|job: usize| !part.leaves_out(job) by {}
    assert forall|k: int| 0 <= k < group.len() implies (#[trigger] group[k]) < routes.len() by {
        assert(spec_member(groups, g, k));
    }
    assert(spec_routes_unique(part.routes)) by {
        assert forall|r: int| 0 <= r < part.routes.len() implies (#[trigger] part.routes[r]).tour_unique() by {
            assert(routes[group[r] as int].tour_unique());
        }
        assert forall|r1: int, r2: int, job: usize|
            0 <= r1 < part.routes.len() && 0 <= r2 < part.routes.len() && r1 != r2 && (
            #[trigger] part.routes[r1]).serves(job) implies !(#[trigger] part.routes[r2].serves(job)) by {
            assert(spec_member(groups, g, r1) && spec_member(groups, g, r2));
            assert(groups[g][r1] != groups[g][r2]);
            assert(routes[group[r1] as int].serves(job));
            if part.routes[r2].serves(job) {
                assert(routes[group[r2] as int].serves(job));
            }
        }
    }
    assert forall|job: usize| #[trigger] part.in_one_group(job) by {}
}

/// What the carrier knows: the required, ignored and unassigned jobs of the
/// individual, and none of them twice.
pub proof fn lemma_carrier(individual: InsertionView)
    requires
        individual.solution.unique(),
    ensures
        spec_carrier(individual).solution.unique(),
        forall|job: usize| !(#[trigger] spec_carrier(individual).solution.serves(job)),
        forall|job: usize|
            #[trigger] spec_carrier(individual).solution.leaves_out(job)
                <==> individual.solution.leaves_out(job),
{
    let carrier = spec_carrier(individual).solution;
    assert forall|job: usize| #[trigger] carrier.leaves_out(job) <==> individual.solution.leaves_out(job) by {
        if carrier.leaves_out(job) {
            let i = choose|i: int|
                0 <= i < carrier.unassigned.len() && (#[trigger] carrier.unassigned[i]).job == job;
            assert(individual.solution.unassigned[i].job == job);
        }
        if individual.solution.leaves_out(job) {
            let i = choose|i: int|
                0 <= i < individual.solution.unassigned.len() && (
                #[trigger] individual.solution.unassigned[i]).job == job;
            assert(carrier.unassigned[i].job == job);
        }
    }
    assert forall|job: usize| #[trigger] carrier.in_one_group(job) by {
        assert(individual.solution.in_one_group(job));
    }
}

/// The parts of an individual that holds no job twice, for groups that split
/// its routes: no part holds a job twice, no two parts share a job, the parts
/// together serve, require or leave unassigned exactly the jobs that the
/// individual does, and a part ignores only what the individual ignores.
pub proof fn lemma_parts(individual: InsertionView, groups: Seq<Seq<usize>>)
    requires
        individual.solution.unique(),
        individual.solution.routes.len() <= usize::MAX,
        spec_splits(groups, individual.solution.routes.len() as int),
    ensures
        spec_all_unique(spec_partials(individual, groups) + spec_empty_individuals(individual)),
        spec_apart(spec_partials(individual, groups) + spec_empty_individuals(individual)),
        forall|job: usize|
            #[trigger] spec_some_active(
                spec_partials(individual, groups) + spec_empty_individuals(individual),
                (spec_partials(individual, groups) + spec_empty_individuals(individual)).len() as int,
                job,
            ) <==> individual.solution.is_active(job),
        forall|job: usize|
            #[trigger] spec_some_ignores(
                spec_partials(individual, groups) + spec_empty_individuals(individual),
                (spec_partials(individual, groups) + spec_empty_individuals(individual)).len() as int,
                job,
            ) ==> individual.solution.ignored.contains(job),
{
    let routes = individual.solution.routes;
    let partials = spec_partials(individual, groups);
    let carriers = spec_empty_individuals(individual);
    let parts = partials + carriers;
    let count = groups.len() as int;
    lemma_carrier(individual);
    assert forall|p: int| 0 <= p < count implies #[trigger] parts[p] == spec_partial(
        individual,
        groups[p],
    ) by {}
    assert forall|p: int| count <= p < parts.len() implies #[trigger] parts[p] == spec_carrier(
        individual,
    ) by {
        assert(parts[p] == carriers[p - count]);
    }
    assert forall|p: int| 0 <= p < parts.len() implies (#[trigger] parts[p]).solution.unique() by {
        if p < count {
            lemma_partial(individual, groups, p);
        }
    }
    assert forall|p: int, job: usize|
        0 <= p < count && #[trigger] parts[p].solution.knows(job) implies individual.solution.serves(
        job,
    ) && spec_group_serves(routes, groups[p], job) by {
        lemma_partial(individual, groups, p);
        let k = choose|k: int| 0 <= k < groups[p].len() && (#[trigger] routes[groups[p][k] as int]).serves(job);
        assert(spec_member(groups, p, k));
        assert(groups[p][k] < routes.len());
        assert(routes[groups[p][k] as int].serves(job));
    }
    assert forall|p: int, q: int, job: usize|
        0 <= p < parts.len() && 0 <= q < parts.len() && p != q && (#[trigger] parts[p]).solution.knows(
            job,
        ) implies !(#[trigger] parts[q].solution.knows(job)) by {
        if parts[q].solution.knows(job) {
            assert(individual.solution.in_one_group(job));
            if p < count && q < count {
                let k1 = choose|k: int|
                    0 <= k < groups[p].len() && (#[trigger] routes[groups[p][k] as int]).serves(job);
                let k2 = choose|k: int|
                    0 <= k < groups[q].len() && (#[trigger] routes[groups[q][k] as int]).serves(job);
                assert(spec_member(groups, p, k1) && spec_member(groups, q, k2));
                assert(groups[p][k1] != groups[q][k2]);
                assert(groups[p][k1] < routes.len() && groups[q][k2] < routes.len());
                assert(routes[groups[p][k1] as int].serves(job));
                assert(routes[groups[q][k2] as int].serves(job));
            } else if p < count {
                assert(individual.solution.serves(job));
                assert(parts[q] == spec_carrier(individual));
            } else if q < count {
                assert(individual.solution.serves(job));
                assert(parts[p] == spec_carrier(individual));
            } else {
                assert(carriers.len() <= 1);
            }
        }
    }
    assert forall|job: usize| #[trigger] spec_some_active(parts, parts.len() as int, job)
        <==> individual.solution.is_active(job) by {
        if spec_some_active(parts, parts.len() as int, job) {
            let p = choose|p: int|
                0 <= p < parts.len() && p < parts.len() && (#[trigger] parts[p]).solution.is_active(job);
            if p < count {
                assert(parts[p].solution.knows(job));
            } else {
                assert(parts[p] == spec_carrier(individual));
            }
        }
        if individual.solution.is_active(job) {
            if individual.solution.serves(job) {
                let r = choose|r: int| 0 <= r < routes.len() && (#[trigger] routes[r]).serves(job);
                assert(spec_in_groups(groups, r as usize));
                let (g, k) = choose|g: int, k: int|
                    spec_member(groups, g, k) && #[trigger] groups[g][k] == r as usize;
                lemma_partial(individual, groups, g);
                assert(routes[groups[g][k] as int].serves(job));
                assert(spec_group_serves(routes, groups[g], job));
                assert(parts[g].solution.is_active(job));
            } else {
                if individual.solution.required.contains(job) {
                    assert(individual.solution.required.len() > 0);
                } else {
                    assert(individual.solution.unassigned.len() > 0);
                }
                assert(carriers.len() == 1);
                assert(parts[count] == spec_carrier(individual));
                assert(parts[count].solution.is_active(job));
            }
        }
    }
    assert forall|job: usize| #[trigger] spec_some_ignores(parts, parts.len() as int, job)
        implies individual.solution.ignored.contains(job) by {
        let p = choose|p: int|
            0 <= p < parts.len() && p < parts.len() && (#[trigger] parts[p]).solution.ignored.contains(job);
        if p < count {
            lemma_partial(individual, groups, p);
        }
    }
}

/// The groups into which the routes of a solution fall split the routes.
pub proof fn lemma_route_groups_split(problem: &Problem, routes: Seq<RouteView>)
    requires
        routes.len() <= usize::MAX,
    ensures
        spec_splits(spec_route_groups(problem, routes), routes.len() as int),
{
    let medoids = spec_route_medoids(problem, routes);
    let profile = problem.spec_profile(routes[0].actor);
    crate::solver::decomposition::lemma_route_groups_distances_wf(&problem.transport, profile, medoids);
    crate::solver::decomposition::lemma_groups_split(
        spec_route_groups_distances(&problem.transport, profile, medoids),
    );
}

/// Whether an individual keeps to the jobs of the part it was refined from:
/// it holds no job twice, serves, requires or leaves unassigned the same
/// jobs, and ignores only what the part ignored.
pub open spec fn spec_keeps_stock(refined: SolutionView, part: SolutionView) -> bool {
    &&& refined.unique()
    &&& forall|job: usize| #[trigger] refined.is_active(job) <==> part.is_active(job)
    &&& forall|job: usize| #[trigger] refined.ignored.contains(job) ==> part.ignored.contains(job)
}

/// Whether the refinement of a part starts well: the population holds the
/// part alone and keeps only the best individual, and the part holds no job
/// twice.
pub open spec fn spec_sound_start(start: RefinementView) -> bool {
    &&& start.population.max_size == 1
    &&& start.population.individuals.len() == 1
    &&& start.population.individuals[0].solution.unique()
}

/// Whether the refinement of every part starts well and no two parts share
/// a job.
pub open spec fn spec_sound_starts(starts: Seq<RefinementView>) -> bool {
    &&& forall|p: int| 0 <= p < starts.len() ==> spec_sound_start(#[trigger] starts[p])
    &&& spec_apart(spec_starting_parts(starts))
}

/// Individuals that keep to the jobs of parts that share no job share none
/// either, and together they know what the parts know.
pub proof fn lemma_stock_apart(refined: Seq<InsertionView>, parts: Seq<InsertionView>)
    requires
        refined.len() == parts.len(),
        forall|p: int|
            0 <= p < parts.len() ==> spec_keeps_stock(
                (#[trigger] refined[p]).solution,
                parts[p].solution,
            ),
        spec_apart(parts),
    ensures
        spec_all_unique(refined),
        spec_apart(refined),
        forall|job: usize|
            #[trigger] spec_some_active(refined, refined.len() as int, job) <==> spec_some_active(
                parts,
                parts.len() as int,
                job,
            ),
        forall|job: usize|
            #[trigger] spec_some_ignores(refined, refined.len() as int, job) ==> spec_some_ignores(
                parts,
                parts.len() as int,
                job,
            ),
{
    assert forall|p: int, job: usize|
        0 <= p < refined.len() && #[trigger] refined[p].solution.knows(job) implies parts[p].solution.knows(
        job,
    ) by {
        assert(spec_keeps_stock(refined[p].solution, parts[p].solution));
        if refined[p].solution.is_active(job) {
            assert(parts[p].solution.is_active(job));
        } else {
            assert(parts[p].solution.ignored.contains(job));
        }
    }
    assert forall|p: int, q: int, job: usize|
        0 <= p < refined.len() && 0 <= q < refined.len() && p != q && (
        #[trigger] refined[p]).solution.knows(job) implies !(#[trigger] refined[q].solution.knows(job)) by {
        assert(parts[p].solution.knows(job));
        if refined[q].solution.knows(job) {
            assert(parts[q].solution.knows(job));
        }
    }
    assert forall|job: usize| #[trigger] spec_some_active(refined, refined.len() as int, job)
        <==> spec_some_active(parts, parts.len() as int, job) by {
        if spec_some_active(refined, refined.len() as int, job) {
            let p = choose|p: int|
                0 <= p < refined.len() && p < refined.len() && (#[trigger] refined[p]).solution.is_active(
                    job,
                );
            assert(spec_keeps_stock(refined[p].solution, parts[p].solution));
            assert(parts[p].solution.is_active(job));
        }
        if spec_some_active(parts, parts.len() as int, job) {
            let p = choose|p: int|
                0 <= p < parts.len() && p < parts.len() && (#[trigger] parts[p]).solution.is_active(job);
            assert(spec_keeps_stock(refined[p].solution, parts[p].solution));
            assert(refined[p].solution.is_active(job));
        }
    }
    assert forall|job: usize| #[trigger] spec_some_ignores(refined, refined.len() as int, job)
        implies spec_some_ignores(parts, parts.len() as int, job) by {
        let p = choose|p: int|
            0 <= p < refined.len() && p < refined.len() && (
            #[trigger] refined[p]).solution.ignored.contains(job);
        assert(spec_keeps_stock(refined[p].solution, parts[p].solution));
        assert(parts[p].solution.ignored.contains(job));
    }
}

/// The views of a list of refinement states.
pub open spec fn spec_context_views(contexts: Seq<RefinementContext>) -> Seq<RefinementView> {
    Seq::new(contexts.len(), |p: int| contexts[p]@)
}

/// The individuals that the populations of refinement states start with.
pub open spec fn spec_starting_parts(starts: Seq<RefinementView>) -> Seq<InsertionView> {
    Seq::new(starts.len(), |p: int| starts[p].population.individuals[0])
}

/// A mutation that splits the best individual into parts, refines every part
/// on its own with another mutation, and merges the results.
pub struct DecomposeSearch {
    pub inner_mutation: Box<dyn Mutation>,
    /// The number of rounds for which each part is refined.
    pub repeat_count: usize,
}

impl DecomposeSearch {
    /// A decomposition that refines each part `repeat_count` times with
    /// `inner_mutation`.
    pub fn new(inner_mutation: Box<dyn Mutation>, repeat_count: usize) -> (search: DecomposeSearch)
        ensures
            search == (DecomposeSearch { inner_mutation, repeat_count }),
            search.repeat_count == repeat_count,
    {
        DecomposeSearch { inner_mutation, repeat_count }
    }

    /// What the population of a part holds after `rounds` rounds: in every
    /// round the inner mutation makes a new individual of the best one, and
    /// the population takes it in.
    pub open spec fn spec_refined(&self, problem: &Problem, start: RefinementView, rounds: nat) -> Seq<InsertionView>
        decreases rounds,
    {
        if rounds == 0 {
            start.population.individuals
        } else {
            let held = self.spec_refined(problem, start, (rounds - 1) as nat);
            let state = RefinementView {
                population: PopulationView {
                    max_size: start.population.max_size,
                    individuals: held,
                },
                statistics: start.statistics,
            };
            spec_add(
                problem,
                held,
                start.population.max_size,
                self.inner_mutation.spec_mutate_one(problem, state, held[0]),
            )
        }
    }

    /// The best individual of every part after its refinement.
    pub open spec fn spec_refined_bests(&self, problem: &Problem, starts: Seq<RefinementView>) -> Seq<InsertionView> {
        Seq::new(
            starts.len(),
            |p: int| self.spec_refined(problem, starts[p], self.repeat_count as nat)[0],
        )
    }

    /// The individual that the refinement of the parts ends in: the best of
    /// every part, taken in part by part by an individual that starts empty,
    /// and then brought up to date.
    pub open spec fn spec_refine_decomposed(
        &self,
        problem: &Problem,
        random: Random,
        starts: Seq<RefinementView>,
    ) -> InsertionView {
        InsertionView {
            solution: spec_accept_solution(
                problem,
                spec_merge_upto(
                    spec_empty_solution(problem),
                    self.spec_refined_bests(problem, starts),
                    starts.len() as int,
                ),
            ),
            random,
        }
    }

    /// Refines one part for `repeat_count` rounds and hands back its
    /// population. Where the population holds the part alone and keeps only
    /// the best individual, and the part holds no job twice, the best
    /// individual keeps to the jobs of the part.
    pub fn refine_part<'a>(&self, decomposed_ctx: RefinementContext<'a>) -> (population: Population)
        requires
            decomposed_ctx@.population.max_size >= 1,
            decomposed_ctx@.population.individuals.len() >= 1,
        ensures
            population@.max_size == decomposed_ctx@.population.max_size,
            population@.individuals == self.spec_refined(
                decomposed_ctx.problem,
                decomposed_ctx@,
                self.repeat_count as nat,
            ),
            population@.individuals.len() >= 1,
            spec_sound_start(decomposed_ctx@) ==> spec_keeps_stock(
                population@.individuals[0].solution,
                decomposed_ctx@.population.individuals[0].solution,
            ),
    {
        let mut ctx = decomposed_ctx;
        let ghost start = decomposed_ctx@;
        let ghost part = start.population.individuals[0].solution;
        let ghost sound = spec_sound_start(start);
        let mut round: usize = 0;
        while round < self.repeat_count
            invariant
                round <= self.repeat_count,
                ctx.problem == decomposed_ctx.problem,
                ctx.statistics == start.statistics,
                start == decomposed_ctx@,
                part == start.population.individuals[0].solution,
                sound == spec_sound_start(start),
                ctx@.population.max_size == start.population.max_size,
                start.population.max_size >= 1,
                ctx@.population.individuals == self.spec_refined(ctx.problem, start, round as nat),
                ctx@.population.individuals.len() >= 1,
                sound ==> ctx@.population.individuals.len() == 1,
                sound ==> spec_keeps_stock(ctx@.population.individuals[0].solution, part),
            decreases self.repeat_count - round,
        {
            let ghost held = ctx@.population.individuals;
            let ghost state = ctx@;
            let child = {
                let selected = ctx.population.select().unwrap();
                assert(selected@ == held[0]);
                assert(sound ==> ctx@.agrees_with(selected@));
                self.inner_mutation.mutate_one(&ctx, selected)
            };
            proof {
                lemma_add_members(ctx.problem, held, ctx.population.max_size, child@);
                if sound {
                    assert(child@.solution.keeps_to(state, held[0]));
                    assert forall|job: usize| #[trigger] child@.solution.is_active(job) <==> part.is_active(
                        job,
                    ) by {
                        assert(child@.solution.active().contains(job) == held[0].solution.active().contains(
                            job,
                        ));
                    }
                    assert forall|job: usize| #[trigger] child@.solution.ignored.contains(job)
                        implies part.ignored.contains(job) by {
                        assert(child@.solution.ignored_set().contains(job));
                        assert(state.ignorable(held[0]).contains(job));
                        if !held[0].solution.ignored.contains(job) {
                            let m = choose|m: int|
                                0 <= m < state.population.individuals.len() && (
                                #[trigger] state.population.individuals[m]).solution.ignored.contains(job);
                            assert(m == 0);
                        }
                    }
                    assert(spec_keeps_stock(child@.solution, part));
                }
            }
            ctx.population.add(ctx.problem, child);
            round = round + 1;
            proof {
                let after = ctx@.population.individuals;
                assert(after[0] == child@ || held.contains(after[0]));
                if sound && held.contains(after[0]) {
                    let i = choose|i: int| 0 <= i < held.len() && held[i] == after[0];
                    assert(i == 0);
                }
            }
        }
        ctx.population
    }

    /// Refines every part on its own and merges the best individuals of the
    /// parts, in the order of the parts, into one individual: its routes are
    /// those of the parts, the actors of all those routes are in use, and
    /// its derived state is up to date. The actors that run a route of the
    /// best individual of a part are in use, and no others; the other actors
    /// of the fleet are available. Where the refinement of every part
    /// starts from the part alone, no part holds a job twice and no two parts
    /// share a job, the result holds no job twice and serves, requires or
    /// leaves unassigned exactly the jobs of the parts.
    #[verifier::rlimit(40)]
    pub fn refine_decomposed<'a>(
        &self,
        refinement_ctx: &RefinementContext<'a>,
        random: Random,
        decomposed_contexts: Vec<RefinementContext<'a>>,
    ) -> (individual: Individual)
        requires
            forall|p: int|
                0 <= p < decomposed_contexts@.len() ==> {
                    &&& (#[trigger] decomposed_contexts@[p]).problem == refinement_ctx.problem
                    &&& decomposed_contexts@[p]@.population.max_size >= 1
                    &&& decomposed_contexts@[p]@.population.individuals.len() >= 1
                },
        ensures
            individual@ == self.spec_refine_decomposed(
                refinement_ctx.problem,
                random,
                spec_context_views(decomposed_contexts@),
            ),
            spec_sound_starts(spec_context_views(decomposed_contexts@))
                ==> individual@.solution.unique(),
            spec_sound_starts(spec_context_views(decomposed_contexts@)) ==> forall|
                job: usize,
            |
                #[trigger] individual@.solution.is_active(job) <==> spec_some_active(
                    spec_starting_parts(spec_context_views(decomposed_contexts@)),
                    decomposed_contexts@.len() as int,
                    job,
                ),
            spec_sound_starts(spec_context_views(decomposed_contexts@)) ==> forall|
                job: usize,
            |
                #[trigger] individual@.solution.ignored.contains(job) ==> spec_some_ignores(
                    spec_starting_parts(spec_context_views(decomposed_contexts@)),
                    decomposed_contexts@.len() as int,
                    job,
                ),
            forall|actor: usize|
                #[trigger] individual@.solution.uses_actor(actor) <==> spec_some_uses(
                    self.spec_refined_bests(refinement_ctx.problem, spec_context_views(decomposed_contexts@)),
                    decomposed_contexts@.len() as int,
                    actor,
                ),
            forall|actor: usize|
                #[trigger] individual@.solution.registry.available.contains(actor) <==> (actor
                    < refinement_ctx.problem.fleet.actors@.len() && !individual@.solution.uses_actor(
                    actor,
                )),
    {
        let problem = refinement_ctx.problem;
        let ghost starts = spec_context_views(decomposed_contexts@);
        let ghost parts = spec_starting_parts(starts);
        let ghost bests = self.spec_refined_bests(problem, starts);
        let ghost empty = spec_empty_solution(problem);
        let total: usize = decomposed_contexts.len();
        let mut contexts = decomposed_contexts;
        let mut individual = InsertionContext::new_empty(problem, random);
        let mut p: usize = 0;
        while p < total
            invariant
                p <= total,
                total == starts.len(),
                problem == refinement_ctx.problem,
                starts == spec_context_views(decomposed_contexts@),
                parts == spec_starting_parts(starts),
                bests == self.spec_refined_bests(problem, starts),
                empty == spec_empty_solution(problem),
                contexts@ == decomposed_contexts@.skip(p as int),
                forall|q: int|
                    0 <= q < decomposed_contexts@.len() ==> {
                        &&& (#[trigger] decomposed_contexts@[q]).problem == problem
                        &&& decomposed_contexts@[q]@.population.max_size >= 1
                        &&& decomposed_contexts@[q]@.population.individuals.len() >= 1
                    },
                individual@.random == random,
                individual@.solution == spec_merge_upto(empty, bests, p as int),
                spec_sound_starts(starts) ==> forall|q: int|
                    0 <= q < p ==> spec_keeps_stock((#[trigger] bests[q]).solution, parts[q].solution),
            decreases total - p,
        {
            let ctx = contexts.remove(0);
            assert(ctx == decomposed_contexts@[p as int]);
            assert(contexts@ =~= decomposed_contexts@.skip(p as int + 1));
            assert(ctx@ == starts[p as int]);
            assert(parts[p as int] == ctx@.population.individuals[0]);
            assert(spec_sound_starts(starts) ==> spec_sound_start(starts[p as int]));
            let population = self.refine_part(ctx);
            let ranked = population.ranked();
            assert(ranked@[0]@ == bests[p as int]);
            absorb(&mut individual.solution, &ranked[0].solution);
            p = p + 1;
        }
        proof {
            if spec_sound_starts(starts) {
                lemma_stock_apart(bests, parts);
                assert forall|job: usize| !empty.knows(job) by {
                    assert(!empty.serves(job));
                    assert(!empty.leaves_out(job));
                }
                assert(empty.unique()) by {
                    assert forall|job: usize| #[trigger] empty.in_one_group(job) by {}
                }
                lemma_merge_upto(empty, bests, total as int);
                let merged = spec_merge_upto(empty, bests, total as int);
                lemma_accept_solution_keeps_jobs(problem, merged);
                let accepted = spec_accept_solution(problem, merged);
                assert forall|job: usize| #[trigger] accepted.is_active(job) <==> spec_some_active(
                    parts,
                    total as int,
                    job,
                ) by {
                    assert(accepted.active().contains(job) == merged.active().contains(job));
                    assert(merged.is_active(job) <==> spec_some_active(bests, total as int, job));
                }
                assert forall|job: usize| #[trigger] accepted.ignored.contains(job) implies spec_some_ignores(
                    parts,
                    total as int,
                    job,
                ) by {
                    assert(merged.ignored.contains(job));
                    assert(spec_some_ignores(bests, total as int, job));
                }
            }
            assert forall|actor: usize| !empty.uses_actor(actor) by {}
            lemma_merge_actors(empty, bests, total as int);
            let merged = spec_merge_upto(empty, bests, total as int);
            lemma_accept_solution_keeps_jobs(problem, merged);
            let accepted = spec_accept_solution(problem, merged);
            assert forall|actor: usize| #[trigger] accepted.uses_actor(actor) <==> spec_some_uses(
                bests,
                total as int,
                actor,
            ) by {
                assert(merged.uses_actor(actor) <==> spec_some_uses(bests, total as int, actor));
                assert(accepted.uses_actor(actor) <==> merged.uses_actor(actor));
            }
            assert forall|actor: usize| #[trigger] accepted.registry.available.contains(actor) <==> (actor
                < problem.fleet.actors@.len() && !accepted.uses_actor(actor)) by {
                assert(merged.uses_actor(actor) <==> spec_some_uses(bests, total as int, actor));
                assert(accepted.uses_actor(actor) <==> merged.uses_actor(actor));
                if actor < problem.fleet.actors@.len() {
                    assert(empty.registry.available[actor as int] == actor);
                }
            }
        }
        problem.accept_solution_state(&mut individual.solution);
        individual
    }
}

impl Mutation for DecomposeSearch {
    /// The best individual of the population is split into parts, the parts
    /// are refined and merged; where there is no best individual or it does
    /// not fall into more than one part, the inner mutation is applied to
    /// the given individual.
    open spec fn spec_mutate_one(
        &self,
        problem: &Problem,
        refinement_ctx: RefinementView,
        insertion_ctx: InsertionView,
    ) -> InsertionView {
        if refinement_ctx.population.individuals.len() > 0 && spec_decomposed(
            problem,
            refinement_ctx.population.individuals[0],
        ) is Some {
            self.spec_refine_decomposed(
                problem,
                refinement_ctx.population.individuals[0].random,
                Seq::new(
                    spec_decomposed(problem, refinement_ctx.population.individuals[0])->0.len(),
                    |p: int|
                        spec_part_context(
                            spec_decomposed(problem, refinement_ctx.population.individuals[0])->0[p],
                        ),
                ),
            )
        } else {
            self.inner_mutation.spec_mutate_one(problem, refinement_ctx, insertion_ctx)
        }
    }

    fn mutate_one(&self, refinement_ctx: &RefinementContext, insertion_ctx: &InsertionContext) -> (result:
        InsertionContext) {
        let ranked = refinement_ctx.population.ranked();
        if ranked.len() > 0 {
            let best = &ranked[0];
            let routes: usize = best.solution.routes.len();
            assert(best@ == refinement_ctx@.population.individuals[0]);
            match decompose_individual(refinement_ctx, best) {
                Some(contexts) => {
                    let ghost parts = spec_decomposed(refinement_ctx.problem, best@)->0;
                    let ghost starts = spec_context_views(contexts@);
                    let ghost sound = refinement_ctx@.agrees_with(insertion_ctx@);
                    proof {
                        assert(starts =~= Seq::new(parts.len(), |p: int| spec_part_context(parts[p])));
                        assert(spec_starting_parts(starts) =~= parts);
                        assert(best@.solution.routes.len() == routes);
                        lemma_route_groups_split(refinement_ctx.problem, best@.solution.routes);
                        if sound {
                            lemma_parts(
                                best@,
                                spec_route_groups(refinement_ctx.problem, best@.solution.routes),
                            );
                        }
                    }
                    let result = self.refine_decomposed(refinement_ctx, best.random, contexts);
                    proof {
                        if sound {
                            assert(spec_sound_starts(starts)) by {
                                assert forall|p: int| 0 <= p < starts.len() implies spec_sound_start(
                                    #[trigger] starts[p],
                                ) by {
                                    assert(starts[p] == spec_part_context(parts[p]));
                                    assert(parts[p].solution.unique());
                                }
                            }
                            assert(best@.solution.active() == insertion_ctx@.solution.active());
                            assert forall|job: usize|
                                result@.solution.active().contains(job) == insertion_ctx@.solution.active().contains(
                                    job,
                                ) by {
                                assert(result@.solution.is_active(job) <==> spec_some_active(
                                    parts,
                                    parts.len() as int,
                                    job,
                                ));
                                assert(best@.solution.active().contains(job) == best@.solution.is_active(job));
                            }
                            assert(result@.solution.active() =~= insertion_ctx@.solution.active());
                            assert forall|job: usize| result@.solution.ignored_set().contains(job)
                                implies refinement_ctx@.ignorable(insertion_ctx@).contains(job) by {
                                assert(result@.solution.ignored.contains(job));
                                assert(spec_some_ignores(parts, parts.len() as int, job));
                                assert(refinement_ctx@.population.individuals[0].solution.ignored.contains(
                                    job,
                                ));
                            }
                        }
                    }
                    return result;
                },
                None => {},
            }
        }
        self.inner_mutation.mutate_one(refinement_ctx, insertion_ctx)
    }

    fn mutate_all(&self, refinement_ctx: &RefinementContext, individuals: Vec<&InsertionContext>) -> (results:
        Vec<InsertionContext>) {
        let mut results: Vec<InsertionContext> = Vec::new();
        let mut i: usize = 0;
        while i < individuals.len()
            invariant
                i <= individuals@.len(),
                results@.len() == i,
                forall|k: int|
                    0 <= k < i ==> (#[trigger] results@[k])@ == self.spec_mutate_one(
                        refinement_ctx.problem,
                        refinement_ctx@,
                        individuals@[k]@,
                    ),
            decreases individuals@.len() - i,
        {
            results.push(self.mutate_one(refinement_ctx, individuals[i]));
            i = i + 1;
        }
        results
    }
}

/// Whether two routes are made up alike: the same actor and, stop by stop,
/// the same place, service time, time window and job, a break or not.
/// Schedules and derived state may differ.
pub open spec fn spec_same_composition(a: RouteView, b: RouteView) -> bool {
    &&& a.actor == b.actor
    &&& a.tour.len() == b.tour.len()
    &&& forall|p: int|
        0 <= p < a.tour.len() ==> (#[trigger] a.tour[p]).job == b.tour[p].job && a.tour[p].location
            == b.tour[p].location && a.tour[p].duration == b.tour[p].duration && a.tour[p].time
            == b.tour[p].time && a.tour[p].pause == b.tour[p].pause
}

/// Whether one of the routes is made up like `route`.
pub open spec fn spec_has_route_like(routes: Seq<RouteView>, route: RouteView) -> bool {
    exists|m: int| 0 <= m < routes.len() && spec_same_composition(#[trigger] routes[m], route)
}

/// Whether `route` is a route of one of the first `upto` individuals.
pub open spec fn spec_route_of_member(members: Seq<InsertionView>, upto: int, route: RouteView) -> bool {
    exists|p: int, k: int|
        0 <= p < upto && p < members.len() && 0 <= k < members[p].solution.routes.len()
            && #[trigger] members[p].solution.routes[k] == route
}

/// The routes of a solution that started without routes and has taken in
/// individuals are the routes of those individuals.
pub proof fn lemma_merged_routes(start: SolutionView, members: Seq<InsertionView>, upto: int)
    requires
        start.routes.len() == 0,
        0 <= upto <= members.len(),
    ensures
        forall|m: int|
            0 <= m < spec_merge_upto(start, members, upto).routes.len() ==> spec_route_of_member(
                members,
                upto,
                #[trigger] spec_merge_upto(start, members, upto).routes[m],
            ),
        forall|p: int, k: int|
            0 <= p < upto && 0 <= k < members[p].solution.routes.len() ==> spec_merge_upto(
                start,
                members,
                upto,
            ).routes.contains(#[trigger] members[p].solution.routes[k]),
    decreases upto,
{
    if upto > 0 {
        lemma_merged_routes(start, members, upto - 1);
        let before = spec_merge_upto(start, members, upto - 1).routes;
        let added = members[upto - 1].solution.routes;
        let merged = spec_merge_upto(start, members, upto).routes;
        assert(merged == before + added);
        assert forall|m: int| 0 <= m < merged.len() implies spec_route_of_member(
            members,
            upto,
            #[trigger] merged[m],
        ) by {
            if m < before.len() {
                assert(spec_route_of_member(members, upto - 1, before[m]));
                let (p, k) = choose|p: int, k: int|
                    0 <= p < upto - 1 && p < members.len() && 0 <= k < members[p].solution.routes.len()
                        && #[trigger] members[p].solution.routes[k] == before[m];
                assert(members[p].solution.routes[k] == merged[m]);
            } else {
                assert(members[upto - 1].solution.routes[m - before.len()] == merged[m]);
            }
        }
        assert forall|p: int, k: int|
            0 <= p < upto && 0 <= k < members[p].solution.routes.len() implies merged.contains(
            #[trigger] members[p].solution.routes[k],
        ) by {
            if p < upto - 1 {
                assert(before.contains(members[p].solution.routes[k]));
                let m = choose|m: int| 0 <= m < before.len() && before[m] == members[p].solution.routes[k];
                assert(merged[m] == members[p].solution.routes[k]);
            } else {
                assert(merged[before.len() + k] == members[p].solution.routes[k]);
            }
        }
    }
}

/// The parts of an individual, taken in by a solution that starts without
/// routes, give back the routes of the individual: each of them and no other.
pub proof fn lemma_joined_routes(problem: &Problem, source: InsertionView)
    requires
        source.solution.routes.len() <= usize::MAX,
    ensures
        ({
            let parts = spec_multiple_individuals(problem, source);
            let joined = spec_merge_upto(spec_empty_solution(problem), parts, parts.len() as int);
            &&& forall|m: int|
                0 <= m < joined.routes.len() ==> source.solution.routes.contains(#[trigger] joined.routes[m])
            &&& forall|r: int|
                0 <= r < source.solution.routes.len() ==> joined.routes.contains(
                    #[trigger] source.solution.routes[r],
                )
        }),
{
    let routes = source.solution.routes;
    let groups = spec_route_groups(problem, routes);
    let parts = spec_multiple_individuals(problem, source);
    let empty = spec_empty_solution(problem);
    let joined = spec_merge_upto(empty, parts, parts.len() as int);
    lemma_route_groups_split(problem, routes);
    lemma_merged_routes(empty, parts, parts.len() as int);
    let count = groups.len() as int;
    assert forall|p: int| 0 <= p < count implies #[trigger] parts[p] == spec_partial(source, groups[p]) by {}
    assert forall|p: int| count <= p < parts.len() implies (#[trigger] parts[p]).solution.routes.len()
        == 0 by {
        assert(parts[p] == spec_empty_individuals(source)[p - count]);
    }
    assert forall|m: int| 0 <= m < joined.routes.len() implies routes.contains(#[trigger] joined.routes[m]) by {
        assert(spec_route_of_member(parts, parts.len() as int, joined.routes[m]));
        let (p, k) = choose|p: int, k: int|
            0 <= p < parts.len() && p < parts.len() && 0 <= k < parts[p].solution.routes.len()
                && #[trigger] parts[p].solution.routes[k] == joined.routes[m];
        assert(p < count);
        assert(spec_member(groups, p, k));
        assert(groups[p][k] < routes.len());
        assert(routes[groups[p][k] as int] == joined.routes[m]);
    }
    assert forall|r: int| 0 <= r < routes.len() implies joined.routes.contains(#[trigger] routes[r]) by {
        assert(spec_in_groups(groups, r as usize));
        let (g, k) = choose|g: int, k: int| spec_member(groups, g, k) && #[trigger] groups[g][k] == r as usize;
        assert(parts[g].solution.routes[k] == routes[r]);
    }
}

/// The route at `r` of an individual is among the routes that its parts give
/// back.
pub proof fn lemma_joined_has_route(problem: &Problem, source: InsertionView, r: int)
    requires
        source.solution.routes.len() <= usize::MAX,
        0 <= r < source.solution.routes.len(),
    ensures
        spec_merge_upto(
            spec_empty_solution(problem),
            spec_multiple_individuals(problem, source),
            spec_multiple_individuals(problem, source).len() as int,
        ).routes.contains(source.solution.routes[r]),
{
    lemma_joined_routes(problem, source);
}

/// The route at `m` that the parts of an individual give back is a route of
/// the individual.
pub proof fn lemma_joined_route_is_from(problem: &Problem, source: InsertionView, m: int)
    requires
        source.solution.routes.len() <= usize::MAX,
        0 <= m < spec_merge_upto(
            spec_empty_solution(problem),
            spec_multiple_individuals(problem, source),
            spec_multiple_individuals(problem, source).len() as int,
        ).routes.len(),
    ensures
        source.solution.routes.contains(
            spec_merge_upto(
                spec_empty_solution(problem),
                spec_multiple_individuals(problem, source),
                spec_multiple_individuals(problem, source).len() as int,
            ).routes[m],
        ),
{
    lemma_joined_routes(problem, source);
}

/// Bringing a solution up to date leaves every route made up as it was.
pub proof fn lemma_accept_keeps_composition(problem: &Problem, solution: SolutionView)
    ensures
        spec_accept_solution(problem, solution).routes.len() == solution.routes.len(),
        forall|m: int|
            0 <= m < solution.routes.len() ==> spec_same_composition(
                #[trigger] spec_accept_solution(problem, solution).routes[m],
                solution.routes[m],
            ),
{
}

/// Without a round of refinement the best of every part is the part.
pub proof fn lemma_no_rounds(search: &DecomposeSearch, problem: &Problem, parts: Seq<InsertionView>)
    requires
        search.repeat_count == 0,
    ensures
        search.spec_refined_bests(problem, Seq::new(parts.len(), |p: int| spec_part_context(parts[p])))
            == parts,
{
    let starts = Seq::new(parts.len(), |p: int| spec_part_context(parts[p]));
    let bests = search.spec_refined_bests(problem, starts);
    assert forall|p: int| 0 <= p < parts.len() implies #[trigger] bests[p] == parts[p] by {
        assert(search.spec_refined(problem, starts[p], 0) == starts[p].population.individuals);
    }
    assert(bests =~= parts);
}

/// Routes that are made up alike can change places.
pub proof fn lemma_same_composition_symmetric(a: RouteView, b: RouteView)
    requires
        spec_same_composition(a, b),
    ensures
        spec_same_composition(b, a),
{
}

/// A solution that was brought up to date has a route made up like `route`
/// exactly if it had one before.
pub proof fn lemma_accept_keeps_routes(problem: &Problem, solution: SolutionView, route: RouteView)
    ensures
        solution.routes.contains(route) ==> spec_has_route_like(
            spec_accept_solution(problem, solution).routes,
            route,
        ),
{
    if solution.routes.contains(route) {
        let m = choose|m: int| 0 <= m < solution.routes.len() && solution.routes[m] == route;
        lemma_accept_keeps_composition(problem, solution);
        assert(spec_same_composition(spec_accept_solution(problem, solution).routes[m], route));
    }
}

/// Whether the pipeline has no objection to any of the individuals.
pub open spec fn spec_all_feasible(problem: &Problem, members: Seq<InsertionView>) -> bool {
    forall|p: int| 0 <= p < members.len() ==> spec_solution_feasible(problem, (#[trigger] members[p]).solution)
}

/// The pipeline has no objection to the individual that the refinement of
/// the parts ends in exactly if it has none to the best individual of any
/// part.
pub proof fn lemma_merge_feasible(
    search: &DecomposeSearch,
    problem: &Problem,
    random: Random,
    starts: Seq<RefinementView>,
)
    ensures
        spec_solution_feasible(problem, search.spec_refine_decomposed(problem, random, starts).solution)
            == spec_all_feasible(problem, search.spec_refined_bests(problem, starts)),
{
    let bests = search.spec_refined_bests(problem, starts);
    let empty = spec_empty_solution(problem);
    let merged = spec_merge_upto(empty, bests, bests.len() as int);
    lemma_accept_solution_feasible(problem, merged);
    lemma_merged_routes(empty, bests, bests.len() as int);
    if spec_solution_feasible(problem, merged) {
        assert forall|p: int| 0 <= p < bests.len() implies spec_solution_feasible(
            problem,
            (#[trigger] bests[p]).solution,
        ) by {
            assert forall|k: int| 0 <= k < bests[p].solution.routes.len() implies spec_route_feasible(
                problem,
                #[trigger] bests[p].solution.routes[k],
            ) by {
                assert(merged.routes.contains(bests[p].solution.routes[k]));
                let m = choose|m: int| 0 <= m < merged.routes.len() && merged.routes[m] == bests[p].solution.routes[k];
                assert(spec_route_feasible(problem, merged.routes[m]));
            }
        }
    }
    if spec_all_feasible(problem, bests) {
        assert forall|m: int| 0 <= m < merged.routes.len() implies spec_route_feasible(
            problem,
            #[trigger] merged.routes[m],
        ) by {
            assert(spec_route_of_member(bests, bests.len() as int, merged.routes[m]));
            let (p, k) = choose|p: int, k: int|
                0 <= p < bests.len() && p < bests.len() && 0 <= k < bests[p].solution.routes.len()
                    && #[trigger] bests[p].solution.routes[k] == merged.routes[m];
            assert(spec_solution_feasible(problem, bests[p].solution));
        }
    }
}

/// A solution that has taken in the parts of groups of routes has as many
/// routes more as the groups have members.
pub proof fn lemma_merged_count(
    start: SolutionView,
    members: Seq<InsertionView>,
    groups: Seq<Seq<usize>>,
    upto: int,
)
    requires
        0 <= upto <= groups.len(),
        upto <= members.len(),
        forall|p: int| 0 <= p < upto ==> (#[trigger] members[p]).solution.routes.len() == groups[p].len(),
    ensures
        spec_merge_upto(start, members, upto).routes.len() == start.routes.len() + spec_total(groups.take(upto)),
    decreases upto,
{
    if upto > 0 {
        lemma_merged_count(start, members, groups, upto - 1);
        crate::solver::decomposition::lemma_total_push(groups.take(upto - 1), groups[upto - 1]);
        assert(groups.take(upto) =~= groups.take(upto - 1).push(groups[upto - 1]));
        assert(members[upto - 1].solution.routes.len() == groups[upto - 1].len());
    } else {
        assert(groups.take(0) =~= Seq::<Seq<usize>>::empty());
    }
}

/// The parts of an individual, taken in by a solution that starts without
/// routes, give back as many routes as the individual has.
pub proof fn lemma_joined_count(problem: &Problem, source: InsertionView)
    requires
        source.solution.routes.len() <= usize::MAX,
    ensures
        spec_merge_upto(
            spec_empty_solution(problem),
            spec_multiple_individuals(problem, source),
            spec_multiple_individuals(problem, source).len() as int,
        ).routes.len() == source.solution.routes.len(),
{
    let routes = source.solution.routes;
    let groups = spec_route_groups(problem, routes);
    let parts = spec_multiple_individuals(problem, source);
    let empty = spec_empty_solution(problem);
    let count = groups.len() as int;
    let medoids = spec_route_medoids(problem, routes);
    let profile = problem.spec_profile(routes[0].actor);
    let lists = spec_route_groups_distances(&problem.transport, profile, medoids);
    crate::solver::decomposition::lemma_route_groups_distances_wf(&problem.transport, profile, medoids);
    crate::solver::decomposition::lemma_groups_count(lists, 0, Set::<usize>::empty());
    assert(spec_total(groups) == routes.len());
    assert forall|p: int| 0 <= p < count implies (#[trigger] parts[p]).solution.routes.len()
        == groups[p].len() by {
        assert(parts[p] == spec_partial(source, groups[p]));
    }
    lemma_merged_count(empty, parts, groups, count);
    assert(groups.take(count) =~= groups);
    if parts.len() > count {
        assert(parts[count] == spec_empty_individuals(source)[0]);
        assert(parts.len() == count + 1);
        assert(parts[count].solution.routes.len() == 0);
        assert(spec_merge_upto(empty, parts, count + 1).routes =~= spec_merge_upto(empty, parts, count).routes);
    }
}

/// Whether `a` and `b` are routes at two places among the routes of the
/// first `upto` individuals.
pub open spec fn spec_two_members(members: Seq<InsertionView>, upto: int, a: RouteView, b: RouteView) -> bool {
    exists|pa: int, k1: int, pb: int, k2: int|
        0 <= pa < upto && pa < members.len() && 0 <= k1 < members[pa].solution.routes.len() && 0 <= pb < upto
            && pb < members.len() && 0 <= k2 < members[pb].solution.routes.len() && (pa != pb || k1 != k2)
            && #[trigger] members[pa].solution.routes[k1] == a && #[trigger] members[pb].solution.routes[k2] == b
}

/// Two routes at different places of a solution that started without
/// routes and has taken in individuals are routes at two places among the
/// routes of those individuals.
pub proof fn lemma_merged_apart(start: SolutionView, members: Seq<InsertionView>, upto: int)
    requires
        start.routes.len() == 0,
        0 <= upto <= members.len(),
    ensures
        forall|m1: int, m2: int|
            0 <= m1 < m2 < spec_merge_upto(start, members, upto).routes.len() ==> spec_two_members(
                members,
                upto,
                #[trigger] spec_merge_upto(start, members, upto).routes[m1],
                #[trigger] spec_merge_upto(start, members, upto).routes[m2],
            ),
    decreases upto,
{
    if upto > 0 {
        lemma_merged_apart(start, members, upto - 1);
        lemma_merged_routes(start, members, upto - 1);
        let before = spec_merge_upto(start, members, upto - 1).routes;
        let added = members[upto - 1].solution.routes;
        let merged = spec_merge_upto(start, members, upto).routes;
        assert(merged == before + added);
        assert forall|m1: int, m2: int| 0 <= m1 < m2 < merged.len() implies spec_two_members(
            members,
            upto,
            #[trigger] merged[m1],
            #[trigger] merged[m2],
        ) by {
            if m2 < before.len() {
                assert(spec_two_members(members, upto - 1, before[m1], before[m2]));
                let (pa, k1, pb, k2) = choose|pa: int, k1: int, pb: int, k2: int|
                    0 <= pa < upto - 1 && pa < members.len() && 0 <= k1 < members[pa].solution.routes.len() && 0
                        <= pb < upto - 1 && pb < members.len() && 0 <= k2 < members[pb].solution.routes.len() && (
                    pa != pb || k1 != k2) && #[trigger] members[pa].solution.routes[k1] == before[m1]
                        && #[trigger] members[pb].solution.routes[k2] == before[m2];
                assert(members[pa].solution.routes[k1] == merged[m1] && members[pb].solution.routes[k2]
                    == merged[m2]);
            } else if m1 < before.len() {
                assert(spec_route_of_member(members, upto - 1, before[m1]));
                let (pa, k1) = choose|p: int, k: int|
                    0 <= p < upto - 1 && p < members.len() && 0 <= k < members[p].solution.routes.len()
                        && #[trigger] members[p].solution.routes[k] == before[m1];
                let k2 = m2 - before.len();
                assert(members[pa].solution.routes[k1] == merged[m1] && members[upto - 1].solution.routes[k2]
                    == merged[m2]);
            } else {
                let k1 = m1 - before.len();
                let k2 = m2 - before.len();
                assert(members[upto - 1].solution.routes[k1] == merged[m1] && members[upto
                    - 1].solution.routes[k2] == merged[m2]);
            }
        }
    }
}

/// Where no actor runs two routes of an individual, none runs two routes
/// of what its parts give back.
pub proof fn lemma_joined_actors(problem: &Problem, source: InsertionView)
    requires
        source.solution.routes.len() <= usize::MAX,
        source.solution.distinct_actors(),
    ensures
        spec_merge_upto(
            spec_empty_solution(problem),
            spec_multiple_individuals(problem, source),
            spec_multiple_individuals(problem, source).len() as int,
        ).distinct_actors(),
{
    let routes = source.solution.routes;
    let groups = spec_route_groups(problem, routes);
    let parts = spec_multiple_individuals(problem, source);
    let empty = spec_empty_solution(problem);
    let joined = spec_merge_upto(empty, parts, parts.len() as int);
    let count = groups.len() as int;
    lemma_route_groups_split(problem, routes);
    lemma_merged_apart(empty, parts, parts.len() as int);
    assert forall|p: int| count <= p < parts.len() implies (#[trigger] parts[p]).solution.routes.len()
        == 0 by {
        assert(parts[p] == spec_empty_individuals(source)[p - count]);
    }
    assert forall|m1: int, m2: int| 0 <= m1 < m2 < joined.routes.len() implies (#[trigger] joined.routes[m1]).actor
        != (#[trigger] joined.routes[m2]).actor by {
        assert(spec_two_members(parts, parts.len() as int, joined.routes[m1], joined.routes[m2]));
        let (pa, k1, pb, k2) = choose|pa: int, k1: int, pb: int, k2: int|
            0 <= pa < parts.len() && pa < parts.len() && 0 <= k1 < parts[pa].solution.routes.len() && 0 <= pb
                < parts.len() && pb < parts.len() && 0 <= k2 < parts[pb].solution.routes.len() && (pa != pb
                || k1 != k2) && #[trigger] parts[pa].solution.routes[k1] == joined.routes[m1]
                && #[trigger] parts[pb].solution.routes[k2] == joined.routes[m2];
        assert(pa < count && pb < count);
        assert(parts[pa] == spec_partial(source, groups[pa]));
        assert(parts[pb] == spec_partial(source, groups[pb]));
        assert(spec_member(groups, pa, k1) && spec_member(groups, pb, k2));
        let r1 = groups[pa][k1];
        let r2 = groups[pb][k2];
        assert(r1 < routes.len() && r2 < routes.len());
        assert(r1 != r2);
        assert(routes[r1 as int] == joined.routes[m1] && routes[r2 as int] == joined.routes[m2]);
        if r1 < r2 {
            assert(routes[r1 as int].actor != routes[r2 as int].actor);
        } else {
            assert(routes[r2 as int].actor != routes[r1 as int].actor);
        }
    }
}

/// Splitting an individual and merging the parts at once, with no round of
/// refinement between, keeps the routes: the result has a route made up like
/// each route of the individual and no other route, and as many routes as
/// the individual, so the same actors run the same stops, and the same jobs
/// are served; and where no actor ran two routes, none does.
pub proof fn lemma_decompose_then_merge(
    search: &DecomposeSearch,
    problem: &Problem,
    source: InsertionView,
    random: Random,
)
    requires
        search.repeat_count == 0,
        source.solution.routes.len() <= usize::MAX,
    ensures
        ({
            let parts = spec_multiple_individuals(problem, source);
            let merged = search.spec_refine_decomposed(
                problem,
                random,
                Seq::new(parts.len(), |p: int| spec_part_context(parts[p])),
            );
            &&& forall|r: int|
                0 <= r < source.solution.routes.len() ==> spec_has_route_like(
                    merged.solution.routes,
                    #[trigger] source.solution.routes[r],
                )
            &&& forall|m: int|
                0 <= m < merged.solution.routes.len() ==> spec_has_route_like(
                    source.solution.routes,
                    #[trigger] merged.solution.routes[m],
                )
            &&& forall|job: usize| #[trigger] merged.solution.serves(job) <==> source.solution.serves(job)
            &&& merged.solution.routes.len() == source.solution.routes.len()
            &&& source.solution.distinct_actors() ==> merged.solution.distinct_actors()
        }),
{
    lemma_joined_count(problem, source);
    if source.solution.distinct_actors() {
        lemma_joined_actors(problem, source);
    }
    let routes = source.solution.routes;
    let parts = spec_multiple_individuals(problem, source);
    let starts = Seq::new(parts.len(), |p: int| spec_part_context(parts[p]));
    let joined = spec_merge_upto(spec_empty_solution(problem), parts, parts.len() as int);
    let after = spec_accept_solution(problem, joined);
    assert(search.spec_refine_decomposed(problem, random, starts).solution == after) by {
        lemma_no_rounds(search, problem, parts);
    }
    assert(after.routes.len() == joined.routes.len());
    assert forall|r: int| 0 <= r < routes.len() implies spec_has_route_like(
        after.routes,
        #[trigger] routes[r],
    ) by {
        lemma_joined_has_route(problem, source, r);
        lemma_accept_keeps_routes(problem, joined, routes[r]);
    }
    assert forall|m: int| 0 <= m < after.routes.len() implies spec_has_route_like(
        routes,
        #[trigger] after.routes[m],
    ) by {
        lemma_accept_keeps_composition(problem, joined);
        lemma_joined_route_is_from(problem, source, m);
        let r = choose|r: int| 0 <= r < routes.len() && routes[r] == joined.routes[m];
        lemma_same_composition_symmetric(after.routes[m], joined.routes[m]);
    }
    assert forall|job: usize| #[trigger] after.serves(job) <==> source.solution.serves(job) by {
        assert(after.serves(job) <==> joined.serves(job)) by {
            lemma_accept_solution_keeps_jobs(problem, joined);
        }
        if joined.serves(job) {
            let m = choose|m: int| 0 <= m < joined.routes.len() && (#[trigger] joined.routes[m]).serves(job);
            lemma_joined_route_is_from(problem, source, m);
            let r = choose|r: int| 0 <= r < routes.len() && routes[r] == joined.routes[m];
            assert(routes[r].serves(job));
        }
        if source.solution.serves(job) {
            let r = choose|r: int| 0 <= r < routes.len() && (#[trigger] routes[r]).serves(job);
            lemma_joined_has_route(problem, source, r);
            let m = choose|m: int| 0 <= m < joined.routes.len() && joined.routes[m] == routes[r];
            assert(joined.routes[m].serves(job));
        }
    }
}

/// Whether a mutation leaves the list of ignored jobs of every individual
/// as it is.
pub open spec fn spec_keeps_ignored(mutation: &Box<dyn Mutation>, problem: &Problem) -> bool {
    forall|refinement_ctx: RefinementView, individual: InsertionView|
        (#[trigger] mutation.spec_mutate_one(problem, refinement_ctx, individual)).solution.ignored
            == individual.solution.ignored
}

/// With an inner mutation that leaves ignored jobs as they are, every
/// individual that the refinement of a part holds ignores what the
/// individuals at the start ignore, and there is one.
pub proof fn lemma_refined_ignored(
    search: &DecomposeSearch,
    problem: &Problem,
    start: RefinementView,
    rounds: nat,
    ignored: Seq<usize>,
)
    requires
        spec_keeps_ignored(&search.inner_mutation, problem),
        start.population.max_size >= 1,
        start.population.individuals.len() >= 1,
        forall|m: int|
            0 <= m < start.population.individuals.len() ==> (#[trigger] start.population.individuals[m]).solution.ignored
                == ignored,
    ensures
        search.spec_refined(problem, start, rounds).len() >= 1,
        forall|m: int|
            0 <= m < search.spec_refined(problem, start, rounds).len() ==> (#[trigger] search.spec_refined(
                problem,
                start,
                rounds,
            )[m]).solution.ignored == ignored,
    decreases rounds,
{
    if rounds > 0 {
        lemma_refined_ignored(search, problem, start, (rounds - 1) as nat, ignored);
        let held = search.spec_refined(problem, start, (rounds - 1) as nat);
        let state = RefinementView {
            population: PopulationView { max_size: start.population.max_size, individuals: held },
            statistics: start.statistics,
        };
        let child = search.inner_mutation.spec_mutate_one(problem, state, held[0]);
        assert(child.solution.ignored == held[0].solution.ignored);
        lemma_add_members(problem, held, start.population.max_size, child);
        let after = search.spec_refined(problem, start, rounds);
        assert forall|m: int| 0 <= m < after.len() implies (#[trigger] after[m]).solution.ignored == ignored by {
            if after[m] != child {
                let i = choose|i: int| 0 <= i < held.len() && held[i] == after[m];
                assert(held[i].solution.ignored == ignored);
            }
        }
    }
}

/// A solution that has taken in individuals ignores what it ignored and
/// what they ignore, in their order.
pub open spec fn spec_joined_ignored(start: Seq<usize>, members: Seq<InsertionView>, upto: int) -> Seq<usize>
    decreases upto,
{
    if upto <= 0 {
        start
    } else {
        spec_joined_ignored(start, members, upto - 1) + members[upto - 1].solution.ignored
    }
}

/// What a solution ignores that has taken in individuals.
pub proof fn lemma_merged_ignored(start: SolutionView, members: Seq<InsertionView>, upto: int)
    ensures
        spec_merge_upto(start, members, upto).ignored == spec_joined_ignored(start.ignored, members, upto),
    decreases upto,
{
    if upto > 0 {
        lemma_merged_ignored(start, members, upto - 1);
    }
}

/// Where every individual but the last ignores nothing, a solution that
/// ignored nothing and has taken them in ignores what the last one ignores.
pub proof fn lemma_joined_ignored(members: Seq<InsertionView>, upto: int)
    requires
        0 <= upto <= members.len(),
        forall|p: int| 0 <= p < members.len() - 1 ==> (#[trigger] members[p]).solution.ignored.len() == 0,
    ensures
        spec_joined_ignored(Seq::empty(), members, upto) == if upto == members.len() && upto > 0 {
            members[upto - 1].solution.ignored
        } else {
            Seq::<usize>::empty()
        },
    decreases upto,
{
    if upto > 0 {
        lemma_joined_ignored(members, upto - 1);
        let before = spec_joined_ignored(Seq::empty(), members, upto - 1);
        assert(before =~= Seq::<usize>::empty()) by {
            if upto - 1 > 0 {
                assert(members[upto - 2].solution.ignored.len() == 0);
            }
        }
        if upto < members.len() {
            assert(members[upto - 1].solution.ignored.len() == 0);
            assert(before + members[upto - 1].solution.ignored =~= Seq::<usize>::empty());
        } else {
            assert(before + members[upto - 1].solution.ignored =~= members[upto - 1].solution.ignored);
        }
    }
}

/// With an inner mutation that leaves ignored jobs as they are, no ignored
/// job is lost where the best individual is split and has a part that
/// carries its required, ignored and unassigned jobs: the result ignores
/// what the best individual ignores. Where nothing is split, it ignores what
/// the given individual ignores.
pub proof fn lemma_decompose_keeps_ignored(
    search: &DecomposeSearch,
    problem: &Problem,
    refinement_ctx: RefinementView,
    individual: InsertionView,
)
    requires
        spec_keeps_ignored(&search.inner_mutation, problem),
    ensures
        ({
            let result = search.spec_mutate_one(problem, refinement_ctx, individual);
            let held = refinement_ctx.population.individuals;
            if held.len() > 0 && spec_decomposed(problem, held[0]) is Some {
                held[0].solution.required.len() > 0 || held[0].solution.unassigned.len() > 0
                    ==> result.solution.ignored == held[0].solution.ignored
            } else {
                result.solution.ignored == individual.solution.ignored
            }
        }),
{
    let held = refinement_ctx.population.individuals;
    if held.len() > 0 && spec_decomposed(problem, held[0]) is Some {
        let best = held[0];
        if best.solution.required.len() > 0 || best.solution.unassigned.len() > 0 {
            let parts = spec_decomposed(problem, best)->0;
            let starts = Seq::new(parts.len(), |p: int| spec_part_context(parts[p]));
            let bests = search.spec_refined_bests(problem, starts);
            let groups = spec_route_groups(problem, best.solution.routes);
            let count = groups.len() as int;
            assert(parts == spec_partials(best, groups) + spec_empty_individuals(best));
            assert(parts.len() == count + 1);
            assert(parts[count] == spec_carrier(best));
            assert forall|p: int| 0 <= p < bests.len() implies (#[trigger] bests[p]).solution.ignored
                == parts[p].solution.ignored by {
                lemma_refined_ignored(
                    search,
                    problem,
                    starts[p],
                    search.repeat_count as nat,
                    parts[p].solution.ignored,
                );
            }
            assert forall|p: int| 0 <= p < bests.len() - 1 implies (#[trigger] bests[p]).solution.ignored.len()
                == 0 by {
                assert(parts[p] == spec_partial(best, groups[p]));
            }
            let empty = spec_empty_solution(problem);
            lemma_merged_ignored(empty, bests, bests.len() as int);
            lemma_joined_ignored(bests, bests.len() as int);
        }
    }
}

} // verus!
