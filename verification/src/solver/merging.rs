//! Putting the parts of a solution together again.

use vstd::prelude::*;
use crate::construction::context::{contains_index, lemma_without, spec_route_views};
use crate::construction::context::{spec_routes_unique, spec_routes_use, spec_without};
use crate::construction::context::{InsertionContext, InsertionView, Registry, RegistryView};
use crate::construction::context::{RouteView, SolutionContext, SolutionView};
use crate::models::problem::Problem;
use crate::utils::random::Random;

verus! {

/// A list of locked jobs with those of `more` added that it does not hold
/// yet, in their order.
pub open spec fn spec_join_locked(locked: Seq<usize>, more: Seq<usize>) -> Seq<usize>
    decreases more.len(),
{
    if more.len() == 0 {
        locked
    } else {
        let joined = spec_join_locked(locked, more.drop_last());
        if joined.contains(more.last()) {
            joined
        } else {
            joined.push(more.last())
        }
    }
}

/// The available actors after the first `upto` of the routes were taken
/// into use, each by its actor.
pub open spec fn spec_use_routes(available: Seq<usize>, routes: Seq<RouteView>, upto: int) -> Seq<usize>
    decreases upto,
{
    if upto <= 0 {
        available
    } else {
        spec_without(spec_use_routes(available, routes, upto - 1), routes[upto - 1].actor)
    }
}

/// A solution that has taken in a part: the routes of the part behind its
/// own, likewise the ignored, the required and the unassigned jobs, the
/// locked jobs that it did not hold yet, and the actors of the part's routes
/// marked as in use.
pub open spec fn spec_absorb(accumulator: SolutionView, part: SolutionView) -> SolutionView {
    SolutionView {
        required: accumulator.required + part.required,
        ignored: accumulator.ignored + part.ignored,
        unassigned: accumulator.unassigned + part.unassigned,
        locked: spec_join_locked(accumulator.locked, part.locked),
        routes: accumulator.routes + part.routes,
        registry: RegistryView {
            all: accumulator.registry.all,
            available: spec_use_routes(
                accumulator.registry.available,
                part.routes,
                part.routes.len() as int,
            ),
        },
        state: accumulator.state,
    }
}

/// A solution that has taken in the first `upto` of the given individuals,
/// one after the other.
pub open spec fn spec_merge_upto(start: SolutionView, members: Seq<InsertionView>, upto: int) -> SolutionView
    decreases upto,
{
    if upto <= 0 {
        start
    } else {
        spec_absorb(spec_merge_upto(start, members, upto - 1), members[upto - 1].solution)
    }
}

/// The solution of a problem that has no route and no job, with every actor
/// of the fleet available.
pub open spec fn spec_empty_solution(problem: &Problem) -> SolutionView {
    SolutionView {
        required: Seq::empty(),
        ignored: Seq::empty(),
        unassigned: Seq::empty(),
        locked: Seq::empty(),
        routes: Seq::empty(),
        registry: RegistryView {
            all: Seq::new(problem.fleet.actors@.len(), |a: int| a as usize),
            available: Seq::new(problem.fleet.actors@.len(), |a: int| a as usize),
        },
        state: Seq::empty(),
    }
}

/// Whether no job is known to two of the individuals.
pub open spec fn spec_apart(members: Seq<InsertionView>) -> bool {
    forall|p: int, q: int, job: usize|
        0 <= p < members.len() && 0 <= q < members.len() && p != q && (
        #[trigger] members[p]).solution.knows(job) ==> !(#[trigger] members[q].solution.knows(job))
}

/// Whether none of the individuals holds a job twice.
pub open spec fn spec_all_unique(members: Seq<InsertionView>) -> bool {
    forall|p: int| 0 <= p < members.len() ==> (#[trigger] members[p]).solution.unique()
}

/// Whether one of the first `upto` individuals serves, requires or leaves
/// unassigned `job`.
pub open spec fn spec_some_active(members: Seq<InsertionView>, upto: int, job: usize) -> bool {
    exists|p: int| 0 <= p < upto && p < members.len() && (#[trigger] members[p]).solution.is_active(job)
}

/// Whether one of the first `upto` individuals ignores `job`.
pub open spec fn spec_some_ignores(members: Seq<InsertionView>, upto: int, job: usize) -> bool {
    exists|p: int|
        0 <= p < upto && p < members.len() && (#[trigger] members[p]).solution.ignored.contains(job)
}

/// Whether one of the first `upto` individuals has a route of `actor`.
pub open spec fn spec_some_uses(members: Seq<InsertionView>, upto: int, actor: usize) -> bool {
    exists|p: int| 0 <= p < upto && p < members.len() && (#[trigger] members[p]).solution.uses_actor(actor)
}

/// Taking routes into use looks at nothing but the actors of those routes.
pub proof fn lemma_use_routes_prefix(available: Seq<usize>, a: Seq<RouteView>, b: Seq<RouteView>, upto: int)
    requires
        0 <= upto <= a.len(),
        upto <= b.len(),
        forall|r: int| 0 <= r < upto ==> (#[trigger] a[r]).actor == b[r].actor,
    ensures
        spec_use_routes(available, a, upto) == spec_use_routes(available, b, upto),
    decreases upto,
{
    if upto > 0 {
        lemma_use_routes_prefix(available, a, b, upto - 1);
        assert(a[upto - 1].actor == b[upto - 1].actor);
    }
}

/// An actor is available after routes were taken into use exactly if it was
/// available before and none of those routes is its own.
pub proof fn lemma_use_routes(available: Seq<usize>, routes: Seq<RouteView>, upto: int)
    requires
        0 <= upto <= routes.len(),
    ensures
        forall|actor: usize|
            #[trigger] spec_use_routes(available, routes, upto).contains(actor) <==> (
            available.contains(actor) && !spec_routes_use(routes.take(upto), actor)),
        available.no_duplicates() ==> spec_use_routes(available, routes, upto).no_duplicates(),
    decreases upto,
{
    if upto > 0 {
        lemma_use_routes(available, routes, upto - 1);
        let before = spec_use_routes(available, routes, upto - 1);
        let gone = routes[upto - 1].actor;
        lemma_without(before, gone);
        let shorter = routes.take(upto - 1);
        let longer = routes.take(upto);
        assert forall|actor: usize| #[trigger] spec_use_routes(available, routes, upto).contains(actor) <==> (
        available.contains(actor) && !spec_routes_use(longer, actor)) by {
            assert(before.contains(actor) <==> (available.contains(actor) && !spec_routes_use(
                shorter,
                actor,
            )));
            if spec_routes_use(longer, actor) {
                let r = choose|r: int| 0 <= r < longer.len() && (#[trigger] longer[r]).actor == actor;
                if r < upto - 1 {
                    assert(shorter[r].actor == actor);
                }
            }
            if spec_routes_use(shorter, actor) {
                let r = choose|r: int| 0 <= r < shorter.len() && (#[trigger] shorter[r]).actor == actor;
                assert(longer[r].actor == actor);
            }
            if actor == gone {
                assert(longer[upto - 1].actor == actor);
            }
        }
    } else {
        assert forall|actor: usize| !spec_routes_use(routes.take(0), actor) by {}
    }
}

/// What a solution knows after it has taken in a part that shares no job
/// with it: what either knew, and still no job twice. An actor is available
/// afterwards exactly if it was available and runs no route of the part.
pub proof fn lemma_absorb(accumulator: SolutionView, part: SolutionView)
    requires
        accumulator.unique(),
        part.unique(),
        forall|job: usize| !(accumulator.knows(job) && part.knows(job)),
    ensures
        spec_absorb(accumulator, part).unique(),
        forall|job: usize|
            #[trigger] spec_absorb(accumulator, part).serves(job) <==> (accumulator.serves(job)
                || part.serves(job)),
        forall|job: usize|
            #[trigger] spec_absorb(accumulator, part).required.contains(job) <==> (
            accumulator.required.contains(job) || part.required.contains(job)),
        forall|job: usize|
            #[trigger] spec_absorb(accumulator, part).ignored.contains(job) <==> (
            accumulator.ignored.contains(job) || part.ignored.contains(job)),
        forall|job: usize|
            #[trigger] spec_absorb(accumulator, part).leaves_out(job) <==> (accumulator.leaves_out(job)
                || part.leaves_out(job)),
        forall|actor: usize|
            #[trigger] spec_absorb(accumulator, part).uses_actor(actor) <==> (accumulator.uses_actor(
                actor,
            ) || part.uses_actor(actor)),
        forall|actor: usize|
            #[trigger] spec_absorb(accumulator, part).registry.available.contains(actor) <==> (
            accumulator.registry.available.contains(actor) && !part.uses_actor(actor)),
{
    let merged = spec_absorb(accumulator, part);
    let a = accumulator.routes.len() as int;
    assert forall|job: usize| #[trigger] merged.serves(job) <==> (accumulator.serves(job) || part.serves(
        job,
    )) by {
        if merged.serves(job) {
            let r = choose|r: int| 0 <= r < merged.routes.len() && (#[trigger] merged.routes[r]).serves(job);
            if r < a {
                assert(accumulator.routes[r].serves(job));
            } else {
                assert(part.routes[r - a].serves(job));
            }
        }
        if accumulator.serves(job) {
            let r = choose|r: int|
                0 <= r < accumulator.routes.len() && (#[trigger] accumulator.routes[r]).serves(job);
            assert(merged.routes[r].serves(job));
        }
        if part.serves(job) {
            let r = choose|r: int| 0 <= r < part.routes.len() && (#[trigger] part.routes[r]).serves(job);
            assert(merged.routes[a + r].serves(job));
        }
    }
    lemma_concat_contains(accumulator.required, part.required);
    lemma_concat_contains(accumulator.ignored, part.ignored);
    assert forall|job: usize| #[trigger] merged.leaves_out(job) <==> (accumulator.leaves_out(job)
        || part.leaves_out(job)) by {
        let u = accumulator.unassigned.len() as int;
        if merged.leaves_out(job) {
            let i = choose|i: int|
                0 <= i < merged.unassigned.len() && (#[trigger] merged.unassigned[i]).job == job;
            if i < u {
                assert(accumulator.unassigned[i].job == job);
            } else {
                assert(part.unassigned[i - u].job == job);
            }
        }
        if accumulator.leaves_out(job) {
            let i = choose|i: int|
                0 <= i < accumulator.unassigned.len() && (#[trigger] accumulator.unassigned[i]).job
                    == job;
            assert(merged.unassigned[i].job == job);
        }
        if part.leaves_out(job) {
            let i = choose|i: int|
                0 <= i < part.unassigned.len() && (#[trigger] part.unassigned[i]).job == job;
            assert(merged.unassigned[u + i].job == job);
        }
    }
    assert(spec_routes_unique(merged.routes)) by {
        assert forall|r: int| 0 <= r < merged.routes.len() implies (#[trigger] merged.routes[r]).tour_unique() by {
            if r < a {
                assert(accumulator.routes[r].tour_unique());
            } else {
                assert(part.routes[r - a].tour_unique());
            }
        }
        assert forall|r1: int, r2: int, job: usize|
            0 <= r1 < merged.routes.len() && 0 <= r2 < merged.routes.len() && r1 != r2 && (
            #[trigger] merged.routes[r1]).serves(job) implies !(#[trigger] merged.routes[r2].serves(job)) by {
            if merged.routes[r2].serves(job) {
                if r1 < a && r2 < a {
                    assert(accumulator.routes[r1].serves(job) && accumulator.routes[r2].serves(job));
                } else if r1 >= a && r2 >= a {
                    assert(part.routes[r1 - a].serves(job) && part.routes[r2 - a].serves(job));
                } else if r1 < a {
                    assert(accumulator.routes[r1].serves(job));
                    assert(part.routes[r2 - a].serves(job));
                    assert(accumulator.knows(job) && part.knows(job));
                } else {
                    assert(accumulator.routes[r2].serves(job));
                    assert(part.routes[r1 - a].serves(job));
                    assert(accumulator.knows(job) && part.knows(job));
                }
            }
        }
    }
    assert(merged.required.no_duplicates()) by {
        assert forall|job: usize| !(accumulator.required.contains(job) && part.required.contains(job)) by {
            assert(!(accumulator.knows(job) && part.knows(job)));
        }
        lemma_concat_no_duplicates(accumulator.required, part.required);
    }
    assert(merged.ignored.no_duplicates()) by {
        assert forall|job: usize| !(accumulator.ignored.contains(job) && part.ignored.contains(job)) by {
            assert(!(accumulator.knows(job) && part.knows(job)));
        }
        lemma_concat_no_duplicates(accumulator.ignored, part.ignored);
    }
    assert(merged.unassigned_unique()) by {
        let u = accumulator.unassigned.len() as int;
        assert forall|i: int, j: int| 0 <= i < j < merged.unassigned.len() implies (
        #[trigger] merged.unassigned[i]).job != (#[trigger] merged.unassigned[j]).job by {
            if j < u {
                assert(accumulator.unassigned[i].job != accumulator.unassigned[j].job);
            } else if i >= u {
                assert(part.unassigned[i - u].job != part.unassigned[j - u].job);
            } else {
                let job = merged.unassigned[i].job;
                assert(accumulator.unassigned[i].job == job);
                assert(accumulator.leaves_out(job));
                if part.unassigned[j - u].job == job {
                    assert(part.leaves_out(job));
                    assert(accumulator.knows(job) && part.knows(job));
                }
            }
        }
    }
    assert forall|job: usize| #[trigger] merged.in_one_group(job) by {
        assert(accumulator.in_one_group(job));
        assert(part.in_one_group(job));
        assert(!(accumulator.knows(job) && part.knows(job)));
    }
    lemma_absorb_actors(accumulator, part);
}

/// A solution that has taken in a part uses the actors that it used and
/// those that the part uses, and exactly those of its available actors that
/// the part does not use are still available.
pub proof fn lemma_absorb_actors(accumulator: SolutionView, part: SolutionView)
    ensures
        forall|actor: usize|
            #[trigger] spec_absorb(accumulator, part).uses_actor(actor) <==> (accumulator.uses_actor(
                actor,
            ) || part.uses_actor(actor)),
        forall|actor: usize|
            #[trigger] spec_absorb(accumulator, part).registry.available.contains(actor) <==> (
            accumulator.registry.available.contains(actor) && !part.uses_actor(actor)),
{
    let merged = spec_absorb(accumulator, part);
    let a = accumulator.routes.len() as int;
    assert forall|actor: usize| #[trigger] merged.uses_actor(actor) <==> (accumulator.uses_actor(actor)
        || part.uses_actor(actor)) by {
        if merged.uses_actor(actor) {
            let r = choose|r: int| 0 <= r < merged.routes.len() && (#[trigger] merged.routes[r]).actor == actor;
            if r < a {
                assert(accumulator.routes[r].actor == actor);
            } else {
                assert(part.routes[r - a].actor == actor);
            }
        }
        if accumulator.uses_actor(actor) {
            let r = choose|r: int|
                0 <= r < accumulator.routes.len() && (#[trigger] accumulator.routes[r]).actor == actor;
            assert(merged.routes[r].actor == actor);
        }
        if part.uses_actor(actor) {
            let r = choose|r: int| 0 <= r < part.routes.len() && (#[trigger] part.routes[r]).actor == actor;
            assert(merged.routes[a + r].actor == actor);
        }
    }
    lemma_use_routes(accumulator.registry.available, part.routes, part.routes.len() as int);
    assert(part.routes.take(part.routes.len() as int) =~= part.routes);
}

/// A solution that started without routes and has taken in individuals
/// uses the actors that they use, and exactly those of its available actors
/// that none of them uses are still available.
pub proof fn lemma_merge_actors(start: SolutionView, members: Seq<InsertionView>, upto: int)
    requires
        forall|actor: usize| !start.uses_actor(actor),
        0 <= upto <= members.len(),
    ensures
        forall|actor: usize|
            #[trigger] spec_merge_upto(start, members, upto).uses_actor(actor) <==> spec_some_uses(
                members,
                upto,
                actor,
            ),
        forall|actor: usize|
            #[trigger] spec_merge_upto(start, members, upto).registry.available.contains(actor) <==> (
            start.registry.available.contains(actor) && !spec_some_uses(members, upto, actor)),
    decreases upto,
{
    if upto > 0 {
        lemma_merge_actors(start, members, upto - 1);
        let before = spec_merge_upto(start, members, upto - 1);
        let part = members[upto - 1].solution;
        let merged = spec_merge_upto(start, members, upto);
        lemma_absorb_actors(before, part);
        assert forall|actor: usize| #[trigger] merged.uses_actor(actor) <==> spec_some_uses(
            members,
            upto,
            actor,
        ) by {
            if spec_some_uses(members, upto, actor) {
                let p = choose|p: int|
                    0 <= p < upto && p < members.len() && (#[trigger] members[p]).solution.uses_actor(actor);
                if p < upto - 1 {
                    assert(spec_some_uses(members, upto - 1, actor));
                }
            }
            if before.uses_actor(actor) {
                let p = choose|p: int|
                    0 <= p < upto - 1 && p < members.len() && (#[trigger] members[p]).solution.uses_actor(
                        actor,
                    );
                assert(members[p].solution.uses_actor(actor));
            }
            if part.uses_actor(actor) {
                assert(members[upto - 1].solution.uses_actor(actor));
            }
        }
        assert forall|actor: usize| #[trigger] merged.registry.available.contains(actor) <==> (
        start.registry.available.contains(actor) && !spec_some_uses(members, upto, actor)) by {
            assert(merged.uses_actor(actor) <==> spec_some_uses(members, upto, actor));
            assert(before.uses_actor(actor) <==> spec_some_uses(members, upto - 1, actor));
            assert(before.registry.available.contains(actor) <==> (start.registry.available.contains(
                actor,
            ) && !spec_some_uses(members, upto - 1, actor)));
        }
    }
}

/// An item stands in two lists joined exactly if it stands in one of them.
pub proof fn lemma_concat_contains(first: Seq<usize>, second: Seq<usize>)
    ensures
        forall|x: usize| #[trigger] (first + second).contains(x) <==> (first.contains(x) || second.contains(x)),
{
    let both = first + second;
    assert forall|x: usize| #[trigger] both.contains(x) <==> (first.contains(x) || second.contains(x)) by {
        if both.contains(x) {
            let i = choose|i: int| 0 <= i < both.len() && both[i] == x;
            if i < first.len() {
                assert(first[i] == x);
            } else {
                assert(second[i - first.len()] == x);
            }
        }
        if first.contains(x) {
            let i = choose|i: int| 0 <= i < first.len() && first[i] == x;
            assert(both[i] == x);
        }
        if second.contains(x) {
            let i = choose|i: int| 0 <= i < second.len() && second[i] == x;
            assert(both[first.len() + i] == x);
        }
    }
}

/// Two lists without repetition that share no item repeat nothing when
/// joined.
pub proof fn lemma_concat_no_duplicates(first: Seq<usize>, second: Seq<usize>)
    requires
        first.no_duplicates(),
        second.no_duplicates(),
        forall|x: usize| !(first.contains(x) && second.contains(x)),
    ensures
        (first + second).no_duplicates(),
{
    let both = first + second;
    assert forall|i: int, j: int| 0 <= i < both.len() && 0 <= j < both.len() && i != j implies both[i]
        != both[j] by {
        let f = first.len() as int;
        if i < f && j < f {
        } else if i >= f && j >= f {
            assert(both[i] == second[i - f] && both[j] == second[j - f]);
        } else {
            let lo = if i < f {
                i
            } else {
                j
            };
            let hi = if i < f {
                j
            } else {
                i
            };
            assert(both[lo] == first[lo]);
            assert(both[hi] == second[hi - f]);
            assert(first.contains(first[lo]));
            assert(second.contains(second[hi - f]));
        }
    }
}

/// What a solution knows after it has taken in individuals of which none
/// holds a job twice and no two share a job: exactly what they know, and no
/// job twice. An actor is available exactly if it was at the start and no
/// individual has a route of it.
pub proof fn lemma_merge_upto(start: SolutionView, members: Seq<InsertionView>, upto: int)
    requires
        start.unique(),
        forall|job: usize| !start.knows(job),
        forall|actor: usize| !start.uses_actor(actor),
        spec_all_unique(members),
        spec_apart(members),
        0 <= upto <= members.len(),
    ensures
        spec_merge_upto(start, members, upto).unique(),
        forall|job: usize|
            #[trigger] spec_merge_upto(start, members, upto).is_active(job) <==> spec_some_active(
                members,
                upto,
                job,
            ),
        forall|job: usize|
            #[trigger] spec_merge_upto(start, members, upto).ignored.contains(job)
                <==> spec_some_ignores(members, upto, job),
        forall|actor: usize|
            #[trigger] spec_merge_upto(start, members, upto).uses_actor(actor) <==> spec_some_uses(
                members,
                upto,
                actor,
            ),
        forall|actor: usize|
            #[trigger] spec_merge_upto(start, members, upto).registry.available.contains(actor) <==> (
            start.registry.available.contains(actor) && !spec_some_uses(members, upto, actor)),
    decreases upto,
{
    lemma_merge_actors(start, members, upto);
    if upto > 0 {
        lemma_merge_upto(start, members, upto - 1);
        let before = spec_merge_upto(start, members, upto - 1);
        let part = members[upto - 1].solution;
        let merged = spec_merge_upto(start, members, upto);
        assert forall|job: usize| !(before.knows(job) && part.knows(job)) by {
            if before.knows(job) && part.knows(job) {
                if before.is_active(job) {
                    assert(spec_some_active(members, upto - 1, job));
                    let p = choose|p: int|
                        0 <= p < upto - 1 && p < members.len() && (#[trigger] members[p]).solution.is_active(
                            job,
                        );
                    assert(members[p].solution.knows(job));
                    assert(members[upto - 1].solution.knows(job));
                } else {
                    assert(spec_some_ignores(members, upto - 1, job));
                    let p = choose|p: int|
                        0 <= p < upto - 1 && p < members.len() && (
                        #[trigger] members[p]).solution.ignored.contains(job);
                    assert(members[p].solution.knows(job));
                    assert(members[upto - 1].solution.knows(job));
                }
            }
        }
        lemma_absorb(before, part);
        assert forall|job: usize| #[trigger] merged.is_active(job) <==> spec_some_active(
            members,
            upto,
            job,
        ) by {
            assert(merged.is_active(job) <==> (before.is_active(job) || part.is_active(job)));
            if spec_some_active(members, upto, job) {
                let p = choose|p: int|
                    0 <= p < upto && p < members.len() && (#[trigger] members[p]).solution.is_active(job);
                if p < upto - 1 {
                    assert(spec_some_active(members, upto - 1, job));
                }
            }
            if before.is_active(job) {
                let p = choose|p: int|
                    0 <= p < upto - 1 && p < members.len() && (#[trigger] members[p]).solution.is_active(
                        job,
                    );
                assert(members[p].solution.is_active(job));
            }
            if part.is_active(job) {
                assert(members[upto - 1].solution.is_active(job));
            }
        }
        assert forall|job: usize| #[trigger] merged.ignored.contains(job) <==> spec_some_ignores(
            members,
            upto,
            job,
        ) by {
            if spec_some_ignores(members, upto, job) {
                let p = choose|p: int|
                    0 <= p < upto && p < members.len() && (#[trigger] members[p]).solution.ignored.contains(
                        job,
                    );
                if p < upto - 1 {
                    assert(spec_some_ignores(members, upto - 1, job));
                }
            }
            if before.ignored.contains(job) {
                let p = choose|p: int|
                    0 <= p < upto - 1 && p < members.len() && (
                    #[trigger] members[p]).solution.ignored.contains(job);
                assert(members[p].solution.ignored.contains(job));
            }
            if part.ignored.contains(job) {
                assert(members[upto - 1].solution.ignored.contains(job));
            }
        }
    } else {
        assert forall|job: usize| !start.is_active(job) by {
            assert(!start.knows(job));
        }
        assert forall|job: usize| !start.ignored.contains(job) by {
            assert(!start.knows(job));
        }
    }
}

/// Takes a part into a solution: its routes, its ignored, required and
/// unassigned jobs, the locked jobs that are new, and the actors of its
/// routes as in use.
pub fn absorb(accumulator: &mut SolutionContext, part: &SolutionContext)
    ensures
        final(accumulator)@ == spec_absorb(old(accumulator)@, part@),
{
    let ghost before = accumulator@;
    let mut r: usize = 0;
    while r < part.routes.len()
        invariant
            r <= part.routes@.len(),
            accumulator.required@ == before.required,
            accumulator.ignored@ == before.ignored,
            accumulator.unassigned@ == before.unassigned,
            accumulator.locked@ == before.locked,
            accumulator.state@ == before.state,
            accumulator.registry@.all == before.registry.all,
            accumulator.registry@.available == spec_use_routes(
                before.registry.available,
                part@.routes,
                r as int,
            ),
            spec_route_views(accumulator.routes@) == before.routes + part@.routes.take(r as int),
        decreases part.routes@.len() - r,
    {
        let ghost routes_before = spec_route_views(accumulator.routes@);
        let copy = part.routes[r].deep_copy();
        assert(copy@ == part@.routes[r as int]);
        accumulator.routes.push(copy);
        accumulator.registry.use_route(&part.routes[r]);
        r = r + 1;
        assert(spec_route_views(accumulator.routes@) =~= routes_before.push(part@.routes[r - 1]));
        assert(part@.routes.take(r as int) =~= part@.routes.take(r - 1).push(part@.routes[r - 1]));
        assert(spec_route_views(accumulator.routes@) =~= before.routes + part@.routes.take(r as int));
    }
    assert(part@.routes.take(r as int) =~= part@.routes);
    let mut i: usize = 0;
    while i < part.ignored.len()
        invariant
            i <= part.ignored@.len(),
            accumulator.ignored@ == before.ignored + part.ignored@.take(i as int),
            accumulator.required@ == before.required,
            accumulator.unassigned@ == before.unassigned,
            accumulator.locked@ == before.locked,
            accumulator.state@ == before.state,
            accumulator.registry@ == spec_absorb(before, part@).registry,
            spec_route_views(accumulator.routes@) == before.routes + part@.routes,
        decreases part.ignored@.len() - i,
    {
        accumulator.ignored.push(part.ignored[i]);
        i = i + 1;
        assert(accumulator.ignored@ =~= before.ignored + part.ignored@.take(i as int));
    }
    assert(part.ignored@.take(i as int) =~= part.ignored@);
    let mut q: usize = 0;
    while q < part.required.len()
        invariant
            q <= part.required@.len(),
            accumulator.required@ == before.required + part.required@.take(q as int),
            accumulator.ignored@ == before.ignored + part.ignored@,
            accumulator.unassigned@ == before.unassigned,
            accumulator.locked@ == before.locked,
            accumulator.state@ == before.state,
            accumulator.registry@ == spec_absorb(before, part@).registry,
            spec_route_views(accumulator.routes@) == before.routes + part@.routes,
        decreases part.required@.len() - q,
    {
        accumulator.required.push(part.required[q]);
        q = q + 1;
        assert(accumulator.required@ =~= before.required + part.required@.take(q as int));
    }
    assert(part.required@.take(q as int) =~= part.required@);
    let mut l: usize = 0;
    while l < part.locked.len()
        invariant
            l <= part.locked@.len(),
            accumulator.locked@ == spec_join_locked(before.locked, part.locked@.take(l as int)),
            accumulator.required@ == before.required + part.required@,
            accumulator.ignored@ == before.ignored + part.ignored@,
            accumulator.unassigned@ == before.unassigned,
            accumulator.state@ == before.state,
            accumulator.registry@ == spec_absorb(before, part@).registry,
            spec_route_views(accumulator.routes@) == before.routes + part@.routes,
        decreases part.locked@.len() - l,
    {
        assert(part.locked@.take(l as int + 1).drop_last() =~= part.locked@.take(l as int));
        if !contains_index(&accumulator.locked, part.locked[l]) {
            accumulator.locked.push(part.locked[l]);
        }
        l = l + 1;
    }
    assert(part.locked@.take(l as int) =~= part.locked@);
    let mut u: usize = 0;
    while u < part.unassigned.len()
        invariant
            u <= part.unassigned@.len(),
            accumulator.unassigned@ == before.unassigned + part.unassigned@.take(u as int),
            accumulator.locked@ == spec_join_locked(before.locked, part.locked@),
            accumulator.required@ == before.required + part.required@,
            accumulator.ignored@ == before.ignored + part.ignored@,
            accumulator.state@ == before.state,
            accumulator.registry@ == spec_absorb(before, part@).registry,
            spec_route_views(accumulator.routes@) == before.routes + part@.routes,
        decreases part.unassigned@.len() - u,
    {
        accumulator.unassigned.push(part.unassigned[u]);
        u = u + 1;
        assert(accumulator.unassigned@ =~= before.unassigned + part.unassigned@.take(u as int));
    }
    assert(part.unassigned@.take(u as int) =~= part.unassigned@);
}

impl InsertionContext {
    /// An individual without routes and without jobs, with every actor of
    /// the fleet available.
    pub fn new_empty(problem: &Problem, random: Random) -> (individual: InsertionContext)
        ensures
            individual@.solution == spec_empty_solution(problem),
            individual@.random == random,
    {
        let individual = InsertionContext {
            solution: SolutionContext {
                required: Vec::new(),
                ignored: Vec::new(),
                unassigned: Vec::new(),
                locked: Vec::new(),
                routes: Vec::new(),
                registry: Registry::new(problem.fleet.actors.len()),
                state: Vec::new(),
            },
            random,
        };
        assert(individual@.solution.routes =~= Seq::<RouteView>::empty());
        individual
    }
}

} // verus!
