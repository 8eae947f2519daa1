//! Whether a solution holds every job of its problem, and none twice.

use vstd::prelude::*;
use crate::construction::context::{Activity, InsertionContext, InsertionView, RouteView};
use crate::construction::context::Unassigned;
use crate::construction::context::{spec_routes_serve, spec_routes_unique};
use crate::construction::context::{lemma_tour_jobs_contains, spec_tour_jobs, spec_tour_unique};
use crate::models::problem::Problem;
use crate::utils::index_set::{index_set_contains, index_set_contents, index_set_insert, index_set_new};

verus! {

/// The jobs of a problem.
pub open spec fn spec_all_jobs(problem: &Problem) -> Set<usize> {
    Set::new(|job: usize| job < problem.jobs@.len())
}

/// Whether an individual fits a problem: it holds no job twice, and it
/// serves, requires, ignores or leaves unassigned exactly the jobs of the
/// problem.
pub open spec fn spec_fits(problem: &Problem, individual: InsertionView) -> bool {
    &&& individual.solution.unique()
    &&& forall|job: usize| #[trigger] individual.solution.knows(job) <==> job < problem.jobs@.len()
}

/// An individual fits a problem exactly if the jobs that it serves, those
/// that it requires, those that it ignores and those that it leaves
/// unassigned split the jobs of the problem: together they are the jobs of
/// the problem, and no job is in two of the groups or twice in one.
pub proof fn lemma_fits_partitions(problem: &Problem, individual: InsertionView)
    ensures
        spec_fits(problem, individual) == individual.solution.partitions(spec_all_jobs(problem)),
{
    let solution = individual.solution;
    if spec_fits(problem, individual) {
        assert(solution.jobs() =~= spec_all_jobs(problem));
    }
    if solution.partitions(spec_all_jobs(problem)) {
        assert forall|job: usize| #[trigger] solution.knows(job) <==> job < problem.jobs@.len() by {
            assert(solution.jobs().contains(job) == spec_all_jobs(problem).contains(job));
        }
    }
}

/// The jobs of a list of unassigned jobs, in its order.
pub open spec fn spec_unassigned_jobs(unassigned: Seq<Unassigned>) -> Seq<usize> {
    Seq::new(unassigned.len(), |i: int| unassigned[i].job)
}

/// Whether a list can be taken into account besides the jobs of `before`:
/// it names only jobs below `limit`, none twice, and none of `before`.
pub open spec fn spec_new_jobs(jobs: Seq<usize>, limit: int, before: Set<usize>) -> bool {
    &&& jobs.no_duplicates()
    &&& forall|i: int| 0 <= i < jobs.len() ==> (#[trigger] jobs[i]) < limit && !before.contains(jobs[i])
}

/// Whether a tour can be taken into account besides the jobs of `before`:
/// it serves only jobs below `limit`, none twice, and none of `before`.
pub open spec fn spec_new_tour(route: RouteView, limit: int, before: Set<usize>) -> bool {
    &&& route.tour_unique()
    &&& forall|job: usize| #[trigger] route.serves(job) ==> job < limit && !before.contains(job)
}

/// Notes the jobs of a list among those seen. The answer is no where the
/// list names a job that is not below the limit, names a job twice, or
/// names one that was seen before.
pub fn note_jobs(jobs: &Vec<usize>, limit: usize, seen: &mut hashbrown::HashSet<usize>) -> (fresh: bool)
    ensures
        fresh == spec_new_jobs(jobs@, limit as int, index_set_contents(*old(seen))),
        fresh ==> forall|job: usize|
            #[trigger] index_set_contents(*final(seen)).contains(job) <==> (index_set_contents(
                *old(seen),
            ).contains(job) || jobs@.contains(job)),
{
    let ghost before = index_set_contents(*seen);
    let mut i: usize = 0;
    while i < jobs.len()
        invariant
            i <= jobs@.len(),
            before == index_set_contents(*old(seen)),
            spec_new_jobs(jobs@.take(i as int), limit as int, before),
            forall|job: usize|
                #[trigger] index_set_contents(*seen).contains(job) <==> (before.contains(job)
                    || jobs@.take(i as int).contains(job)),
        decreases jobs@.len() - i,
    {
        let job: usize = jobs[i];
        let ghost shorter = jobs@.take(i as int);
        let ghost longer = jobs@.take(i as int + 1);
        let ghost held = index_set_contents(*seen);
        if job >= limit {
            assert(jobs@[i as int] >= limit);
            return false;
        }
        if !index_set_insert(seen, job) {
            proof {
                assert(held.contains(job));
                if before.contains(job) {
                    assert(before.contains(jobs@[i as int]));
                } else {
                    assert(shorter.contains(job));
                    let k = choose|k: int| 0 <= k < shorter.len() && shorter[k] == job;
                    assert(jobs@[k] == jobs@[i as int]);
                }
            }
            return false;
        }
        proof {
            assert(!held.contains(job));
            assert forall|x: usize| #[trigger] index_set_contents(*seen).contains(x) <==> (before.contains(x)
                || longer.contains(x)) by {
                assert(held.contains(x) <==> (before.contains(x) || shorter.contains(x)));
                if longer.contains(x) {
                    let k = choose|k: int| 0 <= k < longer.len() && longer[k] == x;
                    if k < i {
                        assert(shorter[k] == x);
                    }
                }
                if shorter.contains(x) {
                    let k = choose|k: int| 0 <= k < shorter.len() && shorter[k] == x;
                    assert(longer[k] == x);
                }
                if x == job {
                    assert(longer[i as int] == x);
                }
            }
            assert forall|a: int, b: int| 0 <= a < longer.len() && 0 <= b < longer.len() && a != b implies longer[a]
                != longer[b] by {
                if a < i && b < i {
                    assert(shorter[a] == longer[a] && shorter[b] == longer[b]);
                } else {
                    let o = if a < i {
                        a
                    } else {
                        b
                    };
                    assert(shorter[o] == longer[o]);
                    assert(shorter.contains(longer[o]));
                }
            }
            assert forall|k: int| 0 <= k < longer.len() implies (#[trigger] longer[k]) < limit
                && !before.contains(longer[k]) by {
                if k < i {
                    assert(shorter[k] == longer[k]);
                }
            }
        }
        i = i + 1;
    }
    assert(jobs@.take(i as int) =~= jobs@);
    true
}

/// The jobs that a route serves, as a list, stand for the route: the list
/// is new besides `before` exactly if the tour is.
pub proof fn lemma_tour_as_list(route: RouteView, limit: int, before: Set<usize>)
    ensures
        spec_new_jobs(spec_tour_jobs(route.tour), limit, before)
            == spec_new_tour(route, limit, before),
        forall|job: usize|
            #[trigger] spec_tour_jobs(route.tour).contains(job)
                <==> route.serves(job),
    decreases route.tour.len(),
{
    let tour = route.tour;
    let jobs = spec_tour_jobs(tour);
    assert forall|job: usize| #[trigger] jobs.contains(job) <==> route.serves(job) by {
        lemma_tour_jobs_contains(tour, job);
    }
    lemma_tour_jobs_unique(tour);
    if spec_new_jobs(jobs, limit, before) {
        assert forall|job: usize| #[trigger] route.serves(job) implies job < limit && !before.contains(job) by {
            assert(jobs.contains(job));
            let i = choose|i: int| 0 <= i < jobs.len() && jobs[i] == job;
            assert(jobs[i] < limit);
        }
    }
    if spec_new_tour(route, limit, before) {
        assert forall|i: int| 0 <= i < jobs.len() implies (#[trigger] jobs[i]) < limit && !before.contains(
            jobs[i],
        ) by {
            assert(jobs.contains(jobs[i]));
            assert(route.serves(jobs[i]));
        }
    }
}

/// The list of the jobs of a tour repeats no job exactly if no two stops of
/// the tour serve the same job.
pub proof fn lemma_tour_jobs_unique(tour: Seq<Activity>)
    ensures
        spec_tour_jobs(tour).no_duplicates() <==> spec_tour_unique(tour),
    decreases tour.len(),
{
    let jobs = spec_tour_jobs(tour);
    if tour.len() > 0 {
        let rest = tour.drop_last();
        let before = spec_tour_jobs(rest);
        lemma_tour_jobs_unique(rest);
        let last = tour.len() - 1;
        match tour.last().job {
            Some(job) => {
                lemma_tour_jobs_contains(rest, job);
                assert(jobs == before.push(job));
                if spec_tour_unique(tour) {
                    assert(spec_tour_unique(rest)) by {
                        assert forall|p: int, q: int|
                            0 <= p < q < rest.len() && (#[trigger] rest[p]).job is Some implies rest[p].job != (
                        #[trigger] rest[q]).job by {
                            assert(tour[p] == rest[p] && tour[q] == rest[q]);
                        }
                    }
                    if before.contains(job) {
                        let p = choose|p: int| 0 <= p < rest.len() && (#[trigger] rest[p]).job == Some(job);
                        assert(tour[p].job == tour[last].job);
                    }
                    assert forall|i: int, j: int| 0 <= i < jobs.len() && 0 <= j < jobs.len() && i != j implies jobs[i]
                        != jobs[j] by {
                        if i < before.len() {
                            assert(before[i] == jobs[i]);
                            assert(before.contains(jobs[i]));
                        }
                        if j < before.len() {
                            assert(before[j] == jobs[j]);
                            assert(before.contains(jobs[j]));
                        }
                    }
                }
                if jobs.no_duplicates() {
                    assert(before.no_duplicates()) by {
                        assert forall|i: int, j: int|
                            0 <= i < before.len() && 0 <= j < before.len() && i != j implies before[i]
                            != before[j] by {
                            assert(jobs[i] == before[i] && jobs[j] == before[j]);
                        }
                    }
                    assert forall|p: int, q: int|
                        0 <= p < q < tour.len() && (#[trigger] tour[p]).job is Some implies tour[p].job != (
                    #[trigger] tour[q]).job by {
                        if q < last {
                            assert(rest[p] == tour[p] && rest[q] == tour[q]);
                        } else {
                            assert(rest[p] == tour[p]);
                            if tour[p].job == Some(job) {
                                assert(before.contains(job));
                                let i = choose|i: int| 0 <= i < before.len() && before[i] == job;
                                assert(jobs[i] == jobs[jobs.len() - 1]);
                            }
                        }
                    }
                }
            },
            None => {
                assert(jobs == before);
                if spec_tour_unique(tour) {
                    assert forall|p: int, q: int|
                        0 <= p < q < rest.len() && (#[trigger] rest[p]).job is Some implies rest[p].job != (
                    #[trigger] rest[q]).job by {
                        assert(tour[p] == rest[p] && tour[q] == rest[q]);
                    }
                }
                if spec_tour_unique(rest) {
                    assert forall|p: int, q: int|
                        0 <= p < q < tour.len() && (#[trigger] tour[p]).job is Some implies tour[p].job != (
                    #[trigger] tour[q]).job by {
                        assert(rest[p] == tour[p]);
                        if q < last {
                            assert(rest[q] == tour[q]);
                        }
                    }
                }
            },
        }
    }
}

/// Tells whether an individual fits a problem: no job is served, required,
/// ignored or left unassigned twice, and the jobs that are served, required,
/// ignored or left unassigned are exactly the jobs of the problem.
pub fn fits(problem: &Problem, individual: &InsertionContext) -> (ok: bool)
    ensures
        ok == spec_fits(problem, individual@),
{
    let n: usize = problem.jobs.len();
    let solution = &individual.solution;
    let ghost view = individual@.solution;
    let mut seen = index_set_new();
    let mut r: usize = 0;
    while r < solution.routes.len()
        invariant
            r <= solution.routes@.len(),
            n == problem.jobs@.len(),
            view == individual@.solution,
            *solution == individual.solution,
            spec_routes_unique(view.routes.take(r as int)),
            forall|job: usize|
                #[trigger] index_set_contents(seen).contains(job) <==> spec_routes_serve(
                    view.routes.take(r as int),
                    job,
                ),
            forall|job: usize| #[trigger] index_set_contents(seen).contains(job) ==> job < n,
        decreases solution.routes@.len() - r,
    {
        let ghost before = index_set_contents(seen);
        let ghost shorter = view.routes.take(r as int);
        let ghost longer = view.routes.take(r as int + 1);
        let ghost route = view.routes[r as int];
        let jobs = solution.routes[r].jobs();
        let fresh: bool = note_jobs(&jobs, n, &mut seen);
        proof {
            lemma_tour_as_list(route, n as int, before);
            lemma_tour_jobs_unique(route.tour);
            assert(fresh == spec_new_tour(route, n as int, before));
        }
        if !fresh {
            proof {
                if spec_fits(problem, individual@) {
                    assert(route.tour_unique());
                    assert forall|job: usize| #[trigger] route.serves(job) implies job < n && !before.contains(
                        job,
                    ) by {
                        assert(view.serves(job));
                        assert(view.knows(job));
                        if before.contains(job) {
                            let k = choose|k: int| 0 <= k < shorter.len() && (#[trigger] shorter[k]).serves(job);
                            assert(view.routes[k].serves(job));
                        }
                    }
                }
            }
            return false;
        }
        proof {
            assert forall|job: usize| #[trigger] index_set_contents(seen).contains(job) <==> spec_routes_serve(
                longer,
                job,
            ) by {
                if spec_routes_serve(longer, job) {
                    let k = choose|k: int| 0 <= k < longer.len() && (#[trigger] longer[k]).serves(job);
                    if k < r {
                        assert(shorter[k].serves(job));
                    }
                }
                if spec_routes_serve(shorter, job) {
                    let k = choose|k: int| 0 <= k < shorter.len() && (#[trigger] shorter[k]).serves(job);
                    assert(longer[k].serves(job));
                }
                if route.serves(job) {
                    assert(longer[r as int].serves(job));
                }
            }
            assert(spec_routes_unique(longer)) by {
                assert forall|k: int| 0 <= k < longer.len() implies (#[trigger] longer[k]).tour_unique() by {
                    if k < r {
                        assert(shorter[k].tour_unique());
                    }
                }
                assert forall|r1: int, r2: int, job: usize|
                    0 <= r1 < longer.len() && 0 <= r2 < longer.len() && r1 != r2 && (
                    #[trigger] longer[r1]).serves(job) implies !(#[trigger] longer[r2].serves(job)) by {
                    if longer[r2].serves(job) {
                        if r1 < r && r2 < r {
                            assert(shorter[r1].serves(job) && shorter[r2].serves(job));
                        } else {
                            let o = if r1 < r {
                                r1
                            } else {
                                r2
                            };
                            assert(shorter[o].serves(job));
                            assert(spec_routes_serve(shorter, job));
                            assert(route.serves(job));
                        }
                    }
                }
            }
        }
        r = r + 1;
    }
    assert(view.routes.take(r as int) =~= view.routes);
    let ghost served = index_set_contents(seen);
    if !note_jobs(&solution.required, n, &mut seen) {
        proof {
            if spec_fits(problem, individual@) {
                assert forall|i: int| 0 <= i < view.required.len() implies (#[trigger] view.required[i]) < n
                    && !served.contains(view.required[i]) by {
                    let job = view.required[i];
                    assert(view.required.contains(job));
                    assert(view.knows(job));
                    assert(view.in_one_group(job));
                }
            }
        }
        return false;
    }
    let ghost wanted = index_set_contents(seen);
    let mut left: Vec<usize> = Vec::new();
    let mut u: usize = 0;
    while u < solution.unassigned.len()
        invariant
            u <= solution.unassigned@.len(),
            *solution == individual.solution,
            left@ == spec_unassigned_jobs(solution.unassigned@).take(u as int),
        decreases solution.unassigned@.len() - u,
    {
        left.push(solution.unassigned[u].job);
        u = u + 1;
        assert(left@ =~= spec_unassigned_jobs(solution.unassigned@).take(u as int));
    }
    assert(left@ =~= spec_unassigned_jobs(view.unassigned));
    proof {
        assert forall|job: usize| #[trigger] left@.contains(job) <==> view.leaves_out(job) by {
            if left@.contains(job) {
                let i = choose|i: int| 0 <= i < left@.len() && left@[i] == job;
                assert(view.unassigned[i].job == job);
            }
            if view.leaves_out(job) {
                let i = choose|i: int|
                    0 <= i < view.unassigned.len() && (#[trigger] view.unassigned[i]).job == job;
                assert(left@[i] == job);
            }
        }
    }
    if !note_jobs(&left, n, &mut seen) {
        proof {
            if spec_fits(problem, individual@) {
                assert forall|i: int, j: int| 0 <= i < left@.len() && 0 <= j < left@.len() && i != j implies left@[i]
                    != left@[j] by {
                    if i < j {
                        assert(view.unassigned[i].job != view.unassigned[j].job);
                    } else {
                        assert(view.unassigned[j].job != view.unassigned[i].job);
                    }
                }
                assert forall|i: int| 0 <= i < left@.len() implies (#[trigger] left@[i]) < n
                    && !wanted.contains(left@[i]) by {
                    let job = left@[i];
                    assert(left@.contains(job));
                    assert(view.knows(job));
                    assert(view.in_one_group(job));
                }
            }
        }
        return false;
    }
    let ghost active = index_set_contents(seen);
    proof {
        assert forall|job: usize| #[trigger] active.contains(job) <==> view.is_active(job) by {
            assert(wanted.contains(job) <==> (served.contains(job) || view.required.contains(job)));
        }
        assert(view.unassigned_unique()) by {
            assert forall|i: int, j: int| 0 <= i < j < view.unassigned.len() implies (
            #[trigger] view.unassigned[i]).job != (#[trigger] view.unassigned[j]).job by {
                assert(left@[i] != left@[j]);
            }
        }
    }
    if !note_jobs(&solution.ignored, n, &mut seen) {
        proof {
            if spec_fits(problem, individual@) {
                assert forall|i: int| 0 <= i < view.ignored.len() implies (#[trigger] view.ignored[i]) < n
                    && !active.contains(view.ignored[i]) by {
                    let job = view.ignored[i];
                    assert(view.ignored.contains(job));
                    assert(view.knows(job));
                    assert(view.in_one_group(job));
                    assert(!view.is_active(job));
                }
            }
        }
        return false;
    }
    let ghost known = index_set_contents(seen);
    proof {
        assert forall|job: usize| #[trigger] known.contains(job) <==> view.knows(job) by {
            assert(active.contains(job) <==> view.is_active(job));
        }
    }
    let mut j: usize = 0;
    while j < n
        invariant
            j <= n,
            n == problem.jobs@.len(),
            view == individual@.solution,
            known == index_set_contents(seen),
            forall|job: usize| #[trigger] known.contains(job) <==> view.knows(job),
            forall|job: usize| job < j ==> known.contains(job),
        decreases n - j,
    {
        if !index_set_contains(&seen, j) {
            proof {
                if spec_fits(problem, individual@) {
                    assert(view.knows(j));
                }
            }
            return false;
        }
        j = j + 1;
    }
    proof {
        assert forall|job: usize| #[trigger] view.in_one_group(job) by {
            if view.ignored.contains(job) {
                let i = choose|i: int| 0 <= i < view.ignored.len() && view.ignored[i] == job;
                assert(!active.contains(view.ignored[i]));
            }
            if view.required.contains(job) {
                let i = choose|i: int| 0 <= i < view.required.len() && view.required[i] == job;
                assert(!served.contains(view.required[i]));
            }
            if view.leaves_out(job) {
                assert(left@.contains(job));
                let i = choose|i: int| 0 <= i < left@.len() && left@[i] == job;
                assert(!wanted.contains(left@[i]));
            }
        }
        assert forall|job: usize| #[trigger] view.knows(job) <==> job < n by {
            assert(known.contains(job) <==> view.knows(job));
            if view.knows(job) {
                if view.serves(job) {
                    assert(served.contains(job));
                } else if view.required.contains(job) {
                    let i = choose|i: int| 0 <= i < view.required.len() && view.required[i] == job;
                    assert(view.required[i] < n);
                } else if view.leaves_out(job) {
                    assert(left@.contains(job));
                    let i = choose|i: int| 0 <= i < left@.len() && left@[i] == job;
                    assert(left@[i] < n);
                } else {
                    let i = choose|i: int| 0 <= i < view.ignored.len() && view.ignored[i] == job;
                    assert(view.ignored[i] < n);
                }
            }
        }
    }
    true
}

} // verus!
