//! Splitting the routes of a solution into groups of routes that lie close
//! to each other.
//!
//! The place of a route is its medoid. For every route the other routes are
//! listed from the closest to the farthest; then the routes are taken in
//! their order, and each one that is still free forms a group with the
//! closest routes that are still free. A route to which no way is known
//! joins no group but its own.

use vstd::prelude::*;
use crate::models::common::{Location, Profile};
use crate::models::problem::TransportCost;
use crate::utils::index_set::{index_set_contains, index_set_contents, index_set_insert, index_set_new};

verus! {

/// The most routes that one group holds.
pub const MAX_ROUTES_PER_INDIVIDUAL: usize = 3;

/// Another route and how far away its medoid is; no distance where either
/// route has no medoid or no way leads from one medoid to the other.
#[derive(Clone, Copy, Debug)]
pub struct RouteDistance {
    pub index: usize,
    pub distance: Option<u64>,
}

/// The distance between the medoids of two routes.
pub open spec fn spec_medoid_distance(
    transport: &TransportCost,
    profile: Profile,
    from: Option<Location>,
    to: Option<Location>,
) -> Option<u64> {
    match (from, to) {
        (Some(a), Some(b)) => if transport.spec_distance(profile, a, b) < 0 {
            None
        } else {
            Some(transport.spec_distance(profile, a, b) as u64)
        },
        _ => None,
    }
}

/// The other routes as seen from the route at `outer`, in the order of their
/// positions: those among the first `upto` routes.
pub open spec fn spec_unsorted_distances(
    transport: &TransportCost,
    profile: Profile,
    medoids: Seq<Option<Location>>,
    outer: int,
    upto: int,
) -> Seq<RouteDistance>
    decreases upto,
{
    if upto <= 0 {
        Seq::empty()
    } else if upto - 1 == outer {
        spec_unsorted_distances(transport, profile, medoids, outer, upto - 1)
    } else {
        spec_unsorted_distances(transport, profile, medoids, outer, upto - 1).push(
            RouteDistance {
                index: (upto - 1) as usize,
                distance: spec_medoid_distance(
                    transport,
                    profile,
                    medoids[outer],
                    medoids[upto - 1],
                ),
            },
        )
    }
}

/// Whether `a` is closer than `b`: a smaller distance comes first, a known
/// distance before an unknown one, and two unknown distances are alike.
pub open spec fn spec_closer(a: RouteDistance, b: RouteDistance) -> bool {
    match (a.distance, b.distance) {
        (Some(x), Some(y)) => x < y,
        (Some(_), None) => true,
        _ => false,
    }
}

/// A list in order with one more entry: the entry goes behind every entry
/// that is not farther than it.
pub open spec fn spec_insert(sorted: Seq<RouteDistance>, entry: RouteDistance) -> Seq<RouteDistance>
    decreases sorted.len(),
{
    if sorted.len() == 0 {
        seq![entry]
    } else if spec_closer(entry, sorted.last()) {
        spec_insert(sorted.drop_last(), entry).push(sorted.last())
    } else {
        sorted.push(entry)
    }
}

/// A list from the closest to the farthest; entries that are equally far
/// keep the order in which they stood.
pub open spec fn spec_sort(list: Seq<RouteDistance>) -> Seq<RouteDistance>
    decreases list.len(),
{
    if list.len() == 0 {
        Seq::empty()
    } else {
        spec_insert(spec_sort(list.drop_last()), list.last())
    }
}

/// Whether no entry of a list stands before one that is closer.
pub open spec fn spec_ordered(list: Seq<RouteDistance>) -> bool {
    forall|i: int, j: int| 0 <= i < j < list.len() ==> !spec_closer(#[trigger] list[j], #[trigger] list[i])
}

/// Whether a list names each route at most once, only routes below `n`, and
/// not the route at `outer`.
pub open spec fn spec_names_others(list: Seq<RouteDistance>, outer: int, n: int) -> bool {
    &&& forall|k: int| 0 <= k < list.len() ==> (#[trigger] list[k]).index < n && list[k].index != outer
    &&& forall|k1: int, k2: int|
        0 <= k1 < k2 < list.len() ==> (#[trigger] list[k1]).index != (#[trigger] list[k2]).index
}

/// Where an entry goes into a list in order: in front of the entries at the
/// end that are farther than it.
pub proof fn lemma_insert_at(sorted: Seq<RouteDistance>, entry: RouteDistance, at: int)
    requires
        0 <= at <= sorted.len(),
        forall|k: int| at <= k < sorted.len() ==> spec_closer(entry, #[trigger] sorted[k]),
        at > 0 ==> !spec_closer(entry, sorted[at - 1]),
    ensures
        spec_insert(sorted, entry) == sorted.insert(at, entry),
    decreases sorted.len(),
{
    if sorted.len() == 0 {
        assert(sorted.insert(at, entry) =~= seq![entry]);
    } else if at == sorted.len() {
        assert(sorted.insert(at, entry) =~= sorted.push(entry));
    } else {
        assert(spec_closer(entry, sorted[sorted.len() - 1]));
        let rest = sorted.drop_last();
        assert forall|k: int| at <= k < rest.len() implies spec_closer(entry, #[trigger] rest[k]) by {
            assert(rest[k] == sorted[k]);
        }
        lemma_insert_at(rest, entry, at);
        assert(rest.insert(at, entry).push(sorted.last()) =~= sorted.insert(at, entry));
    }
}

/// What sorting keeps: the length and the entries; a list that names other
/// routes still does so; and the result is in order.
pub proof fn lemma_sort(list: Seq<RouteDistance>, outer: int, n: int)
    ensures
        spec_sort(list).len() == list.len(),
        forall|e: RouteDistance| #[trigger] spec_sort(list).contains(e) <==> list.contains(e),
        spec_ordered(spec_sort(list)),
        spec_names_others(list, outer, n) ==> spec_names_others(spec_sort(list), outer, n),
    decreases list.len(),
{
    if list.len() > 0 {
        let rest = list.drop_last();
        let entry = list.last();
        lemma_sort(rest, outer, n);
        let sorted = spec_sort(rest);
        let at = choose_insert_position(sorted, entry);
        lemma_insert_at(sorted, entry, at);
        let out = sorted.insert(at, entry);
        assert(spec_sort(list) == out);
        assert forall|e: RouteDistance| #[trigger] out.contains(e) <==> list.contains(e) by {
            if out.contains(e) {
                let i = choose|i: int| 0 <= i < out.len() && out[i] == e;
                if i == at {
                    assert(list[list.len() - 1] == e);
                } else {
                    let k = if i < at {
                        i
                    } else {
                        i - 1
                    };
                    assert(sorted[k] == e);
                    assert(sorted.contains(e));
                    assert(rest.contains(e));
                    let r = choose|r: int| 0 <= r < rest.len() && rest[r] == e;
                    assert(list[r] == e);
                }
            }
            if list.contains(e) {
                let r = choose|r: int| 0 <= r < list.len() && list[r] == e;
                if r == list.len() - 1 {
                    assert(out[at] == e);
                } else {
                    assert(rest[r] == e);
                    assert(rest.contains(e));
                    assert(sorted.contains(e));
                    let k = choose|k: int| 0 <= k < sorted.len() && sorted[k] == e;
                    if k < at {
                        assert(out[k] == e);
                    } else {
                        assert(out[k + 1] == e);
                    }
                }
            }
        }
        assert(spec_ordered(out)) by {
            assert forall|i: int, j: int| 0 <= i < j < out.len() implies !spec_closer(
                #[trigger] out[j],
                #[trigger] out[i],
            ) by {
                if j == at {
                    assert(out[i] == sorted[i]);
                    assert(!spec_closer(sorted[at - 1], sorted[i]) || i == at - 1);
                } else if i == at {
                    assert(out[j] == sorted[j - 1]);
                } else {
                    let a = if i < at {
                        i
                    } else {
                        i - 1
                    };
                    let b = if j < at {
                        j
                    } else {
                        j - 1
                    };
                    assert(out[i] == sorted[a] && out[j] == sorted[b]);
                }
            }
        }
        if spec_names_others(list, outer, n) {
            assert(spec_names_others(rest, outer, n)) by {
                assert forall|k: int| 0 <= k < rest.len() implies (#[trigger] rest[k]).index < n
                    && rest[k].index != outer by {
                    assert(rest[k] == list[k]);
                }
                assert forall|k1: int, k2: int| 0 <= k1 < k2 < rest.len() implies (
                #[trigger] rest[k1]).index != (#[trigger] rest[k2]).index by {
                    assert(rest[k1] == list[k1] && rest[k2] == list[k2]);
                }
            }
            assert forall|k: int| 0 <= k < sorted.len() implies (#[trigger] sorted[k]).index
                != entry.index by {
                assert(sorted.contains(sorted[k]));
                assert(rest.contains(sorted[k]));
                let r = choose|r: int| 0 <= r < rest.len() && rest[r] == sorted[k];
                assert(list[r].index != list[list.len() - 1].index);
            }
            assert(entry == list[list.len() - 1]);
            assert forall|k: int| 0 <= k < out.len() implies (#[trigger] out[k]).index < n
                && out[k].index != outer by {
                if k < at {
                    assert(out[k] == sorted[k]);
                } else if k > at {
                    assert(out[k] == sorted[k - 1]);
                }
            }
            assert forall|k1: int, k2: int| 0 <= k1 < k2 < out.len() implies (
            #[trigger] out[k1]).index != (#[trigger] out[k2]).index by {
                let a = if k1 < at {
                    k1
                } else {
                    k1 - 1
                };
                let b = if k2 < at {
                    k2
                } else {
                    k2 - 1
                };
                if k1 == at {
                    assert(out[k2] == sorted[b]);
                } else if k2 == at {
                    assert(out[k1] == sorted[a]);
                } else {
                    assert(out[k1] == sorted[a] && out[k2] == sorted[b]);
                }
            }
        }
    }
}

/// The place at which an entry goes into a list in order.
pub open spec fn spec_insert_position(sorted: Seq<RouteDistance>, entry: RouteDistance) -> int
    decreases sorted.len(),
{
    if sorted.len() == 0 {
        0
    } else if spec_closer(entry, sorted.last()) {
        spec_insert_position(sorted.drop_last(), entry)
    } else {
        sorted.len() as int
    }
}

proof fn choose_insert_position(sorted: Seq<RouteDistance>, entry: RouteDistance) -> (at: int)
    requires
        spec_ordered(sorted),
    ensures
        0 <= at <= sorted.len(),
        forall|k: int| at <= k < sorted.len() ==> spec_closer(entry, #[trigger] sorted[k]),
        at > 0 ==> !spec_closer(entry, sorted[at - 1]),
    decreases sorted.len(),
{
    if sorted.len() == 0 {
        0
    } else if spec_closer(entry, sorted.last()) {
        let rest = sorted.drop_last();
        assert(spec_ordered(rest)) by {
            assert forall|i: int, j: int| 0 <= i < j < rest.len() implies !spec_closer(
                #[trigger] rest[j],
                #[trigger] rest[i],
            ) by {
                assert(rest[i] == sorted[i] && rest[j] == sorted[j]);
            }
        }
        let at = choose_insert_position(rest, entry);
        assert forall|k: int| at <= k < sorted.len() implies spec_closer(entry, #[trigger] sorted[k]) by {
            if k < rest.len() {
                assert(rest[k] == sorted[k]);
            }
        }
        if at > 0 {
            assert(rest[at - 1] == sorted[at - 1]);
        }
        at
    } else {
        sorted.len() as int
    }
}

/// Tells whether `a` is closer than `b`.
pub fn closer(a: &RouteDistance, b: &RouteDistance) -> (result: bool)
    ensures
        result == spec_closer(*a, *b),
{
    match (a.distance, b.distance) {
        (Some(x), Some(y)) => x < y,
        (Some(_), None) => true,
        _ => false,
    }
}

/// Orders a list from the closest to the farthest; entries that are equally
/// far keep their order.
pub fn sort_route_distances(list: &Vec<RouteDistance>) -> (sorted: Vec<RouteDistance>)
    ensures
        sorted@ == spec_sort(list@),
{
    let mut sorted: Vec<RouteDistance> = Vec::new();
    let mut i: usize = 0;
    while i < list.len()
        invariant
            i <= list@.len(),
            sorted@ == spec_sort(list@.take(i as int)),
        decreases list@.len() - i,
    {
        let entry: RouteDistance = list[i];
        proof {
            lemma_sort(list@.take(i as int), 0, 0);
        }
        let mut at: usize = sorted.len();
        while at > 0 && closer(&entry, &sorted[at - 1])
            invariant
                at <= sorted@.len(),
                forall|k: int| at <= k < sorted@.len() ==> spec_closer(entry, #[trigger] sorted@[k]),
            decreases at,
        {
            at = at - 1;
        }
        proof {
            lemma_insert_at(sorted@, entry, at as int);
            assert(list@.take(i as int + 1).drop_last() =~= list@.take(i as int));
        }
        sorted.insert(at, entry);
        i = i + 1;
    }
    assert(list@.take(i as int) =~= list@);
    sorted
}

/// The distance between the medoids of two routes.
pub fn medoid_distance(
    transport: &TransportCost,
    profile: Profile,
    from: Option<Location>,
    to: Option<Location>,
) -> (distance: Option<u64>)
    ensures
        distance == spec_medoid_distance(transport, profile, from, to),
{
    match (from, to) {
        (Some(a), Some(b)) => {
            let distance: i64 = transport.distance(profile, a, b, 0);
            if distance < 0 {
                None
            } else {
                Some(distance as u64)
            }
        },
        _ => None,
    }
}

/// The lists of the other routes, one for each route, each from the closest
/// to the farthest.
pub open spec fn spec_route_groups_distances(
    transport: &TransportCost,
    profile: Profile,
    medoids: Seq<Option<Location>>,
) -> Seq<Seq<RouteDistance>> {
    Seq::new(
        medoids.len(),
        |outer: int|
            spec_sort(
                spec_unsorted_distances(transport, profile, medoids, outer, medoids.len() as int),
            ),
    )
}

/// The views of a list of lists.
pub open spec fn spec_list_views(lists: Seq<Vec<RouteDistance>>) -> Seq<Seq<RouteDistance>> {
    Seq::new(lists.len(), |i: int| lists[i]@)
}

/// The views of a list of groups.
pub open spec fn spec_group_views(groups: Seq<Vec<usize>>) -> Seq<Seq<usize>> {
    Seq::new(groups.len(), |g: int| groups[g]@)
}

/// The unsorted list of the route at `outer` names each other route once.
pub proof fn lemma_unsorted_names_others(
    transport: &TransportCost,
    profile: Profile,
    medoids: Seq<Option<Location>>,
    outer: int,
    upto: int,
)
    requires
        0 <= upto <= usize::MAX,
    ensures
        spec_names_others(
            spec_unsorted_distances(transport, profile, medoids, outer, upto),
            outer,
            upto,
        ),
        spec_unsorted_distances(transport, profile, medoids, outer, upto).len() <= upto,
    decreases upto,
{
    if upto > 0 {
        lemma_unsorted_names_others(transport, profile, medoids, outer, upto - 1);
        let shorter = spec_unsorted_distances(transport, profile, medoids, outer, upto - 1);
        let list = spec_unsorted_distances(transport, profile, medoids, outer, upto);
        if upto - 1 != outer {
            assert forall|k: int| 0 <= k < list.len() implies (#[trigger] list[k]).index < upto
                && list[k].index != outer by {
                if k < shorter.len() {
                    assert(list[k] == shorter[k]);
                }
            }
            assert forall|k1: int, k2: int| 0 <= k1 < k2 < list.len() implies (
            #[trigger] list[k1]).index != (#[trigger] list[k2]).index by {
                assert(list[k1] == shorter[k1]);
                if k2 < shorter.len() {
                    assert(list[k2] == shorter[k2]);
                }
            }
        } else {
            assert forall|k: int| 0 <= k < list.len() implies (#[trigger] list[k]).index < upto
                && list[k].index != outer by {
                assert(list[k] == shorter[k]);
            }
        }
    }
}

/// Every list of `spec_route_groups_distances` names each other route at
/// most once, and no route that is not there.
pub proof fn lemma_route_groups_distances_wf(
    transport: &TransportCost,
    profile: Profile,
    medoids: Seq<Option<Location>>,
)
    requires
        medoids.len() <= usize::MAX,
    ensures
        spec_lists_wf(spec_route_groups_distances(transport, profile, medoids)),
{
    let lists = spec_route_groups_distances(transport, profile, medoids);
    let n = medoids.len() as int;
    assert forall|i: int| 0 <= i < lists.len() implies spec_names_others(
        #[trigger] lists[i],
        i,
        lists.len() as int,
    ) by {
        lemma_unsorted_names_others(transport, profile, medoids, i, n);
        lemma_sort(spec_unsorted_distances(transport, profile, medoids, i, n), i, n);
    }
}

/// Builds for each route the list of the other routes, from the closest to
/// the farthest by the distance between the medoids.
pub fn route_groups_distances(
    transport: &TransportCost,
    profile: Profile,
    medoids: &Vec<Option<Location>>,
) -> (lists: Vec<Vec<RouteDistance>>)
    ensures
        spec_list_views(lists@) == spec_route_groups_distances(transport, profile, medoids@),
        spec_lists_wf(spec_list_views(lists@)),
{
    let n: usize = medoids.len();
    let mut lists: Vec<Vec<RouteDistance>> = Vec::new();
    let mut outer: usize = 0;
    while outer < n
        invariant
            n == medoids@.len(),
            outer <= n,
            lists@.len() == outer,
            forall|i: int|
                0 <= i < outer ==> (#[trigger] lists@[i])@ == spec_sort(
                    spec_unsorted_distances(transport, profile, medoids@, i, n as int),
                ),
        decreases n - outer,
    {
        let mut list: Vec<RouteDistance> = Vec::new();
        let mut inner: usize = 0;
        while inner < n
            invariant
                n == medoids@.len(),
                outer < n,
                inner <= n,
                list@ == spec_unsorted_distances(
                    transport,
                    profile,
                    medoids@,
                    outer as int,
                    inner as int,
                ),
            decreases n - inner,
        {
            if inner != outer {
                let distance = medoid_distance(transport, profile, medoids[outer], medoids[inner]);
                list.push(RouteDistance { index: inner, distance });
            }
            inner = inner + 1;
        }
        lists.push(sort_route_distances(&list));
        outer = outer + 1;
    }
    proof {
        assert(spec_list_views(lists@) =~= spec_route_groups_distances(
            transport,
            profile,
            medoids@,
        ));
        lemma_route_groups_distances_wf(transport, profile, medoids@);
    }
    lists
}

/// The first `limit` routes of a list that `used` does not hold and whose
/// distance is known, in the order of the list.
pub open spec fn spec_pick(candidates: Seq<RouteDistance>, used: Set<usize>, limit: nat) -> Seq<usize>
    decreases candidates.len(),
{
    if candidates.len() == 0 || limit == 0 {
        Seq::empty()
    } else if used.contains(candidates[0].index) || candidates[0].distance is None {
        spec_pick(candidates.drop_first(), used, limit)
    } else {
        seq![candidates[0].index] + spec_pick(candidates.drop_first(), used, (limit - 1) as nat)
    }
}

/// The group that the route at `outer` forms: the closest routes that are
/// still free and can be reached, at most `MAX_ROUTES_PER_INDIVIDUAL - 1` of
/// them, and the route itself.
pub open spec fn spec_group(candidates: Seq<RouteDistance>, used: Set<usize>, outer: usize) -> Seq<usize> {
    spec_pick(candidates, used, (MAX_ROUTES_PER_INDIVIDUAL - 1) as nat).push(outer)
}

/// A set with the members of a group added.
pub open spec fn spec_with(used: Set<usize>, group: Seq<usize>) -> Set<usize> {
    Set::new(|x: usize| used.contains(x) || group.contains(x))
}

/// The groups that the routes from `from` on form, where `used` holds the
/// routes that earlier groups took.
pub open spec fn spec_groups(lists: Seq<Seq<RouteDistance>>, from: int, used: Set<usize>) -> Seq<Seq<usize>>
    decreases lists.len() - from,
{
    if from < 0 || from >= lists.len() {
        Seq::empty()
    } else if used.contains(from as usize) {
        spec_groups(lists, from + 1, used)
    } else {
        let group = spec_group(lists[from], used, from as usize);
        seq![group] + spec_groups(lists, from + 1, spec_with(used, group))
    }
}

/// The members of all groups, group after group.
pub open spec fn spec_flatten(groups: Seq<Seq<usize>>) -> Seq<usize>
    decreases groups.len(),
{
    if groups.len() == 0 {
        Seq::empty()
    } else {
        spec_flatten(groups.drop_last()) + groups.last()
    }
}

/// Whether every list names each route other than its own at most once, and
/// only routes that have a list.
pub open spec fn spec_lists_wf(lists: Seq<Seq<RouteDistance>>) -> bool {
    forall|i: int| 0 <= i < lists.len() ==> spec_names_others(#[trigger] lists[i], i, lists.len() as int)
}

/// Whether `(group, position)` names a member of a group.
pub open spec fn spec_member(groups: Seq<Seq<usize>>, group: int, position: int) -> bool {
    0 <= group < groups.len() && 0 <= position < groups[group].len()
}

/// Whether some group holds `route`.
pub open spec fn spec_in_groups(groups: Seq<Seq<usize>>, route: usize) -> bool {
    exists|g: int, k: int| spec_member(groups, g, k) && #[trigger] groups[g][k] == route
}

/// Whether the groups split the routes `0..n`: every route is in exactly one
/// group and there only once, the groups hold nothing else, and no group is
/// empty or larger than `MAX_ROUTES_PER_INDIVIDUAL`.
pub open spec fn spec_splits(groups: Seq<Seq<usize>>, n: int) -> bool {
    &&& forall|route: usize| route < n ==> #[trigger] spec_in_groups(groups, route)
    &&& forall|g1: int, k1: int, g2: int, k2: int|
        spec_member(groups, g1, k1) && spec_member(groups, g2, k2) && #[trigger] groups[g1][k1]
            == #[trigger] groups[g2][k2] ==> g1 == g2 && k1 == k2
    &&& forall|g: int, k: int| spec_member(groups, g, k) ==> (#[trigger] groups[g][k]) < n
    &&& forall|g: int| 0 <= g < groups.len() ==> 0 < (#[trigger] groups[g]).len() <= MAX_ROUTES_PER_INDIVIDUAL
}

/// Takes the closest routes of a list that are still free.
pub fn pick_closest(candidates: &Vec<RouteDistance>, used: &hashbrown::HashSet<usize>, limit: usize) -> (picked: Vec<usize>)
    ensures
        picked@ == spec_pick(candidates@, index_set_contents(*used), limit as nat),
{
    let mut picked: Vec<usize> = Vec::new();
    let mut c: usize = 0;
    let ghost contents = index_set_contents(*used);
    assert(candidates@.skip(0) =~= candidates@);
    while c < candidates.len() && picked.len() < limit
        invariant
            c <= candidates@.len(),
            picked@.len() <= limit,
            contents == index_set_contents(*used),
            spec_pick(candidates@, contents, limit as nat) == picked@ + spec_pick(
                candidates@.skip(c as int),
                contents,
                (limit - picked@.len()) as nat,
            ),
        decreases candidates@.len() - c,
    {
        let ghost before = picked@;
        assert(candidates@.skip(c as int).drop_first() =~= candidates@.skip(c as int + 1));
        assert(candidates@.skip(c as int)[0] == candidates@[c as int]);
        if !index_set_contains(used, candidates[c].index) && candidates[c].distance.is_some() {
            picked.push(candidates[c].index);
            assert(picked@ + spec_pick(
                candidates@.skip(c as int + 1),
                contents,
                (limit - picked@.len()) as nat,
            ) =~= before + (seq![candidates@[c as int].index] + spec_pick(
                candidates@.skip(c as int + 1),
                contents,
                (limit - picked@.len()) as nat,
            )));
        }
        c = c + 1;
    }
    proof {
        assert(spec_pick(candidates@.skip(c as int), contents, (limit - picked@.len()) as nat)
            =~= Seq::<usize>::empty());
        assert(picked@ + Seq::<usize>::empty() =~= picked@);
    }
    picked
}

/// What is picked from a list that names no route twice: routes of the
/// list that `used` does not hold, each once, and at most `limit`.
pub proof fn lemma_pick(candidates: Seq<RouteDistance>, used: Set<usize>, limit: nat)
    requires
        forall|k1: int, k2: int|
            0 <= k1 < k2 < candidates.len() ==> (#[trigger] candidates[k1]).index != (
            #[trigger] candidates[k2]).index,
    ensures
        spec_pick(candidates, used, limit).no_duplicates(),
        forall|x: usize|
            #[trigger] spec_pick(candidates, used, limit).contains(x) ==> exists|c: int|
                0 <= c < candidates.len() && (#[trigger] candidates[c]).index == x,
        forall|x: usize| #[trigger] spec_pick(candidates, used, limit).contains(x) ==> !used.contains(x),
        spec_pick(candidates, used, limit).len() <= limit,
    decreases candidates.len(),
{
    if candidates.len() > 0 && limit > 0 {
        let rest = candidates.drop_first();
        assert forall|k1: int, k2: int| 0 <= k1 < k2 < rest.len() implies (#[trigger] rest[k1]).index
            != (#[trigger] rest[k2]).index by {
            assert(rest[k1] == candidates[k1 + 1] && rest[k2] == candidates[k2 + 1]);
        }
        let skipped = used.contains(candidates[0].index) || candidates[0].distance is None;
        let l = if skipped {
            limit
        } else {
            (limit - 1) as nat
        };
        lemma_pick(rest, used, l);
        let sub = spec_pick(rest, used, l);
        let out = spec_pick(candidates, used, limit);
        assert forall|x: usize| #[trigger] out.contains(x) implies exists|c: int|
            0 <= c < candidates.len() && (#[trigger] candidates[c]).index == x by {
            let i = choose|i: int| 0 <= i < out.len() && out[i] == x;
            if !skipped && i == 0 {
                assert(candidates[0].index == x);
            } else {
                let k = if skipped {
                    i
                } else {
                    i - 1
                };
                assert(sub[k] == x);
                assert(sub.contains(x));
                let c = choose|c: int| 0 <= c < rest.len() && (#[trigger] rest[c]).index == x;
                assert(candidates[c + 1].index == x);
            }
        }
        assert forall|x: usize| #[trigger] out.contains(x) implies !used.contains(x) by {
            let i = choose|i: int| 0 <= i < out.len() && out[i] == x;
            if !skipped && i == 0 {
            } else {
                let k = if skipped {
                    i
                } else {
                    i - 1
                };
                assert(sub[k] == x);
                assert(sub.contains(x));
            }
        }
        if !skipped {
            assert forall|i: int, j: int| 0 <= i < out.len() && 0 <= j < out.len() && i != j implies out[i]
                != out[j] by {
                if i == 0 || j == 0 {
                    let o = if i == 0 {
                        j
                    } else {
                        i
                    };
                    assert(sub[o - 1] == out[o]);
                    assert(sub.contains(out[o]));
                    let c = choose|c: int| 0 <= c < rest.len() && (#[trigger] rest[c]).index == out[o];
                    assert(candidates[c + 1].index != candidates[0].index);
                } else {
                    assert(sub[i - 1] == out[i] && sub[j - 1] == out[j]);
                }
            }
        }
    }
}

/// What the groups formed from the route at `from` on hold, where `used`
/// holds the routes that earlier groups took: every route that is still
/// free, in exactly one group and there once, and no other.
pub proof fn lemma_groups_from(lists: Seq<Seq<RouteDistance>>, from: int, used: Set<usize>)
    requires
        spec_lists_wf(lists),
        lists.len() <= usize::MAX,
        0 <= from <= lists.len(),
        forall|x: usize| used.contains(x) ==> x < lists.len(),
        forall|route: usize| route < from ==> used.contains(route),
    ensures
        forall|x: usize|
            #[trigger] spec_in_groups(spec_groups(lists, from, used), x) <==> (x < lists.len()
                && !used.contains(x)),
        forall|g1: int, k1: int, g2: int, k2: int|
            spec_member(spec_groups(lists, from, used), g1, k1) && spec_member(
                spec_groups(lists, from, used),
                g2,
                k2,
            ) && #[trigger] spec_groups(lists, from, used)[g1][k1] == #[trigger] spec_groups(
                lists,
                from,
                used,
            )[g2][k2] ==> g1 == g2 && k1 == k2,
        forall|g: int|
            0 <= g < spec_groups(lists, from, used).len() ==> 0 < (#[trigger] spec_groups(
                lists,
                from,
                used,
            )[g]).len() <= MAX_ROUTES_PER_INDIVIDUAL,
    decreases lists.len() - from,
{
    let n = lists.len() as int;
    let groups = spec_groups(lists, from, used);
    if from >= n {
        assert(groups =~= Seq::<Seq<usize>>::empty());
        assert forall|x: usize| #[trigger] spec_in_groups(groups, x) <==> (x < n && !used.contains(x)) by {
            if x < n {
                assert(used.contains(x));
            }
        }
    } else if used.contains(from as usize) {
        assert forall|route: usize| route < from + 1 implies used.contains(route) by {}
        lemma_groups_from(lists, from + 1, used);
        assert(groups == spec_groups(lists, from + 1, used));
    } else {
        let list = lists[from];
        assert(spec_names_others(list, from, n));
        let picked = spec_pick(list, used, (MAX_ROUTES_PER_INDIVIDUAL - 1) as nat);
        lemma_pick(list, used, (MAX_ROUTES_PER_INDIVIDUAL - 1) as nat);
        let group = picked.push(from as usize);
        let next = spec_with(used, group);
        assert forall|x: usize| picked.contains(x) implies x < n && x != from by {
            let c = choose|c: int| 0 <= c < list.len() && (#[trigger] list[c]).index == x;
        }
        assert forall|i: int, j: int|
            0 <= i < group.len() && 0 <= j < group.len() && i != j implies group[i] != group[j] by {
            if i < picked.len() {
                assert(picked[i] == group[i]);
                assert(picked.contains(group[i]));
            }
            if j < picked.len() {
                assert(picked[j] == group[j]);
                assert(picked.contains(group[j]));
            }
        }
        assert forall|x: usize| group.contains(x) <==> (picked.contains(x) || x == from) by {
            if group.contains(x) {
                let i = choose|i: int| 0 <= i < group.len() && group[i] == x;
                if i < picked.len() {
                    assert(picked[i] == x);
                }
            }
            if picked.contains(x) {
                let i = choose|i: int| 0 <= i < picked.len() && picked[i] == x;
                assert(group[i] == x);
            }
            if x == from {
                assert(group[group.len() - 1] == x);
            }
        }
        assert forall|x: usize| next.contains(x) implies x < n by {}
        assert forall|route: usize| route < from + 1 implies next.contains(route) by {}
        lemma_groups_from(lists, from + 1, next);
        let rest = spec_groups(lists, from + 1, next);
        assert(groups == seq![group] + rest);
        assert(groups[0] == group);
        assert forall|g: int| 0 < g < groups.len() implies #[trigger] groups[g] == rest[g - 1] by {}
        assert forall|x: usize| #[trigger] spec_in_groups(groups, x) <==> (x < n && !used.contains(x)) by {
            if spec_in_groups(groups, x) {
                let (g, k) = choose|g: int, k: int| spec_member(groups, g, k) && #[trigger] groups[g][k] == x;
                if g == 0 {
                    assert(group.contains(x));
                } else {
                    assert(groups[g] == rest[g - 1]);
                    assert(spec_member(rest, g - 1, k) && rest[g - 1][k] == x);
                    assert(spec_in_groups(rest, x));
                }
            }
            if x < n && !used.contains(x) {
                if group.contains(x) {
                    let i = choose|i: int| 0 <= i < group.len() && group[i] == x;
                    assert(spec_member(groups, 0, i) && groups[0][i] == x);
                } else {
                    assert(!next.contains(x));
                    assert(spec_in_groups(rest, x));
                    let (g, k) = choose|g: int, k: int| spec_member(rest, g, k) && #[trigger] rest[g][k] == x;
                    assert(groups[g + 1] == rest[g]);
                    assert(spec_member(groups, g + 1, k) && groups[g + 1][k] == x);
                }
            }
        }
        assert forall|g1: int, k1: int, g2: int, k2: int|
            spec_member(groups, g1, k1) && spec_member(groups, g2, k2) && #[trigger] groups[g1][k1]
                == #[trigger] groups[g2][k2] implies g1 == g2 && k1 == k2 by {
            if g1 > 0 {
                assert(groups[g1] == rest[g1 - 1]);
                assert(spec_member(rest, g1 - 1, k1));
                assert(spec_in_groups(rest, rest[g1 - 1][k1]));
            } else {
                assert(group.contains(group[k1]));
            }
            if g2 > 0 {
                assert(groups[g2] == rest[g2 - 1]);
                assert(spec_member(rest, g2 - 1, k2));
                assert(spec_in_groups(rest, rest[g2 - 1][k2]));
            } else {
                assert(group.contains(group[k2]));
            }
        }
        assert forall|g: int| 0 <= g < groups.len() implies 0 < (#[trigger] groups[g]).len()
            <= MAX_ROUTES_PER_INDIVIDUAL by {
            if g > 0 {
                assert(groups[g] == rest[g - 1]);
            }
        }
    }
}

/// The number of members of all groups together.
pub open spec fn spec_total(groups: Seq<Seq<usize>>) -> nat
    decreases groups.len(),
{
    if groups.len() == 0 {
        0
    } else {
        groups[0].len() + spec_total(groups.drop_first())
    }
}

/// One more group adds its members.
pub proof fn lemma_total_push(groups: Seq<Seq<usize>>, group: Seq<usize>)
    ensures
        spec_total(groups.push(group)) == spec_total(groups) + group.len(),
    decreases groups.len(),
{
    if groups.len() == 0 {
        assert(groups.push(group).drop_first() =~= Seq::<Seq<usize>>::empty());
        assert(spec_total(groups.push(group).drop_first()) == 0);
    } else {
        lemma_total_push(groups.drop_first(), group);
        assert(groups.push(group).drop_first() =~= groups.drop_first().push(group));
    }
}

/// The routes below `n`.
pub open spec fn spec_below(n: nat) -> Set<usize> {
    Set::new(|x: usize| x < n)
}

/// There are `n` routes below `n`.
pub proof fn lemma_below(n: nat)
    requires
        n <= usize::MAX,
    ensures
        spec_below(n).finite(),
        spec_below(n).len() == n,
    decreases n,
{
    if n == 0 {
        assert(spec_below(0) =~= Set::<usize>::empty());
    } else {
        lemma_below((n - 1) as nat);
        assert(spec_below(n) =~= spec_below((n - 1) as nat).insert((n - 1) as usize));
    }
}

/// A set with the members of a group added has as many members more as the
/// group has, where the group names none of the set and none twice.
pub proof fn lemma_with_count(used: Set<usize>, group: Seq<usize>)
    requires
        used.finite(),
        group.no_duplicates(),
        forall|k: int| 0 <= k < group.len() ==> !used.contains(#[trigger] group[k]),
    ensures
        spec_with(used, group).finite(),
        spec_with(used, group).len() == used.len() + group.len(),
    decreases group.len(),
{
    if group.len() == 0 {
        assert(spec_with(used, group) =~= used);
    } else {
        let rest = group.drop_last();
        let last = group.last();
        assert forall|k: int| 0 <= k < rest.len() implies !used.contains(#[trigger] rest[k]) by {
            assert(rest[k] == group[k]);
        }
        assert(rest.no_duplicates()) by {
            assert forall|i: int, j: int| 0 <= i < rest.len() && 0 <= j < rest.len() && i != j implies rest[i]
                != rest[j] by {
                assert(rest[i] == group[i] && rest[j] == group[j]);
            }
        }
        lemma_with_count(used, rest);
        assert(!spec_with(used, rest).contains(last)) by {
            assert(!used.contains(group[group.len() - 1]));
            if rest.contains(last) {
                let i = choose|i: int| 0 <= i < rest.len() && rest[i] == last;
                assert(group[i] == group[group.len() - 1]);
            }
        }
        assert(spec_with(used, group) =~= spec_with(used, rest).insert(last)) by {
            assert forall|x: usize| spec_with(used, group).contains(x) == spec_with(used, rest).insert(
                last,
            ).contains(x) by {
                if group.contains(x) {
                    let i = choose|i: int| 0 <= i < group.len() && group[i] == x;
                    if i < rest.len() {
                        assert(rest[i] == x);
                    }
                }
                if rest.contains(x) {
                    let i = choose|i: int| 0 <= i < rest.len() && rest[i] == x;
                    assert(group[i] == x);
                }
                if x == last {
                    assert(group[group.len() - 1] == x);
                }
            }
        }
    }
}

/// The groups formed from the route at `from` on have as many members
/// together as there are routes that earlier groups did not take.
pub proof fn lemma_groups_count(lists: Seq<Seq<RouteDistance>>, from: int, used: Set<usize>)
    requires
        spec_lists_wf(lists),
        lists.len() <= usize::MAX,
        0 <= from <= lists.len(),
        used.finite(),
        forall|x: usize| used.contains(x) ==> x < lists.len(),
        forall|route: usize| route < from ==> used.contains(route),
    ensures
        spec_total(spec_groups(lists, from, used)) + used.len() == lists.len(),
    decreases lists.len() - from,
{
    let n = lists.len();
    let groups = spec_groups(lists, from, used);
    if from >= n {
        lemma_below(n);
        assert(used =~= spec_below(n));
    } else if used.contains(from as usize) {
        assert forall|route: usize| route < from + 1 implies used.contains(route) by {}
        lemma_groups_count(lists, from + 1, used);
    } else {
        let outer = from as usize;
        let picked = spec_pick(lists[from], used, (MAX_ROUTES_PER_INDIVIDUAL - 1) as nat);
        let group = spec_group(lists[from], used, outer);
        assert(spec_names_others(lists[from], from, n as int));
        lemma_pick(lists[from], used, (MAX_ROUTES_PER_INDIVIDUAL - 1) as nat);
        assert forall|k: int| 0 <= k < picked.len() implies (#[trigger] picked[k]) < n && picked[k] != outer
            && !used.contains(picked[k]) by {
            assert(picked.contains(picked[k]));
            let c = choose|c: int| 0 <= c < lists[from].len() && (#[trigger] lists[from][c]).index == picked[k];
            assert(lists[from][c].index < n);
        }
        assert(group.no_duplicates()) by {
            assert forall|i: int, j: int| 0 <= i < group.len() && 0 <= j < group.len() && i != j implies group[i]
                != group[j] by {
                if i < picked.len() {
                    assert(group[i] == picked[i]);
                }
                if j < picked.len() {
                    assert(group[j] == picked[j]);
                }
            }
        }
        assert forall|k: int| 0 <= k < group.len() implies !used.contains(#[trigger] group[k]) by {
            if k < picked.len() {
                assert(group[k] == picked[k]);
            }
        }
        lemma_with_count(used, group);
        let more = spec_with(used, group);
        assert forall|x: usize| more.contains(x) implies x < n by {
            if group.contains(x) {
                let i = choose|i: int| 0 <= i < group.len() && group[i] == x;
                if i < picked.len() {
                    assert(group[i] == picked[i]);
                }
            }
        }
        assert forall|route: usize| route < from + 1 implies more.contains(route) by {
            if route == outer {
                assert(group[group.len() - 1] == outer);
                assert(group.contains(outer));
            }
        }
        lemma_groups_count(lists, from + 1, more);
        let rest = spec_groups(lists, from + 1, more);
        assert(groups == seq![group] + rest);
        assert(groups.drop_first() =~= rest);
        assert(groups[0] == group);
    }
}

/// The groups split the routes: every route is in exactly one group, once.
pub proof fn lemma_groups_split(lists: Seq<Seq<RouteDistance>>)
    requires
        spec_lists_wf(lists),
        lists.len() <= usize::MAX,
    ensures
        spec_splits(spec_groups(lists, 0, Set::empty()), lists.len() as int),
{
    lemma_groups_from(lists, 0, Set::empty());
    let groups = spec_groups(lists, 0, Set::empty());
    assert forall|g: int, k: int| spec_member(groups, g, k) implies (#[trigger] groups[g][k])
        < lists.len() by {
        assert(spec_in_groups(groups, groups[g][k]));
    }
}

/// Forms the groups of routes: the routes are taken in their order, and each
/// one that no earlier group holds forms a group with the closest routes of
/// its list that no group holds yet. Where every list names each other
/// route at most once, and no route that has no list, every route ends up
/// in exactly one group.
pub fn group_routes(lists: &Vec<Vec<RouteDistance>>) -> (groups: Vec<Vec<usize>>)
    ensures
        spec_group_views(groups@) == spec_groups(spec_list_views(lists@), 0, Set::empty()),
        spec_lists_wf(spec_list_views(lists@)) ==> spec_splits(spec_group_views(groups@), lists@.len() as int),
{
    let n: usize = lists.len();
    let ghost views = spec_list_views(lists@);
    let mut used = index_set_new();
    let mut groups: Vec<Vec<usize>> = Vec::new();
    let mut outer: usize = 0;
    assert(Seq::<Seq<usize>>::empty() + spec_groups(views, 0, Set::empty()) =~= spec_groups(
        views,
        0,
        Set::empty(),
    ));
    assert(spec_group_views(groups@) =~= Seq::<Seq<usize>>::empty());
    while outer < n
        invariant
            n == lists@.len(),
            outer <= n,
            views == spec_list_views(lists@),
            spec_groups(views, 0, Set::empty()) == spec_group_views(groups@) + spec_groups(
                views,
                outer as int,
                index_set_contents(used),
            ),
        decreases n - outer,
    {
        let ghost used_before = index_set_contents(used);
        let ghost groups_before = spec_group_views(groups@);
        if !index_set_contains(&used, outer) {
            assert(views[outer as int] == lists@[outer as int]@);
            let mut group = pick_closest(&lists[outer], &used, MAX_ROUTES_PER_INDIVIDUAL - 1);
            group.push(outer);
            assert(group@ == spec_group(views[outer as int], used_before, outer));
            let mut k: usize = 0;
            while k < group.len()
                invariant
                    k <= group@.len(),
                    forall|x: usize|
                        #[trigger] index_set_contents(used).contains(x) <==> (used_before.contains(
                            x,
                        ) || group@.take(k as int).contains(x)),
                decreases group@.len() - k,
            {
                let ghost shorter = group@.take(k as int);
                let ghost longer = group@.take(k as int + 1);
                let ghost old_set = index_set_contents(used);
                index_set_insert(&mut used, group[k]);
                assert forall|x: usize| #[trigger] index_set_contents(used).contains(x) <==> (
                used_before.contains(x) || longer.contains(x)) by {
                    assert(old_set.contains(x) <==> (used_before.contains(x) || shorter.contains(x)));
                    if longer.contains(x) {
                        let i = choose|i: int| 0 <= i < longer.len() && longer[i] == x;
                        if i < k {
                            assert(shorter[i] == x);
                        }
                    }
                    if shorter.contains(x) {
                        let i = choose|i: int| 0 <= i < shorter.len() && shorter[i] == x;
                        assert(longer[i] == x);
                    }
                    if x == group@[k as int] {
                        assert(longer[k as int] == x);
                    }
                }
                k = k + 1;
            }
            assert(group@.take(k as int) =~= group@);
            assert(index_set_contents(used) =~= spec_with(used_before, group@));
            let ghost group_view = group@;
            groups.push(group);
            proof {
                assert(spec_group_views(groups@) =~= groups_before.push(group_view));
                assert(groups_before.push(group_view) + spec_groups(
                    views,
                    outer as int + 1,
                    spec_with(used_before, group_view),
                ) =~= groups_before + (seq![group_view] + spec_groups(
                    views,
                    outer as int + 1,
                    spec_with(used_before, group_view),
                )));
            }
        }
        outer = outer + 1;
    }
    proof {
        assert(spec_groups(views, n as int, index_set_contents(used)) =~= Seq::<Seq<usize>>::empty());
        assert(spec_group_views(groups@) + Seq::<Seq<usize>>::empty() =~= spec_group_views(groups@));
        if spec_lists_wf(views) {
            lemma_groups_split(views);
        }
    }
    groups
}

} // verus!
