//! A hash set of indices, kept in `hashbrown`'s `HashSet`. Sets are made of
//! lists by `index_set_of`, which tells what they hold.

use vstd::prelude::*;

verus! {

#[verifier::external_type_specification]
#[verifier::external_body]
#[verifier::reject_recursive_types(T)]
#[verifier::reject_recursive_types(S)]
pub struct ExHashSet<T, S>(hashbrown::HashSet<T, S>);

#[verifier::external_type_specification]
#[verifier::external_body]
pub struct ExDefaultHashBuilder(hashbrown::hash_map::DefaultHashBuilder);

/// The indices that a set holds.
pub uninterp spec fn index_set_contents(set: hashbrown::HashSet<usize>) -> Set<usize>;

/// `hashbrown::HashSet::new`: the new set holds nothing.
#[verifier::external_body]
pub(crate) fn index_set_new() -> (set: hashbrown::HashSet<usize>)
    ensures
        index_set_contents(set) == Set::<usize>::empty(),
{
    hashbrown::HashSet::new()
}

/// `hashbrown::HashSet::contains`: tells whether the set holds `value`, and
/// leaves the set as it is.
#[verifier::external_body]
pub(crate) fn index_set_contains(set: &hashbrown::HashSet<usize>, value: usize) -> (found: bool)
    ensures
        found == index_set_contents(*set).contains(value),
{
    set.contains(&value)
}

/// `hashbrown::HashSet::insert`: afterwards the set holds `value` besides what
/// it held before; the result tells whether `value` was new to it.
#[verifier::external_body]
pub(crate) fn index_set_insert(set: &mut hashbrown::HashSet<usize>, value: usize) -> (fresh: bool)
    ensures
        index_set_contents(*final(set)) == index_set_contents(*old(set)).insert(value),
        fresh == !index_set_contents(*old(set)).contains(value),
{
    set.insert(value)
}

/// The set of the indices of a list.
pub fn index_set_of(items: &Vec<usize>) -> (set: hashbrown::HashSet<usize>)
    ensures
        forall|value: usize| #[trigger] index_set_contents(set).contains(value) <==> items@.contains(value),
{
    let mut set = index_set_new();
    let mut i: usize = 0;
    while i < items.len()
        invariant
            i <= items@.len(),
            forall|value: usize|
                #[trigger] index_set_contents(set).contains(value) <==> items@.take(i as int).contains(value),
        decreases items@.len() - i,
    {
        let ghost before = index_set_contents(set);
        let ghost shorter = items@.take(i as int);
        let ghost longer = items@.take(i as int + 1);
        index_set_insert(&mut set, items[i]);
        proof {
            assert forall|value: usize| #[trigger] index_set_contents(set).contains(value) <==> longer.contains(
                value,
            ) by {
                assert(before.contains(value) <==> shorter.contains(value));
                if longer.contains(value) {
                    let k = choose|k: int| 0 <= k < longer.len() && longer[k] == value;
                    if k < i {
                        assert(shorter[k] == value);
                    }
                }
                if shorter.contains(value) {
                    let k = choose|k: int| 0 <= k < shorter.len() && shorter[k] == value;
                    assert(longer[k] == value);
                }
                if value == items@[i as int] {
                    assert(longer[i as int] == value);
                }
            }
        }
        i = i + 1;
    }
    assert(items@.take(i as int) =~= items@);
    set
}

} // verus!
