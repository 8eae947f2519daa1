//! The first of several answers that is a yes.

use vstd::prelude::*;

verus! {

/// The position of the first yes among the first `upto` answers.
pub open spec fn spec_first_at(hits: Seq<bool>, upto: int) -> Option<int>
    decreases upto,
{
    if upto <= 0 {
        None
    } else {
        match spec_first_at(hits, upto - 1) {
            Some(position) => Some(position),
            None => if hits[upto - 1] {
                Some(upto - 1)
            } else {
                None
            },
        }
    }
}

/// The position of the first yes among the first `upto` answers, as a
/// machine number.
pub open spec fn spec_first(hits: Seq<bool>, upto: int) -> Option<usize> {
    match spec_first_at(hits, upto) {
        Some(position) => Some(position as usize),
        None => None,
    }
}

/// The first yes is a yes with no yes before it; and there is none where
/// every answer is no.
pub proof fn lemma_first_at(hits: Seq<bool>, upto: int)
    requires
        0 <= upto <= hits.len(),
    ensures
        match spec_first_at(hits, upto) {
            Some(position) => 0 <= position < upto && hits[position] && forall|k: int|
                0 <= k < position ==> !hits[k],
            None => forall|k: int| 0 <= k < upto ==> !hits[k],
        },
    decreases upto,
{
    if upto > 0 {
        lemma_first_at(hits, upto - 1);
    }
}

/// The first yes is a yes with no yes before it; and there is none where
/// every answer is no.
pub proof fn lemma_first(hits: Seq<bool>, upto: int)
    requires
        0 <= upto <= hits.len(),
        upto <= usize::MAX,
    ensures
        match spec_first(hits, upto) {
            Some(position) => position < upto && hits[position as int] && forall|k: int|
                0 <= k < position ==> !hits[k],
            None => forall|k: int| 0 <= k < upto ==> !hits[k],
        },
{
    lemma_first_at(hits, upto);
}

} // verus!
