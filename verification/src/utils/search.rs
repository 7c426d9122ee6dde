//! Finding the first member of a sequence that has some property.

use vstd::prelude::*;

verus! {

/// The first position at which `flags` is true, if there is one.
pub open spec fn first_true(flags: Seq<bool>) -> Option<int> {
    flags.index_of_first(true)
}

/// What [`first_true`] returns: a position that is true with none before it, or `None`
/// where every position is false.
pub proof fn lemma_first_true(flags: Seq<bool>)
    ensures
        match first_true(flags) {
            Some(i) => 0 <= i < flags.len() && flags[i] && forall|j: int|
                0 <= j < i ==> !flags[j],
            None => forall|j: int| 0 <= j < flags.len() ==> !flags[j],
        },
{
    flags.index_of_first_ensures(true);
    if first_true(flags).is_none() {
        assert forall|j: int| 0 <= j < flags.len() implies !flags[j] by {
            if flags[j] {
                assert(flags.contains(true));
            }
        }
    }
}

/// A position that is true with none before it is the first.
pub proof fn lemma_first_true_is(flags: Seq<bool>, i: int)
    requires
        0 <= i < flags.len(),
        flags[i],
        forall|j: int| 0 <= j < i ==> !flags[j],
    ensures
        first_true(flags) == Some(i),
{
    lemma_first_true(flags);
}

/// Where every position is false there is no first.
pub proof fn lemma_first_true_none(flags: Seq<bool>)
    requires
        forall|j: int| 0 <= j < flags.len() ==> !flags[j],
    ensures
        first_true(flags).is_none(),
{
    lemma_first_true(flags);
}

} // verus!
