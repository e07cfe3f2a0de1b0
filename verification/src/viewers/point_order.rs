use vstd::prelude::*;

verus! {

/// Pairs of positions follow the laws of a total order, so a `BTreeSet` of them behaves as a
/// set.
pub open spec fn points_ordered() -> bool {
    vstd::laws_cmp::obeys_cmp::<(usize, usize)>()
}

/// std orders pairs of `usize` lexicographically, which is a total order.
pub proof fn lemma_points_ordered()
    ensures
        points_ordered(),
{
    broadcast use vstd::laws_cmp::group_laws_cmp;
}

} // verus!
