//! Which node a tower link at a given level has to point to, as a function of
//! the heights of the nodes along the bottom chain.

use vstd::prelude::*;

verus! {

/// The index of the first node after `j` that takes part in level `level`:
/// the first whose height is above `level`, or the last node of the chain.
pub open spec fn next_at(hs: Seq<int>, j: int, level: int) -> int
    decreases hs.len() - j,
{
    if j + 1 >= hs.len() - 1 {
        hs.len() - 1
    } else if hs[j + 1] > level {
        j + 1
    } else {
        next_at(hs, j + 1, level)
    }
}

/// Whether `k` is the first index after `j` that takes part in level
/// `level`.
pub open spec fn is_next(hs: Seq<int>, j: int, level: int, k: int) -> bool {
    &&& j < k <= hs.len() - 1
    &&& (k < hs.len() - 1 ==> hs[k] > level)
    &&& forall|m: int| j < m < k ==> #[trigger] hs[m] <= level
}

/// What `next_at` gives is the first index behind `j` that takes part in
/// the level.
pub proof fn lemma_next_at_is_next(hs: Seq<int>, j: int, level: int)
    requires
        0 <= j < hs.len() - 1,
    ensures
        is_next(hs, j, level, next_at(hs, j, level)),
    decreases hs.len() - j,
{
    if j + 1 >= hs.len() - 1 {
    } else if hs[j + 1] > level {
    } else {
        lemma_next_at_is_next(hs, j + 1, level);
        let k = next_at(hs, j + 1, level);
        assert forall|m: int| j < m < k implies #[trigger] hs[m] <= level by {
            if m == j + 1 {
            } else {
            }
        }
    }
}

/// There is only one first index behind `j` that takes part in a level.
pub proof fn lemma_is_next_unique(hs: Seq<int>, j: int, level: int, k: int)
    requires
        0 <= j < hs.len() - 1,
        is_next(hs, j, level, k),
    ensures
        k == next_at(hs, j, level),
{
    lemma_next_at_is_next(hs, j, level);
    let k0 = next_at(hs, j, level);
    if k < k0 {
        assert(hs[k] <= level);
    } else if k0 < k {
        assert(hs[k0] <= level);
    }
}

/// Where an index of the chain stands after a node was inserted at `p`.
pub open spec fn shifted(j: int, p: int) -> int {
    if j < p {
        j
    } else {
        j + 1
    }
}

/// A node that takes part in no level changes no link target: inserting it
/// at `p` only shifts the indices behind it.
pub proof fn lemma_next_at_insert_zero(hs: Seq<int>, p: int, j: int, level: int)
    requires
        1 <= p <= hs.len() - 1,
        0 <= j < hs.len() - 1,
        0 <= level,
    ensures
        next_at(hs.insert(p, 0), shifted(j, p), level) == shifted(next_at(hs, j, level), p),
{
    let hs2 = hs.insert(p, 0);
    let k = next_at(hs, j, level);
    lemma_next_at_is_next(hs, j, level);
    let j2 = shifted(j, p);
    let k2 = shifted(k, p);
    assert forall|m: int| j2 < m < k2 implies #[trigger] hs2[m] <= level by {
        if m < p {
            assert(hs2[m] == hs[m]);
        } else if m == p {
        } else {
            assert(hs2[m] == hs[m - 1]);
        }
    }
    if k2 < hs2.len() - 1 {
        if k < p {
            assert(hs2[k2] == hs[k]);
        } else {
            assert(hs2[k2] == hs[k]);
        }
    }
    assert(is_next(hs2, j2, level, k2));
    lemma_is_next_unique(hs2, j2, level, k2);
}

/// Raising the node at `p` by one level leaves the link targets of all
/// other levels as they were.
pub proof fn lemma_next_at_raise_other_level(hs: Seq<int>, p: int, j: int, level: int)
    requires
        0 <= p < hs.len(),
        0 <= j < hs.len() - 1,
        level != hs[p],
    ensures
        next_at(hs.update(p, hs[p] + 1), j, level) == next_at(hs, j, level),
{
    let hs2 = hs.update(p, hs[p] + 1);
    let k = next_at(hs, j, level);
    lemma_next_at_is_next(hs, j, level);
    assert forall|m: int| j < m < k implies #[trigger] hs2[m] <= level by {
        assert(hs[m] <= level);
    }
    assert(is_next(hs2, j, level, k));
    lemma_is_next_unique(hs2, j, level, k);
}

/// Raising the node at `p` from level `e` to `e + 1`, between `pi` and
/// `ni` which were linked at level `e`: now `pi` links to `p` and `p` to
/// `ni`.
pub proof fn lemma_next_at_raise_splice(hs: Seq<int>, p: int, pi: int, ni: int)
    requires
        0 <= pi < p < ni <= hs.len() - 1,
        is_next(hs, pi, hs[p], ni),
    ensures
        next_at(hs.update(p, hs[p] + 1), pi, hs[p]) == p,
        next_at(hs.update(p, hs[p] + 1), p, hs[p]) == ni,
{
    let e = hs[p];
    let hs2 = hs.update(p, e + 1);
    assert forall|m: int| pi < m < p implies #[trigger] hs2[m] <= e by {
        assert(hs[m] <= e);
    }
    assert(is_next(hs2, pi, e, p));
    lemma_is_next_unique(hs2, pi, e, p);
    assert forall|m: int| p < m < ni implies #[trigger] hs2[m] <= e by {
        assert(hs[m] <= e);
    }
    assert(is_next(hs2, p, e, ni));
    lemma_is_next_unique(hs2, p, e, ni);
}

/// Raising the node at `p` from level `e` to `e + 1` leaves the level-`e`
/// link target of every node that takes part in level `e`, other than the
/// one linked across `p`.
pub proof fn lemma_next_at_raise_same_level(hs: Seq<int>, p: int, pi: int, ni: int, j: int)
    requires
        0 <= pi < p < ni <= hs.len() - 1,
        is_next(hs, pi, hs[p], ni),
        hs[pi] > hs[p],
        0 <= j < hs.len() - 1,
        j != pi,
        j != p,
        hs[j] > hs[p],
    ensures
        next_at(hs.update(p, hs[p] + 1), j, hs[p]) == next_at(hs, j, hs[p]),
{
    let e = hs[p];
    let hs2 = hs.update(p, e + 1);
    let k = next_at(hs, j, e);
    lemma_next_at_is_next(hs, j, e);
    if j < p && p < k {
        // p would lie strictly between j and its level-e successor
        if pi < j {
            assert(hs[j] <= e);
        } else {
            assert(hs[pi] <= e);
        }
        assert(false);
    }
    assert forall|m: int| j < m < k implies #[trigger] hs2[m] <= e by {
        assert(hs[m] <= e);
    }
    assert(is_next(hs2, j, e, k));
    lemma_is_next_unique(hs2, j, e, k);
}

} // verus!
