use vstd::prelude::*;

use crate::graph::GraphModel;

verus! {

/// The visited flag of node `v`, read through the parallel boolean array
/// `vis` that tracks `g.nodes` position by position.
pub open spec fn marked(g: GraphModel, vis: Seq<bool>, v: u32) -> bool {
    exists|j: int| 0 <= j < g.nodes.len() && g.nodes[j] == v && vis[j]
}

/// The set of visited nodes.
pub open spec fn marked_set(g: GraphModel, vis: Seq<bool>) -> Set<u32> {
    Set::new(|v: u32| marked(g, vis, v))
}

/// How many flags of a boolean array are set.
pub open spec fn count_true(s: Seq<bool>) -> int
    decreases s.len(),
{
    if s.len() == 0 {
        0
    } else {
        count_true(s.drop_last()) + if s.last() {
            1int
        } else {
            0int
        }
    }
}

/// An all-clear array has no set flag.
pub proof fn lemma_count_true_zero(s: Seq<bool>)
    requires
        forall|j: int| 0 <= j < s.len() ==> !s[j],
    ensures
        count_true(s) == 0,
    decreases s.len(),
{
    if s.len() > 0 {
        lemma_count_true_zero(s.drop_last());
    }
}

/// The count of set flags never exceeds the array length.
pub proof fn lemma_count_true_le(s: Seq<bool>)
    ensures
        0 <= count_true(s) <= s.len(),
    decreases s.len(),
{
    if s.len() > 0 {
        lemma_count_true_le(s.drop_last());
    }
}

/// Setting a clear flag raises the count by one.
pub proof fn lemma_count_true_set(s: Seq<bool>, i: int)
    requires
        0 <= i < s.len(),
        !s[i],
    ensures
        count_true(s.update(i, true)) == count_true(s) + 1,
    decreases s.len(),
{
    let t = s.update(i, true);
    if i == s.len() - 1 {
        assert(t.drop_last() =~= s.drop_last());
        assert(t.last() && !s.last());
    } else {
        assert(t.drop_last() =~= s.drop_last().update(i, true));
        assert(t.last() == s.last());
        lemma_count_true_set(s.drop_last(), i);
    }
}

} // verus!
