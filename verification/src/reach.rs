use vstd::prelude::*;

use crate::graph::{adjacent, edge_joins, model_wf, neighbors_of, GraphModel};

verus! {

/// There is a walk of at most `k` edges from `a` to `b`.
pub open spec fn reachable_within(g: GraphModel, a: u32, b: u32, k: nat) -> bool
    decreases k,
{
    a == b || (k > 0 && exists|m: u32|
        #[trigger] adjacent(g, m, b) && reachable_within(g, a, m, (k - 1) as nat))
}

/// There is a walk of some length from `a` to `b`.
pub open spec fn reachable(g: GraphModel, a: u32, b: u32) -> bool {
    exists|k: nat| reachable_within(g, a, b, k)
}

/// `d` is the graph-theoretic shortest-path distance (hop count) from `a`
/// to `b`: a walk of `d` edges exists and none shorter does.
pub open spec fn is_distance(g: GraphModel, a: u32, b: u32, d: nat) -> bool {
    reachable_within(g, a, b, d) && (d == 0 || !reachable_within(g, a, b, (d - 1) as nat))
}

/// A set of nodes closed under adjacency: no edge leaves it.
pub open spec fn closed_set(g: GraphModel, s: Set<u32>) -> bool {
    forall|a: u32, b: u32| s.contains(a) && #[trigger] adjacent(g, a, b) ==> s.contains(b)
}

/// Every pair of registered nodes is joined by a walk.
pub open spec fn fully_connected(g: GraphModel) -> bool {
    forall|a: u32, b: u32|
        g.nodes.contains(a) && g.nodes.contains(b) ==> #[trigger] reachable(g, a, b)
}

/// Adjacency is symmetric: edges are undirected.
pub proof fn lemma_adjacent_sym(g: GraphModel, a: u32, b: u32)
    requires
        adjacent(g, a, b),
    ensures
        adjacent(g, b, a),
{
    let i = choose|i: int| 0 <= i < g.edges.len() && edge_joins(#[trigger] g.edges[i], a, b);
    assert(edge_joins(g.edges[i], b, a));
}

/// In a well-formed graph, both endpoints of an adjacency are registered.
pub proof fn lemma_adjacent_in_nodes(g: GraphModel, a: u32, b: u32)
    requires
        model_wf(g),
        adjacent(g, a, b),
    ensures
        g.nodes.contains(a),
        g.nodes.contains(b),
{
    let i = choose|i: int| 0 <= i < g.edges.len() && edge_joins(#[trigger] g.edges[i], a, b);
    assert(g.nodes.contains(g.edges[i].0) && g.nodes.contains(g.edges[i].1));
}

/// A walk bound can always be relaxed by one.
pub proof fn lemma_within_succ(g: GraphModel, a: u32, b: u32, k: nat)
    requires
        reachable_within(g, a, b, k),
    ensures
        reachable_within(g, a, b, k + 1),
    decreases k,
{
    if a != b {
        let m = choose|m: u32|
            #[trigger] adjacent(g, m, b) && reachable_within(g, a, m, (k - 1) as nat);
        lemma_within_succ(g, a, m, (k - 1) as nat);
        assert(adjacent(g, m, b) && reachable_within(g, a, m, k));
    }
}

/// A walk bound can be relaxed to any larger bound.
pub proof fn lemma_within_mono(g: GraphModel, a: u32, b: u32, k1: nat, k2: nat)
    requires
        reachable_within(g, a, b, k1),
        k1 <= k2,
    ensures
        reachable_within(g, a, b, k2),
    decreases k2 - k1,
{
    if k1 < k2 {
        lemma_within_succ(g, a, b, k1);
        lemma_within_mono(g, a, b, k1 + 1, k2);
    }
}

/// A walk extends by one adjacency at its far end.
pub proof fn lemma_within_extend(g: GraphModel, a: u32, b: u32, c: u32, k: nat)
    requires
        reachable_within(g, a, b, k),
        adjacent(g, b, c),
    ensures
        reachable_within(g, a, c, k + 1),
{
    assert(adjacent(g, b, c) && reachable_within(g, a, b, k));
}

/// A walk extends by one adjacency at its near end.
pub proof fn lemma_within_prepend(g: GraphModel, a: u32, m: u32, b: u32, k: nat)
    requires
        adjacent(g, a, m),
        reachable_within(g, m, b, k),
    ensures
        reachable_within(g, a, b, k + 1),
    decreases k,
{
    if m == b {
        assert(adjacent(g, a, b) && reachable_within(g, a, a, k));
    } else {
        let m2 = choose|m2: u32|
            #[trigger] adjacent(g, m2, b) && reachable_within(g, m, m2, (k - 1) as nat);
        lemma_within_prepend(g, a, m, m2, (k - 1) as nat);
        assert(adjacent(g, m2, b) && reachable_within(g, a, m2, k));
    }
}

/// Walks reverse: the edges are undirected.
pub proof fn lemma_within_reverse(g: GraphModel, a: u32, b: u32, k: nat)
    requires
        reachable_within(g, a, b, k),
    ensures
        reachable_within(g, b, a, k),
    decreases k,
{
    if a != b {
        let m = choose|m: u32|
            #[trigger] adjacent(g, m, b) && reachable_within(g, a, m, (k - 1) as nat);
        lemma_within_reverse(g, a, m, (k - 1) as nat);
        lemma_adjacent_sym(g, m, b);
        lemma_within_prepend(g, b, m, a, (k - 1) as nat);
    }
}

/// Walks concatenate.
pub proof fn lemma_within_trans(g: GraphModel, a: u32, b: u32, c: u32, k1: nat, k2: nat)
    requires
        reachable_within(g, a, b, k1),
        reachable_within(g, b, c, k2),
    ensures
        reachable_within(g, a, c, k1 + k2),
    decreases k2,
{
    if b == c {
        lemma_within_mono(g, a, b, k1, k1 + k2);
    } else {
        let m = choose|m: u32|
            #[trigger] adjacent(g, m, c) && reachable_within(g, b, m, (k2 - 1) as nat);
        lemma_within_trans(g, a, b, m, k1, (k2 - 1) as nat);
        lemma_within_extend(g, a, m, c, (k1 + k2 - 1) as nat);
    }
}

/// A closed set that contains the start of a walk contains its end.
pub proof fn lemma_closed_set_reaches(g: GraphModel, s: Set<u32>, a: u32, b: u32, k: nat)
    requires
        closed_set(g, s),
        s.contains(a),
        reachable_within(g, a, b, k),
    ensures
        s.contains(b),
    decreases k,
{
    if a != b {
        let m = choose|m: u32|
            #[trigger] adjacent(g, m, b) && reachable_within(g, a, m, (k - 1) as nat);
        lemma_closed_set_reaches(g, s, a, m, (k - 1) as nat);
    }
}

/// In a well-formed graph, anything reachable from a registered node is
/// registered.
pub proof fn lemma_within_in_nodes(g: GraphModel, a: u32, b: u32, k: nat)
    requires
        model_wf(g),
        g.nodes.contains(a),
        reachable_within(g, a, b, k),
    ensures
        g.nodes.contains(b),
    decreases k,
{
    if a != b {
        let m = choose|m: u32|
            #[trigger] adjacent(g, m, b) && reachable_within(g, a, m, (k - 1) as nat);
        lemma_adjacent_in_nodes(g, m, b);
    }
}

/// The shortest-path distance is unique.
pub proof fn lemma_distance_unique(g: GraphModel, a: u32, b: u32, d1: nat, d2: nat)
    requires
        is_distance(g, a, b, d1),
        is_distance(g, a, b, d2),
    ensures
        d1 == d2,
{
    if d1 < d2 {
        lemma_within_mono(g, a, b, d1, (d2 - 1) as nat);
    } else if d2 < d1 {
        lemma_within_mono(g, a, b, d2, (d1 - 1) as nat);
    }
}

/// If no walk of `d + 1` edges leaves the ball of radius `d` around `a`,
/// every walk from `a` stays inside it.
pub proof fn lemma_within_fixpoint(g: GraphModel, a: u32, d: nat, b: u32, k: nat)
    requires
        forall|u: u32| reachable_within(g, a, u, d + 1) ==> #[trigger] reachable_within(g, a, u, d),
        reachable_within(g, a, b, k),
    ensures
        reachable_within(g, a, b, d),
    decreases k,
{
    if a == b {
        lemma_within_mono(g, a, b, 0, d);
    } else {
        let m = choose|m: u32|
            #[trigger] adjacent(g, m, b) && reachable_within(g, a, m, (k - 1) as nat);
        lemma_within_fixpoint(g, a, d, m, (k - 1) as nat);
        lemma_within_extend(g, a, m, b, d);
    }
}

/// Membership of `m` in the neighbor list of `n` coincides with adjacency.
pub proof fn lemma_neighbors_adjacent(g: GraphModel, n: u32, m: u32)
    ensures
        neighbors_of(g.edges, n).contains(m) <==> adjacent(g, n, m),
{
    lemma_neighbors_edges(g.edges, n, m);
}

proof fn lemma_neighbors_edges(edges: Seq<(u32, u32)>, n: u32, m: u32)
    ensures
        neighbors_of(edges, n).contains(m) <==> exists|i: int|
            0 <= i < edges.len() && edge_joins(#[trigger] edges[i], n, m),
    decreases edges.len(),
{
    if edges.len() == 0 {
    } else {
        let prefix = edges.drop_last();
        lemma_neighbors_edges(prefix, n, m);
        let e = edges.last();
        let rest = neighbors_of(prefix, n);
        let full = neighbors_of(edges, n);
        if neighbors_of(edges, n).contains(m) {
            let j = choose|j: int| 0 <= j < full.len() && full[j] == m;
            if j < rest.len() {
                assert(rest[j] == m);
                assert(rest.contains(m));
                let i = choose|i: int| 0 <= i < prefix.len() && edge_joins(#[trigger] prefix[i], n, m);
                assert(edge_joins(edges[i], n, m));
            } else {
                assert(edge_joins(edges[edges.len() - 1], n, m));
            }
        }
        if exists|i: int| 0 <= i < edges.len() && edge_joins(#[trigger] edges[i], n, m) {
            let i = choose|i: int| 0 <= i < edges.len() && edge_joins(#[trigger] edges[i], n, m);
            if i < prefix.len() {
                assert(edge_joins(prefix[i], n, m));
                let j = choose|j: int| 0 <= j < rest.len() && rest[j] == m;
                assert(full[j] == m);
                assert(full.contains(m));
            } else {
                assert(full.last() == m);
                assert(full.contains(m));
            }
        }
    }
}

} // verus!
