use vstd::prelude::*;

use crate::distance::shortest_path_length;
use crate::graph::{Graph, GraphModel};
use crate::reach::{is_distance, lemma_distance_unique, reachable, reachable_within};

verus! {

/// The shortest-path distance from `a` to `b`; meaningful only when `b` is
/// reachable from `a`.
pub open spec fn distance_of(g: GraphModel, a: u32, b: u32) -> nat {
    choose|d: nat| is_distance(g, a, b, d)
}

/// A witnessed hop count pins `distance_of` down.
pub proof fn lemma_distance_of_is(g: GraphModel, a: u32, b: u32, d: nat)
    requires
        is_distance(g, a, b, d),
    ensures
        reachable(g, a, b),
        distance_of(g, a, b) == d,
{
    assert(reachable_within(g, a, b, d));
    assert(exists|x: nat| is_distance(g, a, b, x));
    lemma_distance_unique(g, a, b, d, distance_of(g, a, b));
}

/// The sum of the distances from `v` to the first `k` registered nodes,
/// skipping `v` itself; `None` as soon as one of them is unreachable.
pub open spec fn sum_distances(g: GraphModel, v: u32, k: int) -> Option<int>
    decreases k,
{
    if k <= 0 {
        Some(0)
    } else {
        let u = g.nodes[k - 1];
        match sum_distances(g, v, k - 1) {
            Some(s) => if u == v {
                Some(s)
            } else if reachable(g, v, u) {
                Some(s + distance_of(g, v, u))
            } else {
                None
            },
            None => None,
        }
    }
}

proof fn lemma_sum_distances_none(g: GraphModel, v: u32, k: int, k2: int)
    requires
        sum_distances(g, v, k) == Option::<int>::None,
        k <= k2,
    ensures
        sum_distances(g, v, k2) == Option::<int>::None,
    decreases k2 - k,
{
    if k < k2 {
        lemma_sum_distances_none(g, v, k + 1, k2);
    }
}

/// The closeness centrality of `v` as an exact ratio: the number of other
/// nodes over the sum of the distances to them. It is undefined (`None`)
/// when `v` is the only node — there is nothing to sum — and when some node
/// is unreachable from `v`: an unreachable pair has no finite distance, and
/// none is invented.
pub open spec fn closeness_of(g: GraphModel, v: u32) -> Option<(int, int)> {
    if g.nodes.len() <= 1 {
        None
    } else {
        match sum_distances(g, v, g.nodes.len() as int) {
            Some(s) => Some((g.nodes.len() - 1, s)),
            None => None,
        }
    }
}

/// Whether an executable score agrees with the specified ratio.
pub open spec fn score_matches(r: Option<(usize, u128)>, c: Option<(int, int)>) -> bool {
    match (r, c) {
        (Some(p), Some(q)) => p.0 == q.0 && p.1 == q.1,
        (None, None) => true,
        _ => false,
    }
}

/// The closeness centrality of every registered node, in insertion order,
/// as an exact ratio (numerator, denominator): node count minus one over
/// the summed shortest-path distances to all other nodes. `None` stands
/// for an undefined score, per the policy of `closeness_of`.
#[verifier::loop_isolation(false)]
pub fn closeness_centrality(graph: &Graph) -> (r: Vec<Option<(usize, u128)>>)
    requires
        graph.wf(),
    ensures
        r@.len() == graph@.nodes.len(),
        forall|i: int|
            0 <= i < r@.len() ==> score_matches(#[trigger] r@[i], closeness_of(
                graph@,
                graph@.nodes[i],
            )),
{
    let ghost g = graph@;
    let n = graph.num_nodes();
    let ghost nn = n as int;
    let mut result: Vec<Option<(usize, u128)>> = Vec::new();
    for i in 0..n
        invariant
            result@.len() == i,
            forall|t: int|
                0 <= t < i ==> score_matches(#[trigger] result@[t], closeness_of(g, g.nodes[t])),
    {
        let v = graph.node_at(i);
        proof {
            assert(g.nodes.contains(v));
        }
        if n == 1 {
            result.push(None);
        } else {
            let mut sum: u128 = 0;
            let mut ok: bool = true;
            for k in 0..n
                invariant
                    ok ==> sum_distances(g, v, k as int) == Some(sum as int),
                    ok ==> sum as int <= k as int * nn,
                    !ok ==> sum_distances(g, v, nn) == Option::<int>::None,
            {
                let u = graph.node_at(k);
                proof {
                    assert(g.nodes.contains(u));
                }
                proof {
                    assert(k as int * nn <= (k as int + 1) * nn) by (nonlinear_arith)
                        requires
                            0 <= k as int,
                            0 <= nn,
                    {}
                }
                if u != v && ok {
                    match shortest_path_length(v, u, graph) {
                        Some(dd) => {
                            proof {
                                lemma_distance_of_is(g, v, u, dd as nat);
                                assert(nn <= u64::MAX) by {
                                    assert(n <= usize::MAX);
                                }
                                assert(sum as int + dd as int <= u128::MAX) by (nonlinear_arith)
                                    requires
                                        sum as int <= k as int * nn,
                                        0 <= k as int <= nn - 1,
                                        0 <= dd as int <= nn,
                                        0 <= nn <= u64::MAX,
                                {}
                                assert((sum as int + dd as int) <= (k as int + 1) * nn)
                                    by (nonlinear_arith)
                                    requires
                                        sum as int <= k as int * nn,
                                        0 <= k as int,
                                        0 <= dd as int <= nn,
                                {}
                            }
                            sum = sum + (dd as u128);
                        },
                        None => {
                            proof {
                                lemma_sum_distances_none(g, v, k as int + 1, nn);
                            }
                            ok = false;
                        },
                    }
                }
            }
            if ok {
                result.push(Some((n - 1, sum)));
            } else {
                result.push(None);
            }
        }
        proof {
            assert forall|t: int|
                0 <= t < i + 1 implies score_matches(#[trigger] result@[t], closeness_of(
                g,
                g.nodes[t],
            )) by {
                if t < i as int {
                    assert(result@[t] == result@.drop_last()[t]);
                } else {
                    assert(result@[t] == result@.last());
                }
            }
        }
    }
    result
}

} // verus!
