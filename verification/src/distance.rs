use vstd::prelude::*;

use crate::graph::{adjacent, neighbors_of, Graph};
use crate::reach::{
    is_distance, lemma_adjacent_in_nodes, lemma_neighbors_adjacent, lemma_within_extend,
    lemma_within_fixpoint, lemma_within_in_nodes, lemma_within_mono, lemma_within_succ, reachable,
    reachable_within,
};
use crate::visit::{
    count_true, lemma_count_true_le, lemma_count_true_set, lemma_count_true_zero, marked,
};

verus! {

/// Shortest-path distance between two registered nodes by breadth-first
/// traversal, layer by layer. Returns the exact hop count (the minimum
/// number of edges on any connecting path), and `None` when the
/// destination is unreachable, rather than any finite stand-in.
#[verifier::loop_isolation(false)]
pub fn shortest_path_length(src: u32, dest: u32, graph: &Graph) -> (r: Option<usize>)
    requires
        graph.wf(),
        graph@.nodes.contains(src),
        graph@.nodes.contains(dest),
    ensures
        match r {
            Some(d) => is_distance(graph@, src, dest, d as nat) && d <= graph@.nodes.len(),
            None => !reachable(graph@, src, dest),
        },
        src == dest ==> r == Some(0usize),
{
    let ghost g = graph@;
    if src == dest {
        proof {
            assert(reachable_within(g, src, dest, 0));
        }
        return Some(0);
    }
    let n = graph.num_nodes();
    let ghost nn = n as int;
    let mut vis: Vec<bool> = Vec::new();
    for i in 0..n
        invariant
            vis@.len() == i,
            forall|j: int| 0 <= j < i ==> !vis@[j],
    {
        vis.push(false);
    }
    proof {
        lemma_count_true_zero(vis@);
    }
    let src_i = graph.node_position(src);
    proof {
        lemma_count_true_set(vis@, src_i as int);
    }
    vis.set(src_i, true);
    let mut frontier: Vec<u32> = Vec::new();
    frontier.push(src);
    let mut num_visited: usize = 1;
    let mut d: usize = 0;
    proof {
        assert forall|j: int|
            0 <= j < nn implies (#[trigger] vis@[j] <==> reachable_within(
            g,
            src,
            g.nodes[j],
            0,
        )) by {
            if vis@[j] {
                assert(j == src_i as int);
                assert(reachable_within(g, src, src, 0));
            }
            if reachable_within(g, src, g.nodes[j], 0) {
                assert(g.nodes[j] == src);
                assert(j == src_i as int);
            }
        }
        assert(frontier@[0] == src && reachable_within(g, src, src, 0));
        assert forall|j: int|
            0 <= j < nn && #[trigger] vis@[j] implies frontier@.contains(g.nodes[j]) by {
            assert(j == src_i as int);
            assert(frontier@[0] == g.nodes[j]);
        }
    }
    loop
        invariant
            vis@.len() == nn,
            num_visited == count_true(vis@),
            num_visited <= nn,
            frontier@.len() > 0,
            d + 1 <= num_visited,
            forall|j: int|
                0 <= j < nn ==> (#[trigger] vis@[j] <==> reachable_within(
                    g,
                    src,
                    g.nodes[j],
                    d as nat,
                )),
            forall|t: int|
                0 <= t < frontier@.len() ==> g.nodes.contains(#[trigger] frontier@[t])
                    && reachable_within(g, src, frontier@[t], d as nat),
            forall|j: int|
                0 <= j < nn && #[trigger] vis@[j] && (d == 0 || !reachable_within(
                    g,
                    src,
                    g.nodes[j],
                    (d - 1) as nat,
                )) ==> frontier@.contains(g.nodes[j]),
            !reachable_within(g, src, dest, d as nat),
        decreases nn - num_visited,
    {
        let mut next: Vec<u32> = Vec::new();
        let ghost start_num = num_visited as int;
        let ghost vis_start = vis@;
        proof {
            assert forall|j: int|
                0 <= j < nn && #[trigger] vis@[j] implies reachable_within(
                g,
                src,
                g.nodes[j],
                (d + 1) as nat,
            ) by {
                lemma_within_succ(g, src, g.nodes[j], d as nat);
            }
        }
        let flen = frontier.len();
        for t in 0..flen
            invariant
                flen == frontier@.len(),
                vis@.len() == nn,
                num_visited == count_true(vis@),
                num_visited <= nn,
                num_visited == start_num + next@.len(),
                forall|j: int| 0 <= j < nn && vis_start[j] ==> vis@[j],
                forall|j: int|
                    0 <= j < nn && #[trigger] vis@[j] ==> reachable_within(
                        g,
                        src,
                        g.nodes[j],
                        (d + 1) as nat,
                    ),
                forall|j: int|
                    0 <= j < nn && #[trigger] vis@[j] && !vis_start[j] ==> next@.contains(
                        g.nodes[j],
                    ),
                forall|s: int|
                    0 <= s < next@.len() ==> g.nodes.contains(#[trigger] next@[s])
                        && !reachable_within(g, src, next@[s], d as nat) && reachable_within(
                        g,
                        src,
                        next@[s],
                        (d + 1) as nat,
                    ),
                forall|s: int, u: u32|
                    0 <= s < t && #[trigger] adjacent(g, frontier@[s], u) ==> marked(g, vis@, u),
                !marked(g, vis@, dest),
        {
            let node = frontier[t];
            proof {
                assert(g.nodes.contains(node) && reachable_within(g, src, node, d as nat));
            }
            let neighs = graph.neighbors(node);
            let m = neighs.len();
            for q in 0..m
                invariant
                    m == neighs@.len(),
                    neighs@ == neighbors_of(g.edges, node),
                    node == frontier@[t as int],
                    vis@.len() == nn,
                    num_visited == count_true(vis@),
                    num_visited <= nn,
                    num_visited == start_num + next@.len(),
                    forall|j: int| 0 <= j < nn && vis_start[j] ==> vis@[j],
                    forall|j: int|
                        0 <= j < nn && #[trigger] vis@[j] ==> reachable_within(
                            g,
                            src,
                            g.nodes[j],
                            (d + 1) as nat,
                        ),
                    forall|j: int|
                        0 <= j < nn && #[trigger] vis@[j] && !vis_start[j] ==> next@.contains(
                            g.nodes[j],
                        ),
                    forall|s: int|
                        0 <= s < next@.len() ==> g.nodes.contains(#[trigger] next@[s])
                            && !reachable_within(g, src, next@[s], d as nat) && reachable_within(
                            g,
                            src,
                            next@[s],
                            (d + 1) as nat,
                        ),
                    forall|s: int, u: u32|
                        0 <= s < t && #[trigger] adjacent(g, frontier@[s], u) ==> marked(
                            g,
                            vis@,
                            u,
                        ),
                    forall|q2: int| 0 <= q2 < q ==> marked(g, vis@, #[trigger] neighs@[q2]),
                    !marked(g, vis@, dest),
            {
                let nb = neighs[q];
                proof {
                    assert(neighs@.contains(nb));
                    lemma_neighbors_adjacent(g, node, nb);
                    lemma_adjacent_in_nodes(g, node, nb);
                }
                if nb == dest {
                    proof {
                        lemma_within_extend(g, src, node, dest, d as nat);
                    }
                    return Some(d + 1);
                }
                let nb_i = graph.node_position(nb);
                if !vis[nb_i] {
                    proof {
                        lemma_count_true_set(vis@, nb_i as int);
                    }
                    let ghost vis_before = vis@;
                    let ghost next_before = next@;
                    vis.set(nb_i, true);
                    proof {
                        lemma_count_true_le(vis@);
                    }
                    num_visited = num_visited + 1;
                    next.push(nb);
                    proof {
                        lemma_count_true_le(vis@);
                        lemma_within_extend(g, src, node, nb, d as nat);
                        assert(next@ == next_before.push(nb));
                        assert(marked(g, vis@, nb)) by {
                            assert(g.nodes[nb_i as int] == nb && vis@[nb_i as int]);
                        }
                        assert(!vis_start[nb_i as int]);
                        assert(!reachable_within(g, src, nb, d as nat)) by {
                            assert(g.nodes[nb_i as int] == nb);
                        }
                        assert forall|x: u32| marked(g, vis_before, x) implies marked(
                            g,
                            vis@,
                            x,
                        ) by {
                            let j = choose|j: int| 0 <= j < nn && g.nodes[j] == x && vis_before[j];
                            assert(vis@[j]);
                        }
                        assert forall|j: int|
                            0 <= j < nn && #[trigger] vis@[j] && !vis_start[j] implies next@.contains(
                            g.nodes[j],
                        ) by {
                            if j == nb_i as int {
                                assert(next@.last() == nb);
                            } else {
                                assert(vis_before[j]);
                                assert(next_before.contains(g.nodes[j]));
                                let s = choose|s: int|
                                    0 <= s < next_before.len() && next_before[s] == g.nodes[j];
                                assert(next@[s] == g.nodes[j]);
                            }
                        }
                        assert(!marked(g, vis@, dest)) by {
                            if marked(g, vis@, dest) {
                                let j = choose|j: int|
                                    0 <= j < nn && g.nodes[j] == dest && vis@[j];
                                assert(j != nb_i as int);
                                assert(vis_before[j]);
                                assert(marked(g, vis_before, dest));
                            }
                        }
                    }
                } else {
                    proof {
                        assert(marked(g, vis@, nb)) by {
                            assert(g.nodes[nb_i as int] == nb && vis@[nb_i as int]);
                        }
                    }
                }
            }
            proof {
                assert forall|s: int, u: u32|
                    0 <= s < t + 1 && #[trigger] adjacent(g, frontier@[s], u) implies marked(
                    g,
                    vis@,
                    u,
                ) by {
                    if s == t as int {
                        lemma_neighbors_adjacent(g, node, u);
                        let q2 = choose|q2: int| 0 <= q2 < neighs@.len() && neighs@[q2] == u;
                        assert(marked(g, vis@, neighs@[q2]));
                    }
                }
            }
        }

        proof {
            // after the layer: the visited set is exactly the radius-(d + 1) ball
            assert forall|j: int|
                0 <= j < nn implies (#[trigger] vis@[j] <==> reachable_within(
                g,
                src,
                g.nodes[j],
                (d + 1) as nat,
            )) by {
                if reachable_within(g, src, g.nodes[j], (d + 1) as nat) && !vis@[j] {
                    let u = g.nodes[j];
                    assert(!vis_start[j]);
                    assert(!reachable_within(g, src, u, d as nat));
                    assert(u != src) by {
                        if u == src {
                            assert(reachable_within(g, src, u, 0));
                            lemma_within_mono(g, src, u, 0, d as nat);
                        }
                    }
                    let mid = choose|mid: u32|
                        #[trigger] adjacent(g, mid, u) && reachable_within(
                            g,
                            src,
                            mid,
                            d as nat,
                        );
                    lemma_within_in_nodes(g, src, mid, d as nat);
                    let mj = choose|mj: int| 0 <= mj < nn && g.nodes[mj] == mid;
                    assert(vis_start[mj]);
                    if d > 0 && reachable_within(g, src, mid, (d - 1) as nat) {
                        lemma_within_extend(g, src, mid, u, (d - 1) as nat);
                        assert(false);
                    } else {
                        assert(frontier@.contains(g.nodes[mj]));
                        let s = choose|s: int|
                            0 <= s < frontier@.len() && frontier@[s] == mid;
                        assert(adjacent(g, frontier@[s], u));
                        assert(marked(g, vis@, u));
                        let jj = choose|jj: int| 0 <= jj < nn && g.nodes[jj] == u && vis@[jj];
                        assert(jj == j);
                    }
                }
            }
        }

        if next.len() == 0 {
            proof {
                assert forall|u: u32|
                    reachable_within(g, src, u, (d + 1) as nat) implies reachable_within(
                    g,
                    src,
                    u,
                    d as nat,
                ) by {
                    if u == src {
                        assert(reachable_within(g, src, u, 0));
                        lemma_within_mono(g, src, u, 0, d as nat);
                    } else {
                        lemma_within_in_nodes(g, src, u, (d + 1) as nat);
                        let j = choose|j: int| 0 <= j < nn && g.nodes[j] == u;
                        assert(vis@[j]);
                        assert(vis_start[j]) by {
                            if !vis_start[j] {
                                assert(next@.contains(g.nodes[j]));
                            }
                        }
                    }
                }
                if reachable(g, src, dest) {
                    let k = choose|k: nat| reachable_within(g, src, dest, k);
                    lemma_within_fixpoint(g, src, d as nat, dest, k);
                    assert(false);
                }
            }
            return None;
        }
        proof {
            assert(!reachable_within(g, src, dest, (d + 1) as nat)) by {
                if reachable_within(g, src, dest, (d + 1) as nat) {
                    let j = choose|j: int| 0 <= j < nn && g.nodes[j] == dest;
                    assert(vis@[j]);
                    assert(marked(g, vis@, dest));
                }
            }
        }
        frontier = next;
        d = d + 1;
    }
}

} // verus!
