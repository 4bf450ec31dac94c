use vstd::prelude::*;
use vstd::seq_lib::lemma_no_dup_in_concat;

use crate::graph::{adjacent, neighbors_of, Graph};
use crate::reach::{
    closed_set, fully_connected, lemma_adjacent_in_nodes, lemma_adjacent_sym,
    lemma_closed_set_reaches, lemma_neighbors_adjacent, lemma_within_extend, lemma_within_reverse,
    lemma_within_trans, reachable, reachable_within,
};
use crate::visit::{count_true, lemma_count_true_le, lemma_count_true_set, marked, marked_set};

verus! {

/// All nodes listed by a sequence of components, in order.
pub open spec fn all_members(cs: Seq<Vec<u32>>) -> Seq<u32>
    decreases cs.len(),
{
    if cs.len() == 0 {
        Seq::empty()
    } else {
        all_members(cs.drop_last()) + cs.last()@
    }
}

proof fn lemma_all_members_push(cs: Seq<Vec<u32>>, c: Vec<u32>)
    ensures
        all_members(cs.push(c)) == all_members(cs) + c@,
{
    assert(cs.push(c).drop_last() =~= cs);
    assert(cs.push(c).last() == c);
}

proof fn lemma_concat_contains(a: Seq<u32>, b: Seq<u32>, v: u32)
    ensures
        (a + b).contains(v) <==> a.contains(v) || b.contains(v),
{
    if a.contains(v) {
        let i = choose|i: int| 0 <= i < a.len() && a[i] == v;
        assert((a + b)[i] == v);
    }
    if b.contains(v) {
        let i = choose|i: int| 0 <= i < b.len() && b[i] == v;
        assert((a + b)[a.len() + i] == v);
    }
    if (a + b).contains(v) {
        let i = choose|i: int| 0 <= i < (a + b).len() && (a + b)[i] == v;
        if i < a.len() {
            assert(a[i] == v);
        } else {
            assert(b[i - a.len()] == v);
        }
    }
}

proof fn lemma_all_members_contains(cs: Seq<Vec<u32>>, k: int, v: u32)
    requires
        0 <= k < cs.len(),
        cs[k]@.contains(v),
    ensures
        all_members(cs).contains(v),
    decreases cs.len(),
{
    if k == cs.len() - 1 {
        lemma_concat_contains(all_members(cs.drop_last()), cs.last()@, v);
    } else {
        lemma_all_members_contains(cs.drop_last(), k, v);
        lemma_concat_contains(all_members(cs.drop_last()), cs.last()@, v);
    }
}

proof fn lemma_index_of_unique(nodes: Seq<u32>, v: u32, j: int)
    requires
        nodes.no_duplicates(),
        0 <= j < nodes.len(),
        nodes[j] == v,
    ensures
        nodes.index_of(v) == j,
{
    assert(nodes.contains(v));
    let i = nodes.index_of(v);
    assert(0 <= i < nodes.len() && nodes[i] == v);
}

proof fn lemma_push_no_dup(s: Seq<u32>, v: u32)
    requires
        s.no_duplicates(),
        !s.contains(v),
    ensures
        s.push(v).no_duplicates(),
{
    let t = s.push(v);
    assert forall|i: int, j: int| 0 <= i < t.len() && 0 <= j < t.len() && i != j implies t[i]
        != t[j] by {
        if i < s.len() && j == s.len() {
            assert(s.contains(s[i]));
        } else if j < s.len() && i == s.len() {
            assert(s.contains(s[j]));
        }
    }
}

/// Visits everything reachable from `seed` with an explicit stack (no
/// recursion, so no call-depth limit), marking each node in `visited` at
/// its position in the graph's insertion order and collecting the newly
/// visited nodes into `component`.
///
/// `visited` must be closed under adjacency on entry, so the walk from
/// `seed` can never run into it; the nodes collected are then exactly the
/// ones reachable from `seed` and not yet visited, and the visited set is
/// closed again on exit.
#[verifier::loop_isolation(false)]
pub fn dfs(seed: u32, graph: &Graph, visited: Vec<bool>, component: Vec<u32>) -> (res: (
    Vec<bool>,
    Vec<u32>,
))
    requires
        graph.wf(),
        visited@.len() == graph@.nodes.len(),
        graph@.nodes.contains(seed),
        !marked(graph@, visited@, seed),
        closed_set(graph@, marked_set(graph@, visited@)),
        component@.len() == 0,
    ensures
        res.0@.len() == graph@.nodes.len(),
        forall|j: int|
            0 <= j < graph@.nodes.len() ==> (#[trigger] res.0@[j] <==> (visited@[j] || reachable(
                graph@,
                seed,
                graph@.nodes[j],
            ))),
        closed_set(graph@, marked_set(graph@, res.0@)),
        res.1@.len() > 0,
        res.1@[0] == seed,
        res.1@.no_duplicates(),
        forall|v: u32|
            #[trigger] res.1@.contains(v) <==> (graph@.nodes.contains(v) && !marked(
                graph@,
                visited@,
                v,
            ) && reachable(graph@, seed, v)),
{
    let ghost g = graph@;
    let ghost n = g.nodes.len() as int;
    let ghost vis0 = visited@;
    let mut vis = visited;
    let mut comp = component;
    let mut stack: Vec<u32> = Vec::new();

    let seed_i = graph.node_position(seed);
    vis.set(seed_i, true);
    comp.push(seed);
    stack.push(seed);
    proof {
        lemma_count_true_le(vis0);
        lemma_count_true_set(vis0, seed_i as int);
        lemma_count_true_le(vis@);
        assert(comp@.contains(seed)) by {
            assert(comp@[0] == seed);
        }
        assert(reachable_within(g, seed, seed, 0));
        assert(reachable(g, seed, seed));
        assert(marked(g, vis@, seed)) by {
            assert(g.nodes[seed_i as int] == seed && vis@[seed_i as int]);
        }
        assert forall|v: u32, u: u32|
            marked(g, vis@, v) && !stack@.contains(v) && #[trigger] adjacent(g, v, u) implies marked(
            g,
            vis@,
            u,
        ) by {
            assert(stack@[0] == seed);
            let j = choose|j: int| 0 <= j < n && g.nodes[j] == v && vis@[j];
            if j == seed_i as int {
                assert(stack@.contains(v));
            } else {
                assert(marked(g, vis0, v));
                assert(marked_set(g, vis0).contains(v));
                assert(marked_set(g, vis0).contains(u));
                let jj = choose|jj: int| 0 <= jj < n && g.nodes[jj] == u && vis0[jj];
                assert(vis@[jj]);
            }
        }
    }

    while stack.len() > 0
        invariant
            vis@.len() == n,
            0 <= count_true(vis@) <= n,
            marked(g, vis@, seed),
            comp@.len() > 0,
            comp@[0] == seed,
            forall|j: int| 0 <= j < n && vis0[j] ==> vis@[j],
            forall|j: int|
                0 <= j < n && vis@[j] && !vis0[j] ==> reachable(g, seed, #[trigger] g.nodes[j]),
            comp@.no_duplicates(),
            forall|j: int| 0 <= j < n && vis@[j] && !vis0[j] ==> comp@.contains(#[trigger] g.nodes[j]),
            forall|v: u32|
                #[trigger] comp@.contains(v) ==> g.nodes.contains(v) && !marked(g, vis0, v)
                    && marked(g, vis@, v),
            forall|s: int|
                0 <= s < stack@.len() ==> marked(g, vis@, #[trigger] stack@[s]) && reachable(
                    g,
                    seed,
                    stack@[s],
                ),
            forall|v: u32, u: u32|
                marked(g, vis@, v) && !stack@.contains(v) && #[trigger] adjacent(g, v, u)
                    ==> marked(g, vis@, u),
        decreases n - count_true(vis@), stack@.len(),
    {
        let ghost count_at_entry = count_true(vis@);
        let ghost stack_at_entry = stack@;
        let node_opt = stack.pop();
        let node = node_opt.unwrap();
        proof {
            assert(stack_at_entry[stack_at_entry.len() - 1] == node);
            assert(marked(g, vis@, node) && reachable(g, seed, node));
            assert(g.nodes.contains(node)) by {
                let j = choose|j: int| 0 <= j < n && g.nodes[j] == node && vis@[j];
            }
            assert forall|v: u32, u: u32|
                marked(g, vis@, v) && !stack@.contains(v) && v != node && #[trigger] adjacent(
                    g,
                    v,
                    u,
                ) implies marked(g, vis@, u) by {
                assert(!stack_at_entry.contains(v)) by {
                    if stack_at_entry.contains(v) {
                        let t = choose|t: int|
                            0 <= t < stack_at_entry.len() && stack_at_entry[t] == v;
                        if t < stack_at_entry.len() - 1 {
                            assert(stack@[t] == v);
                        }
                    }
                }
            }
        }
        let neighs = graph.neighbors(node);
        let m = neighs.len();
        for q in 0..m
            invariant
                m == neighs@.len(),
                neighs@ == neighbors_of(g.edges, node),
                g.nodes.contains(node),
                reachable(g, seed, node),
                vis@.len() == n,
                count_at_entry <= count_true(vis@) <= n,
                stack@.len() + count_at_entry <= stack_at_entry.len() - 1 + count_true(vis@),
                marked(g, vis@, seed),
                comp@.len() > 0,
                comp@[0] == seed,
                forall|j: int| 0 <= j < n && vis0[j] ==> vis@[j],
                forall|j: int|
                    0 <= j < n && vis@[j] && !vis0[j] ==> reachable(g, seed, #[trigger] g.nodes[j]),
                comp@.no_duplicates(),
                forall|j: int|
                    0 <= j < n && vis@[j] && !vis0[j] ==> comp@.contains(#[trigger] g.nodes[j]),
                forall|v: u32|
                    #[trigger] comp@.contains(v) ==> g.nodes.contains(v) && !marked(g, vis0, v)
                        && marked(g, vis@, v),
                forall|s: int|
                    0 <= s < stack@.len() ==> marked(g, vis@, #[trigger] stack@[s]) && reachable(
                        g,
                        seed,
                        stack@[s],
                    ),
                forall|v: u32, u: u32|
                    marked(g, vis@, v) && !stack@.contains(v) && v != node && #[trigger] adjacent(
                        g,
                        v,
                        u,
                    ) ==> marked(g, vis@, u),
                forall|q2: int| 0 <= q2 < q ==> marked(g, vis@, #[trigger] neighs@[q2]),
        {
            let nb = neighs[q];
            proof {
                assert(neighs@.contains(nb));
                lemma_neighbors_adjacent(g, node, nb);
                lemma_adjacent_in_nodes(g, node, nb);
            }
            let nb_i = graph.node_position(nb);
            if !vis[nb_i] {
                proof {
                    assert(!marked(g, vis@, nb)) by {
                        if marked(g, vis@, nb) {
                            let j = choose|j: int| 0 <= j < n && g.nodes[j] == nb && vis@[j];
                            assert(j == nb_i as int);
                        }
                    }
                    assert(!comp@.contains(nb));
                    lemma_count_true_set(vis@, nb_i as int);
                    lemma_push_no_dup(comp@, nb);
                }
                let ghost vis_before = vis@;
                let ghost comp_before = comp@;
                let ghost stack_before = stack@;
                vis.set(nb_i, true);
                comp.push(nb);
                stack.push(nb);
                proof {
                    lemma_count_true_le(vis@);
                    assert(comp@ == comp_before.push(nb));
                    assert(stack@ == stack_before.push(nb));
                    assert(comp@.last() == nb && stack@.last() == nb);
                    let k = choose|k: nat| reachable_within(g, seed, node, k);
                    lemma_within_extend(g, seed, node, nb, k);
                    assert(reachable(g, seed, nb));
                    assert(marked(g, vis@, nb)) by {
                        assert(g.nodes[nb_i as int] == nb && vis@[nb_i as int]);
                    }
                    assert forall|x: u32| marked(g, vis_before, x) implies marked(g, vis@, x) by {
                        let j = choose|j: int| 0 <= j < n && g.nodes[j] == x && vis_before[j];
                        assert(vis@[j]);
                    }
                    assert forall|x: u32| comp_before.contains(x) implies comp@.contains(x) by {
                        let t = choose|t: int| 0 <= t < comp_before.len() && comp_before[t] == x;
                        assert(comp@[t] == x);
                    }
                    assert forall|j: int|
                        0 <= j < n && vis@[j] && !vis0[j] implies comp@.contains(
                        #[trigger] g.nodes[j],
                    ) by {
                        if j == nb_i as int {
                            assert(comp@.contains(nb)) by {
                                assert(comp@.last() == nb);
                            }
                        } else {
                            assert(vis_before[j]);
                            assert(comp_before.contains(g.nodes[j]));
                        }
                    }
                    assert forall|v: u32| #[trigger] comp@.contains(v) implies g.nodes.contains(v)
                        && !marked(g, vis0, v) && marked(g, vis@, v) by {
                        if v != nb {
                            let t = choose|t: int| 0 <= t < comp@.len() && comp@[t] == v;
                            assert(t != comp@.len() - 1);
                            assert(comp_before[t] == v);
                            assert(comp_before.contains(v));
                        } else {
                            assert(!marked(g, vis0, nb)) by {
                                if marked(g, vis0, nb) {
                                    let j = choose|j: int|
                                        0 <= j < n && g.nodes[j] == nb && vis0[j];
                                    assert(j == nb_i as int);
                                    assert(vis_before[j]);
                                }
                            }
                        }
                    }
                    assert forall|s: int|
                        0 <= s < stack@.len() implies marked(g, vis@, #[trigger] stack@[s])
                        && reachable(g, seed, stack@[s]) by {
                        if s < stack@.len() - 1 {
                            assert(stack@[s] == stack_before[s]);
                            assert(marked(g, vis_before, stack_before[s]));
                        } else {
                            assert(stack@[s] == nb);
                        }
                    }
                    assert forall|v: u32, u: u32|
                        marked(g, vis@, v) && !stack@.contains(v) && v != node
                            && #[trigger] adjacent(g, v, u) implies marked(g, vis@, u) by {
                        if marked(g, vis_before, v) {
                            assert(!stack_before.contains(v)) by {
                                if stack_before.contains(v) {
                                    let t = choose|t: int|
                                        0 <= t < stack_before.len() && stack_before[t] == v;
                                    assert(stack@[t] == v);
                                }
                            }
                            assert(marked(g, vis_before, u));
                        } else {
                            let j = choose|j: int| 0 <= j < n && g.nodes[j] == v && vis@[j];
                            assert(j == nb_i as int);
                            assert(v == nb);
                            assert(stack@.contains(v)) by {
                                assert(stack@.last() == nb);
                            }
                        }
                    }
                }
            } else {
                proof {
                    assert(marked(g, vis@, nb)) by {
                        assert(g.nodes[nb_i as int] == nb && vis@[nb_i as int]);
                    }
                }
            }
        }
        proof {
            assert forall|v: u32, u: u32|
                marked(g, vis@, v) && !stack@.contains(v) && #[trigger] adjacent(g, v, u) implies marked(
                g,
                vis@,
                u,
            ) by {
                if v == node {
                    lemma_neighbors_adjacent(g, node, u);
                    let t = choose|t: int| 0 <= t < neighs@.len() && neighs@[t] == u;
                    assert(marked(g, vis@, neighs@[t]));
                }
            }
        }
    }

    proof {
        assert(closed_set(g, marked_set(g, vis@))) by {
            assert forall|a: u32, b: u32|
                marked_set(g, vis@).contains(a) && #[trigger] adjacent(g, a, b) implies marked_set(
                g,
                vis@,
            ).contains(b) by {
                assert(!stack@.contains(a));
                assert(marked(g, vis@, a));
            }
        }
        assert forall|j: int|
            0 <= j < n implies (vis@[j] <==> (vis0[j] || reachable(g, seed, g.nodes[j]))) by {
            if vis0[j] {
                assert(vis@[j]);
            }
            if reachable(g, seed, g.nodes[j]) && !vis@[j] {
                let k = choose|k: nat| reachable_within(g, seed, g.nodes[j], k);
                assert(marked_set(g, vis@).contains(seed));
                lemma_closed_set_reaches(g, marked_set(g, vis@), seed, g.nodes[j], k);
                assert(marked(g, vis@, g.nodes[j]));
                let jj = choose|jj: int| 0 <= jj < n && g.nodes[jj] == g.nodes[j] && vis@[jj];
                assert(jj == j);
            }
        }
        assert forall|v: u32| #[trigger] comp@.contains(v) <==> (g.nodes.contains(v) && !marked(
            g,
            vis0,
            v,
        ) && reachable(g, seed, v)) by {
            if comp@.contains(v) {
                let j = choose|j: int| 0 <= j < n && g.nodes[j] == v && vis@[j];
                assert(!vis0[j]) by {
                    if vis0[j] {
                        assert(marked(g, vis0, v));
                    }
                }
                assert(reachable(g, seed, g.nodes[j]));
            }
            if g.nodes.contains(v) && !marked(g, vis0, v) && reachable(g, seed, v) {
                let j = choose|j: int| 0 <= j < n && g.nodes[j] == v;
                assert(vis@[j]) by {
                    if !vis@[j] {
                        let k = choose|k: nat| reachable_within(g, seed, v, k);
                        assert(marked_set(g, vis@).contains(seed));
                        lemma_closed_set_reaches(g, marked_set(g, vis@), seed, v, k);
                        let jj = choose|jj: int| 0 <= jj < n && g.nodes[jj] == v && vis@[jj];
                        assert(jj == j);
                    }
                }
                assert(!vis0[j]);
                assert(comp@.contains(g.nodes[j]));
            }
        }
    }
    (vis, comp)
}

/// Partitions the registered nodes into maximal connected subsets. The
/// first component is seeded by the first registered node, and every later
/// component by the first node not yet visited, so components follow the
/// insertion order of their seeds.
#[verifier::loop_isolation(false)]
pub fn connected_components(graph: &Graph) -> (components: Vec<Vec<u32>>)
    requires
        graph.wf(),
    ensures
        all_members(components@).no_duplicates(),
        forall|v: u32|
            #[trigger] all_members(components@).contains(v) <==> graph@.nodes.contains(v),
        forall|k: int| 0 <= k < components@.len() ==> (#[trigger] components@[k])@.len() > 0,
        forall|k: int, a: u32, b: u32|
            0 <= k < components@.len() && #[trigger] components@[k]@.contains(a)
                && #[trigger] components@[k]@.contains(b) ==> reachable(graph@, a, b),
        forall|k: int, a: u32, u: u32|
            0 <= k < components@.len() && #[trigger] components@[k]@.contains(a)
                && #[trigger] adjacent(graph@, a, u) ==> components@[k]@.contains(u),
        forall|k: int, a: u32|
            0 <= k < components@.len() && #[trigger] components@[k]@.contains(a)
                ==> graph@.nodes.contains(a),
        forall|k1: int, k2: int|
            0 <= k1 < k2 < components@.len() ==> graph@.nodes.index_of(
                (#[trigger] components@[k1])@[0],
            ) < graph@.nodes.index_of((#[trigger] components@[k2])@[0]),
        forall|k: int, a: u32|
            0 <= k < components@.len() && #[trigger] components@[k]@.contains(a)
                ==> graph@.nodes.index_of(components@[k]@[0]) <= graph@.nodes.index_of(a),
        graph@.nodes.len() == 0 ==> components@.len() == 0,
        graph@.nodes.len() > 0 && fully_connected(graph@) ==> components@.len() == 1,
{
    let ghost g = graph@;
    let n = graph.num_nodes();
    let ghost nn = n as int;
    let mut visited: Vec<bool> = Vec::new();
    for i in 0..n
        invariant
            visited@.len() == i,
            forall|j: int| 0 <= j < i ==> !visited@[j],
    {
        visited.push(false);
    }
    let mut components: Vec<Vec<u32>> = Vec::new();

    for i in 0..n
        invariant
            graph.wf(),
            n == g.nodes.len(),
            visited@.len() == nn,
            forall|j: int| 0 <= j < i ==> visited@[j],
            forall|v: u32|
                #[trigger] all_members(components@).contains(v) <==> marked(g, visited@, v),
            all_members(components@).no_duplicates(),
            closed_set(g, marked_set(g, visited@)),
            forall|k: int| 0 <= k < components@.len() ==> (#[trigger] components@[k])@.len() > 0,
            forall|k: int, a: u32, b: u32|
                0 <= k < components@.len() && #[trigger] components@[k]@.contains(a)
                    && #[trigger] components@[k]@.contains(b) ==> reachable(g, a, b),
            forall|k: int, a: u32, u: u32|
                0 <= k < components@.len() && #[trigger] components@[k]@.contains(a)
                    && #[trigger] adjacent(g, a, u) ==> components@[k]@.contains(u),
            forall|k: int, a: u32|
                0 <= k < components@.len() && #[trigger] components@[k]@.contains(a)
                    ==> g.nodes.contains(a),
            forall|k: int|
                0 <= k < components@.len() ==> 0 <= g.nodes.index_of((#[trigger] components@[k])@[0])
                    < i as int,
            forall|k1: int, k2: int|
                0 <= k1 < k2 < components@.len() ==> g.nodes.index_of(
                    (#[trigger] components@[k1])@[0],
                ) < g.nodes.index_of((#[trigger] components@[k2])@[0]),
            forall|k: int, a: u32|
                0 <= k < components@.len() && #[trigger] components@[k]@.contains(a)
                    ==> g.nodes.index_of(components@[k]@[0]) <= g.nodes.index_of(a),
            i == 0 ==> components@.len() == 0 && forall|j: int| 0 <= j < nn ==> !visited@[j],
            fully_connected(g) && nn > 0 && i > 0 ==> components@.len() == 1 && forall|j: int|
                0 <= j < nn ==> visited@[j],
    {
        let node = graph.node_at(i);
        proof {
            assert(g.nodes.contains(node));
        }
        if !visited[i] {
            proof {
                assert(!marked(g, visited@, node)) by {
                    if marked(g, visited@, node) {
                        let j = choose|j: int| 0 <= j < nn && g.nodes[j] == node && visited@[j];
                        assert(j == i as int);
                    }
                }
            }
            let ghost vis_before = visited@;
            let ghost comps_before = components@;
            let fresh: Vec<u32> = Vec::new();
            let (vis2, comp) = dfs(node, graph, visited, fresh);
            visited = vis2;
            proof {
                assert(reachable_within(g, node, node, 0));
                assert(reachable(g, node, node));
                assert(comp@.contains(node));
                assert forall|j: int|
                    0 <= j < nn implies (#[trigger] visited@[j] <==> (vis_before[j] || reachable(
                    g,
                    node,
                    g.nodes[j],
                ))) by {}
                assert(visited@[i as int]) by {
                    assert(g.nodes[i as int] == node);
                }
            }
            components.push(comp);
            proof {
                lemma_all_members_push(comps_before, comp);
                let old_am = all_members(comps_before);
                let new_am = all_members(components@);
                assert(new_am == old_am + comp@);

                // membership of the concatenation
                assert forall|v: u32| #[trigger] new_am.contains(v) <==> marked(g, visited@, v) by {
                    lemma_concat_contains(old_am, comp@, v);
                    if new_am.contains(v) {
                        if old_am.contains(v) {
                            let j = choose|j: int|
                                0 <= j < nn && g.nodes[j] == v && vis_before[j];
                            assert(visited@[j]);
                        } else {
                            assert(comp@.contains(v));
                            let j = choose|j: int| 0 <= j < nn && g.nodes[j] == v;
                            assert(visited@[j]);
                        }
                    }
                    if marked(g, visited@, v) {
                        let j = choose|j: int| 0 <= j < nn && g.nodes[j] == v && visited@[j];
                        if vis_before[j] {
                            assert(marked(g, vis_before, v));
                        } else {
                            assert(reachable(g, node, g.nodes[j]));
                            assert(!marked(g, vis_before, v)) by {
                                if marked(g, vis_before, v) {
                                    let jj = choose|jj: int|
                                        0 <= jj < nn && g.nodes[jj] == v && vis_before[jj];
                                    assert(jj == j);
                                }
                            }
                            assert(g.nodes.contains(v));
                            assert(comp@.contains(v));
                        }
                    }
                }

                // no duplicates in the concatenation
                assert(new_am.no_duplicates()) by {
                    assert forall|x: int, y: int|
                        0 <= x < old_am.len() && 0 <= y < comp@.len() implies old_am[x]
                        != comp@[y] by {
                        assert(old_am.contains(old_am[x]));
                        assert(comp@.contains(comp@[y]));
                        assert(marked(g, vis_before, old_am[x]));
                        assert(!marked(g, vis_before, comp@[y]));
                    }
                    lemma_no_dup_in_concat(old_am, comp@);
                }

                // per-component facts for the new component
                assert forall|a: u32, b: u32|
                    comp@.contains(a) && comp@.contains(b) implies reachable(g, a, b) by {
                    let k1 = choose|k1: nat| reachable_within(g, node, a, k1);
                    let k2 = choose|k2: nat| reachable_within(g, node, b, k2);
                    lemma_within_reverse(g, node, a, k1);
                    lemma_within_trans(g, a, node, b, k1, k2);
                }
                assert forall|a: u32, u: u32|
                    comp@.contains(a) && adjacent(g, a, u) implies comp@.contains(u) by {
                    let k = choose|k: nat| reachable_within(g, node, a, k);
                    lemma_within_extend(g, node, a, u, k);
                    lemma_adjacent_in_nodes(g, a, u);
                    assert(!marked(g, vis_before, u)) by {
                        if marked(g, vis_before, u) {
                            lemma_adjacent_sym(g, a, u);
                            assert(marked_set(g, vis_before).contains(u));
                            assert(marked_set(g, vis_before).contains(a));
                            assert(marked(g, vis_before, a));
                        }
                    }
                }

                // indexing facts: pushed vector keeps its prefix
                assert forall|k: int|
                    0 <= k < components@.len() implies (#[trigger] components@[k])@.len() > 0 by {
                    if k < comps_before.len() {
                        assert(components@[k] == comps_before[k]);
                    } else {
                        assert(components@[k] == comp);
                        assert(comp@.len() > 0) by {
                            let t = choose|t: int| 0 <= t < comp@.len() && comp@[t] == node;
                        }
                    }
                }
                assert forall|k: int, a: u32, b: u32|
                    0 <= k < components@.len() && #[trigger] components@[k]@.contains(a)
                        && #[trigger] components@[k]@.contains(b) implies reachable(g, a, b) by {
                    if k < comps_before.len() {
                        assert(components@[k] == comps_before[k]);
                    } else {
                        assert(components@[k] == comp);
                    }
                }
                assert forall|k: int, a: u32, u: u32|
                    0 <= k < components@.len() && #[trigger] components@[k]@.contains(a)
                        && #[trigger] adjacent(g, a, u) implies components@[k]@.contains(u) by {
                    if k < comps_before.len() {
                        assert(components@[k] == comps_before[k]);
                    } else {
                        assert(components@[k] == comp);
                    }
                }
                assert forall|k: int, a: u32|
                    0 <= k < components@.len() && #[trigger] components@[k]@.contains(a) implies g.nodes.contains(
                    a,
                ) by {
                    if k < comps_before.len() {
                        assert(components@[k] == comps_before[k]);
                    } else {
                        assert(components@[k] == comp);
                    }
                }

                // the new component is seeded by node i, and every one of
                // its members stands at or after position i
                lemma_index_of_unique(g.nodes, node, i as int);
                assert(comp@[0] == node);
                assert forall|k: int|
                    0 <= k < components@.len() implies 0 <= g.nodes.index_of(
                    (#[trigger] components@[k])@[0],
                ) < i + 1 by {
                    if k < comps_before.len() {
                        assert(components@[k] == comps_before[k]);
                    } else {
                        assert(components@[k] == comp);
                    }
                }
                assert forall|k1: int, k2: int|
                    0 <= k1 < k2 < components@.len() implies g.nodes.index_of(
                    (#[trigger] components@[k1])@[0],
                ) < g.nodes.index_of((#[trigger] components@[k2])@[0]) by {
                    assert(components@[k1] == comps_before[k1]);
                    if k2 < comps_before.len() {
                        assert(components@[k2] == comps_before[k2]);
                    } else {
                        assert(components@[k2] == comp);
                    }
                }
                assert forall|k: int, a: u32|
                    0 <= k < components@.len() && #[trigger] components@[k]@.contains(a) implies g.nodes.index_of(
                    components@[k]@[0],
                ) <= g.nodes.index_of(a) by {
                    if k < comps_before.len() {
                        assert(components@[k] == comps_before[k]);
                    } else {
                        assert(components@[k] == comp);
                        assert(!marked(g, vis_before, a) && g.nodes.contains(a));
                        let j = choose|j: int| 0 <= j < nn && g.nodes[j] == a;
                        lemma_index_of_unique(g.nodes, a, j);
                        assert(j >= i as int) by {
                            if j < i as int {
                                assert(vis_before[j]);
                                assert(marked(g, vis_before, a));
                            }
                        }
                    }
                }

                // a fully connected graph is exhausted by the first search
                if fully_connected(g) && nn > 0 {
                    assert(comps_before.len() == 0) by {
                        if comps_before.len() > 0 {
                            let w = comps_before[0]@[0];
                            assert(comps_before[0]@.contains(w));
                            lemma_all_members_contains(comps_before, 0, w);
                            assert(marked(g, vis_before, w));
                            assert(g.nodes.contains(w));
                            assert(reachable(g, w, node));
                            let k = choose|k: nat| reachable_within(g, w, node, k);
                            assert(marked_set(g, vis_before).contains(w));
                            lemma_closed_set_reaches(g, marked_set(g, vis_before), w, node, k);
                            assert(marked(g, vis_before, node));
                        }
                    }
                    assert(components@.len() == 1);
                    assert forall|j: int| 0 <= j < nn implies visited@[j] by {
                        assert(g.nodes.contains(g.nodes[j]));
                        assert(reachable(g, node, g.nodes[j]));
                    }
                }
            }
        } else {
            proof {
                if i == 0 {
                    assert(!visited@[0]);
                    assert(false);
                }
            }
        }
    }

    proof {
        assert forall|v: u32|
            #[trigger] all_members(components@).contains(v) <==> g.nodes.contains(v) by {
            if all_members(components@).contains(v) {
                let j = choose|j: int| 0 <= j < nn && g.nodes[j] == v && visited@[j];
                assert(g.nodes.contains(g.nodes[j]));
            }
            if g.nodes.contains(v) {
                let j = choose|j: int| 0 <= j < nn && g.nodes[j] == v;
                assert(visited@[j]);
                assert(marked(g, visited@, v));
            }
        }
    }
    components
}

} // verus!
