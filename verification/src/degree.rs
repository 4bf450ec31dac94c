use vstd::prelude::*;

use crate::graph::{degree_of, Graph, GraphModel};

verus! {

/// How many of the first `k` registered nodes have degree `d`.
pub open spec fn count_with_degree(g: GraphModel, k: int, d: int) -> int
    decreases k,
{
    if k <= 0 {
        0
    } else {
        count_with_degree(g, k - 1, d) + if degree_of(g, g.nodes[k - 1]) == d {
            1int
        } else {
            0int
        }
    }
}

/// How many of the first `k` registered nodes have degree below `dlim`.
pub open spec fn count_below_degree(g: GraphModel, k: int, dlim: int) -> int
    decreases k,
{
    if k <= 0 {
        0
    } else {
        count_below_degree(g, k - 1, dlim) + if degree_of(g, g.nodes[k - 1]) < dlim {
            1int
        } else {
            0int
        }
    }
}

/// The total of the node counts recorded in a histogram.
pub open spec fn sum_counts(h: Seq<(usize, usize)>) -> int
    decreases h.len(),
{
    if h.len() == 0 {
        0
    } else {
        sum_counts(h.drop_last()) + h.last().1
    }
}

proof fn lemma_count_below_split(g: GraphModel, k: int, dlim: int)
    ensures
        count_below_degree(g, k, dlim + 1) == count_below_degree(g, k, dlim) + count_with_degree(
            g,
            k,
            dlim,
        ),
    decreases k,
{
    if k > 0 {
        lemma_count_below_split(g, k - 1, dlim);
    }
}

proof fn lemma_count_below_all(g: GraphModel, k: int, dlim: int)
    requires
        forall|j: int| 0 <= j < k ==> degree_of(g, #[trigger] g.nodes[j]) < dlim,
    ensures
        count_below_degree(g, k, dlim) == if k <= 0 {
            0int
        } else {
            k
        },
    decreases k,
{
    if k > 0 {
        lemma_count_below_all(g, k - 1, dlim);
    }
}

proof fn lemma_count_below_degree_zero(g: GraphModel, k: int)
    ensures
        count_below_degree(g, k, 0) == 0,
    decreases k,
{
    if k > 0 {
        lemma_count_below_degree_zero(g, k - 1);
    }
}

proof fn lemma_count_with_degree_pos(g: GraphModel, k: int, d: int, j: int)
    requires
        0 <= j < k,
        degree_of(g, g.nodes[j]) == d,
    ensures
        count_with_degree(g, k, d) >= 1,
    decreases k,
{
    lemma_count_with_degree_nonneg(g, k - 1, d);
    if j < k - 1 {
        lemma_count_with_degree_pos(g, k - 1, d, j);
    }
}

proof fn lemma_count_with_degree_nonneg(g: GraphModel, k: int, d: int)
    ensures
        count_with_degree(g, k, d) >= 0,
    decreases k,
{
    if k > 0 {
        lemma_count_with_degree_nonneg(g, k - 1, d);
    }
}

/// The degree distribution: for each degree value held by at least one
/// node, how many nodes have it, sorted by degree in ascending order so
/// the output is reproducible. The node counts over all buckets add up to
/// the total node count.
#[verifier::loop_isolation(false)]
pub fn calculate_degree_distribution(graph: &Graph) -> (h: Vec<(usize, usize)>)
    requires
        graph.wf(),
    ensures
        forall|x: int, y: int| 0 <= x < y < h@.len() ==> (#[trigger] h@[x]).0 < (#[trigger] h@[y]).0,
        forall|x: int|
            0 <= x < h@.len() ==> (#[trigger] h@[x]).1 as int == count_with_degree(
                graph@,
                graph@.nodes.len() as int,
                h@[x].0 as int,
            ) && h@[x].1 > 0,
        forall|j: int|
            0 <= j < graph@.nodes.len() ==> exists|x: int|
                0 <= x < h@.len() && (#[trigger] h@[x]).0 as int == degree_of(
                    graph@,
                    #[trigger] graph@.nodes[j],
                ),
        sum_counts(h@) == graph@.nodes.len(),
{
    let ghost g = graph@;
    let n = graph.num_nodes();
    let ghost nn = n as int;
    let mut h: Vec<(usize, usize)> = Vec::new();
    if n == 0 {
        return h;
    }

    // degree of each node, in insertion order, and the largest one
    let mut degs: Vec<usize> = Vec::new();
    let mut maxd: usize = 0;
    for i in 0..n
        invariant
            degs@.len() == i,
            forall|j: int| 0 <= j < i ==> (#[trigger] degs@[j]) as int == degree_of(g, g.nodes[j]),
            forall|j: int| 0 <= j < i ==> (#[trigger] degs@[j]) <= maxd,
    {
        let node = graph.node_at(i);
        let nb = graph.neighbors(node);
        let dg = nb.len();
        if dg > maxd {
            maxd = dg;
        }
        degs.push(dg);
    }

    // walk the degree values upward, bucket by bucket
    proof {
        lemma_count_below_degree_zero(g, nn);
    }
    let mut d: usize = 0;
    let mut done = false;
    while !done
        invariant
            degs@.len() == nn,
            forall|j: int| 0 <= j < nn ==> (#[trigger] degs@[j]) as int == degree_of(g, g.nodes[j]),
            forall|j: int| 0 <= j < nn ==> (#[trigger] degs@[j]) <= maxd,
            forall|x: int, y: int|
                0 <= x < y < h@.len() ==> (#[trigger] h@[x]).0 < (#[trigger] h@[y]).0,
            forall|x: int|
                0 <= x < h@.len() ==> (#[trigger] h@[x]).1 as int == count_with_degree(
                    g,
                    nn,
                    h@[x].0 as int,
                ) && h@[x].1 > 0,
            !done ==> d <= maxd,
            !done ==> forall|x: int| 0 <= x < h@.len() ==> (#[trigger] h@[x]).0 < d,
            !done ==> forall|j: int|
                0 <= j < nn && degree_of(g, #[trigger] g.nodes[j]) < d ==> exists|x: int|
                    0 <= x < h@.len() && (#[trigger] h@[x]).0 as int == degree_of(g, g.nodes[j]),
            !done ==> sum_counts(h@) == count_below_degree(g, nn, d as int),
            done ==> forall|j: int|
                0 <= j < nn ==> exists|x: int|
                    0 <= x < h@.len() && (#[trigger] h@[x]).0 as int == degree_of(
                        g,
                        #[trigger] g.nodes[j],
                    ),
            done ==> sum_counts(h@) == nn,
        decreases maxd - d, (if done {
            0int
        } else {
            1int
        }),
    {
        let mut c: usize = 0;
        for j in 0..n
            invariant
                c as int == count_with_degree(g, j as int, d as int),
                c <= j,
        {
            if degs[j] == d {
                c = c + 1;
            }
        }
        let ghost h_before = h@;
        if c > 0 {
            h.push((d, c));
        }
        proof {
            lemma_count_below_split(g, nn, d as int);
            if c > 0 {
                assert(h@.drop_last() =~= h_before);
                assert(h@.last() == (d, c));
                assert forall|x: int, y: int|
                    0 <= x < y < h@.len() implies (#[trigger] h@[x]).0 < (#[trigger] h@[y]).0 by {
                    if y == h@.len() - 1 {
                        assert(h@[x] == h_before[x]);
                    } else {
                        assert(h@[x] == h_before[x] && h@[y] == h_before[y]);
                    }
                }
            }
            assert forall|j: int|
                0 <= j < nn && degree_of(g, #[trigger] g.nodes[j]) < d + 1 implies exists|x: int|
                0 <= x < h@.len() && (#[trigger] h@[x]).0 as int == degree_of(g, g.nodes[j]) by {
                if degree_of(g, g.nodes[j]) < d as int {
                    let x = choose|x: int|
                        0 <= x < h_before.len() && (#[trigger] h_before[x]).0 as int == degree_of(
                            g,
                            g.nodes[j],
                        );
                    assert(h@[x] == h_before[x]);
                } else {
                    lemma_count_with_degree_pos(g, nn, d as int, j);
                    assert(c > 0);
                    assert((#[trigger] h@[h@.len() - 1]).0 as int == degree_of(g, g.nodes[j]));
                }
            }
        }
        if d == maxd {
            done = true;
            proof {
                assert forall|j: int| 0 <= j < nn implies degree_of(g, #[trigger] g.nodes[j]) < d
                    + 1 by {
                    assert(degs@[j] as int == degree_of(g, g.nodes[j]));
                }
                lemma_count_below_all(g, nn, d as int + 1);
            }
        } else {
            d = d + 1;
        }
    }
    h
}

} // verus!
