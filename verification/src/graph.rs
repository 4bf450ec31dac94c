use vstd::prelude::*;

verus! {

/// Mathematical model of a graph: the node sequence (first-seen insertion
/// order, no duplicates) and the raw edge sequence (undirected pairs;
/// duplicates and self-loops are kept as appended).
pub ghost struct GraphModel {
    pub nodes: Seq<u32>,
    pub edges: Seq<(u32, u32)>,
}

/// An edge joins two endpoints regardless of the order they were written in.
pub open spec fn edge_joins(e: (u32, u32), a: u32, b: u32) -> bool {
    e == (a, b) || e == (b, a)
}

/// Two nodes are adjacent when some edge joins them. A self-loop (n, n)
/// makes n adjacent to itself.
pub open spec fn adjacent(g: GraphModel, a: u32, b: u32) -> bool {
    exists|i: int| 0 <= i < g.edges.len() && edge_joins(#[trigger] g.edges[i], a, b)
}

/// Every identifier appearing in an edge is registered in the node
/// sequence, and no identifier is registered twice.
pub open spec fn model_wf(g: GraphModel) -> bool {
    &&& g.nodes.no_duplicates()
    &&& forall|i: int|
        0 <= i < g.edges.len() ==> g.nodes.contains(#[trigger] g.edges[i].0) && g.nodes.contains(
            g.edges[i].1,
        )
}

/// The neighbor occurrences of `n`, in edge order: for each edge touching
/// `n`, the other endpoint. A self-loop (n, n) contributes exactly one
/// occurrence of `n` (the source position is matched first), never two.
pub open spec fn neighbors_of(edges: Seq<(u32, u32)>, n: u32) -> Seq<u32>
    decreases edges.len(),
{
    if edges.len() == 0 {
        Seq::empty()
    } else {
        let rest = neighbors_of(edges.drop_last(), n);
        let e = edges.last();
        if e.0 == n {
            rest.push(e.1)
        } else if e.1 == n {
            rest.push(e.0)
        } else {
            rest
        }
    }
}

/// The degree of a node: how many neighbor occurrences it has.
pub open spec fn degree_of(g: GraphModel, n: u32) -> int {
    neighbors_of(g.edges, n).len() as int
}

/// Registering a node keeps the sequence unchanged when the node is already
/// present and appends it otherwise.
pub open spec fn register_node(nodes: Seq<u32>, v: u32) -> Seq<u32> {
    if nodes.contains(v) {
        nodes
    } else {
        nodes.push(v)
    }
}

/// An undirected graph given by an explicit edge list. Nodes are
/// non-negative integer identifiers kept in first-seen insertion order.
pub struct Graph {
    nodes: Vec<u32>,
    edges: Vec<(u32, u32)>,
}

impl View for Graph {
    type V = GraphModel;

    closed spec fn view(&self) -> GraphModel {
        GraphModel { nodes: self.nodes@, edges: self.edges@ }
    }
}

impl Graph {
    /// The structural invariant every `Graph` built through this interface
    /// satisfies.
    pub open spec fn wf(&self) -> bool {
        model_wf(self@)
    }

    /// Creates an empty graph.
    pub fn new() -> (g: Graph)
        ensures
            g.wf(),
            g@.nodes == Seq::<u32>::empty(),
            g@.edges == Seq::<(u32, u32)>::empty(),
    {
        Graph { nodes: Vec::new(), edges: Vec::new() }
    }

    /// Whether `node` is already registered.
    pub fn contains_node(&self, node: u32) -> (r: bool)
        ensures
            r == self@.nodes.contains(node),
    {
        let n = self.nodes.len();
        for i in 0..n
            invariant
                n == self.nodes.len(),
                forall|j: int| 0 <= j < i ==> self.nodes@[j] != node,
        {
            if self.nodes[i] == node {
                return true;
            }
        }
        false
    }

    /// Registers `node` if it is absent, preserving first-seen order;
    /// idempotent.
    pub fn add_node(&mut self, node: u32)
        requires
            old(self).wf(),
        ensures
            final(self).wf(),
            final(self)@.edges == old(self)@.edges,
            final(self)@.nodes == register_node(old(self)@.nodes, node),
            final(self)@.nodes.contains(node),
    {
        if !self.contains_node(node) {
            self.nodes.push(node);
        }
        proof {
            let pre = old(self)@.nodes;
            if !pre.contains(node) {
                assert(self@.nodes == pre.push(node));
                assert(self@.nodes.contains(node)) by {
                    assert(self@.nodes.last() == node);
                }
                assert(self@.nodes.no_duplicates()) by {
                    assert(forall|i: int, j: int|
                        0 <= i < self@.nodes.len() && 0 <= j < self@.nodes.len() && i != j
                            ==> self@.nodes[i] != self@.nodes[j]) by {
                        assert(forall|i: int| 0 <= i < pre.len() ==> self@.nodes[i] == pre[i]);
                        assert(forall|i: int| 0 <= i < pre.len() ==> pre.contains(#[trigger] pre[i]));
                    }
                }
                assert forall|i: int| 0 <= i < self@.edges.len() implies self@.nodes.contains(
                    #[trigger] self@.edges[i].0,
                ) && self@.nodes.contains(self@.edges[i].1) by {
                    assert(self@.edges[i] == old(self)@.edges[i]);
                    assert(pre.contains(self@.edges[i].0));
                    assert(pre.contains(self@.edges[i].1));
                    let a = choose|a: int| 0 <= a < pre.len() && pre[a] == self@.edges[i].0;
                    assert(self@.nodes[a] == self@.edges[i].0);
                    let b = choose|b: int| 0 <= b < pre.len() && pre[b] == self@.edges[i].1;
                    assert(self@.nodes[b] == self@.edges[i].1);
                }
            }
        }
    }

    /// Appends the edge (src, dest) and registers both endpoints.
    pub fn add_edge(&mut self, src: u32, dest: u32)
        requires
            old(self).wf(),
        ensures
            final(self).wf(),
            final(self)@.edges == old(self)@.edges.push((src, dest)),
            final(self)@.nodes == register_node(register_node(old(self)@.nodes, src), dest),
    {
        self.add_node(src);
        self.add_node(dest);
        proof {
            assert(self@.nodes.contains(src)) by {
                let mid = register_node(old(self)@.nodes, src);
                if mid.contains(src) && !register_node(mid, dest).contains(src) {
                    let i = choose|i: int| 0 <= i < mid.len() && mid[i] == src;
                    assert(register_node(mid, dest)[i] == src);
                }
            }
        }
        self.edges.push((src, dest));
    }

    /// Number of registered nodes.
    pub fn num_nodes(&self) -> (r: usize)
        ensures
            r == self@.nodes.len(),
    {
        self.nodes.len()
    }

    /// Number of appended edges (duplicates and self-loops included).
    pub fn num_edges(&self) -> (r: usize)
        ensures
            r == self@.edges.len(),
    {
        self.edges.len()
    }

    /// The node at position `i` of the insertion order.
    pub fn node_at(&self, i: usize) -> (r: u32)
        requires
            i < self@.nodes.len(),
        ensures
            r == self@.nodes[i as int],
    {
        self.nodes[i]
    }

    /// The position of a registered node in the insertion order.
    pub fn node_position(&self, node: u32) -> (r: usize)
        requires
            self@.nodes.contains(node),
        ensures
            r < self@.nodes.len(),
            self@.nodes[r as int] == node,
    {
        let n = self.nodes.len();
        for i in 0..n
            invariant
                n == self.nodes.len(),
                self@.nodes.contains(node),
                forall|j: int| 0 <= j < i ==> self.nodes@[j] != node,
        {
            if self.nodes[i] == node {
                return i;
            }
        }
        proof {
            let w = choose|w: int| 0 <= w < self@.nodes.len() && self@.nodes[w] == node;
            assert(false);
        }
        unreached()
    }

    /// Every node matched as the other endpoint of an edge touching `node`,
    /// in edge order. A self-loop yields its node once.
    pub fn neighbors(&self, node: u32) -> (r: Vec<u32>)
        ensures
            r@ == neighbors_of(self@.edges, node),
    {
        let mut r: Vec<u32> = Vec::new();
        let m = self.edges.len();
        for i in 0..m
            invariant
                m == self.edges.len(),
                r@ == neighbors_of(self@.edges.take(i as int), node),
        {
            let (src, dest) = self.edges[i];
            proof {
                assert(self@.edges.take(i + 1).drop_last() =~= self@.edges.take(i as int));
                assert(self@.edges.take(i + 1).last() == self@.edges[i as int]);
            }
            if src == node {
                r.push(dest);
            } else if dest == node {
                r.push(src);
            }
        }
        proof {
            assert(self@.edges.take(m as int) =~= self@.edges);
        }
        r
    }
}

} // verus!
