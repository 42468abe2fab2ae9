//! The graph that the traversal walks, and what it means for a sequence of
//! vertices and edges to be a run of Prim's algorithm on it.

use crate::model::{HeapModel, SENTINEL};
use crate::sums::{lemma_pick_bound, pick, sum};
use vstd::prelude::*;

verus! {

/// A weighted edge.  It is listed, by its identifier, among the edges of the
/// vertex it leaves.
#[derive(Clone, Copy, Debug, PartialEq, Eq)]
pub struct Edge {
    pub from: usize,
    pub to: usize,
    pub val: usize,
}

/// The graph as the traversal sees it: for each vertex name the identifiers
/// of the edges that leave it, and the edges by identifier.
pub struct Graph {
    pub adj: Seq<Seq<usize>>,
    pub edges: Seq<Edge>,
}

/// The graph held by a heap that contains every vertex, and a list of edges.
pub open spec fn graph_of(h: HeapModel, edges: Seq<Edge>) -> Graph {
    Graph { adj: Seq::new(h.indices.len(), |u: int| h.vertex(u).edges), edges: edges }
}

/// The sum of the weights of all edges.
pub open spec fn weight_sum(edges: Seq<Edge>) -> int
    decreases edges.len(),
{
    if edges.len() == 0 {
        0
    } else {
        weight_sum(edges.drop_last()) + edges.last().val
    }
}

impl Graph {
    /// The identifier of the `k`-th edge that leaves `u`.
    pub open spec fn edge_id(self, u: int, k: int) -> int {
        self.adj[u][k] as int
    }

    /// The vertex that edge `e` leads to.
    pub open spec fn to(self, e: int) -> int {
        self.edges[e].to as int
    }

    /// The weight of edge `e`.
    pub open spec fn weight(self, e: int) -> int {
        self.edges[e].val as int
    }

    /// Every listed edge identifier names an edge, and every listed edge leads
    /// to a vertex of the graph.
    pub open spec fn valid(self) -> bool {
        forall|u: int, k: int|
            0 <= u < self.adj.len() && 0 <= k < self.adj[u].len() ==> {
                &&& 0 <= #[trigger] self.edge_id(u, k) < self.edges.len()
                &&& 0 <= self.to(self.edge_id(u, k)) < self.adj.len()
            }
    }

    /// Every listed edge identifier names an edge, and that edge is listed at
    /// the vertex it leaves.
    pub open spec fn listed_at_origin(self) -> bool {
        forall|u: int, k: int|
            0 <= u < self.adj.len() && 0 <= k < self.adj[u].len() ==> {
                &&& 0 <= #[trigger] self.edge_id(u, k) < self.edges.len()
                &&& self.edges[self.edge_id(u, k)].from == u
            }
    }

    /// The sum of the weights of all edges.
    pub open spec fn total_weight(self) -> int {
        weight_sum(self.edges)
    }

    /// Whether `u` is among the first `i` vertices of `order`.
    pub open spec fn visited(order: Seq<int>, i: int, u: int) -> bool {
        exists|j: int| 0 <= j < i && j < order.len() && #[trigger] order[j] == u
    }

    /// Whether edge `e` is listed at one of the first `i` vertices of `order`.
    pub open spec fn leaves(self, order: Seq<int>, i: int, e: int) -> bool {
        exists|j: int, k: int|
            0 <= j < i && j < order.len() && 0 <= k < self.adj[order[j]].len()
                && #[trigger] self.edge_id(order[j], k) == e
    }

    /// Whether edge `e` may attach `order[i]` to the tree on the first `i`
    /// vertices of `order`: it leaves that tree, leads to `order[i]`, weighs
    /// less than the sentinel, and no edge from the tree to a vertex outside
    /// it weighs less.
    pub open spec fn attaches(self, order: Seq<int>, i: int, e: int) -> bool {
        &&& self.leaves(order, i, e)
        &&& self.to(e) == order[i]
        &&& self.weight(e) < SENTINEL
        &&& forall|j: int, k: int|
            0 <= j < i && 0 <= k < self.adj[order[j]].len() && !Self::visited(
                order,
                i,
                self.to(self.edge_id(order[j], k)),
            ) ==> self.weight(e) <= self.weight(#[trigger] self.edge_id(order[j], k))
    }

    /// Whether `order`, with the attaching edges `links`, is a run of Prim's
    /// algorithm from `start`: the vertices are distinct, the first is
    /// `start`, and each later one is attached by a lightest edge that leaves
    /// the tree built so far.
    pub open spec fn is_run(self, start: int, order: Seq<int>, links: Seq<int>) -> bool {
        &&& order.len() >= 1
        &&& order[0] == start
        &&& links.len() == order.len() - 1
        &&& forall|i: int| 0 <= i < order.len() ==> 0 <= #[trigger] order[i] < self.adj.len()
        &&& forall|i: int, j: int| 0 <= i < j < order.len() ==> order[i] != order[j]
        &&& forall|i: int| 1 <= i < order.len() ==> self.attaches(order, i, #[trigger] links[i - 1])
    }

    /// Whether the tree on `order` cannot grow: every edge that leaves it for
    /// a vertex outside weighs as much as the sentinel or more.
    pub open spec fn stuck(self, order: Seq<int>) -> bool {
        forall|j: int, k: int|
            0 <= j < order.len() && 0 <= k < self.adj[order[j]].len() && !order.contains(
                self.to(self.edge_id(order[j], k)),
            ) ==> self.weight(#[trigger] self.edge_id(order[j], k)) >= SENTINEL
    }

    /// The sum of the weights of the edges `links`.
    pub open spec fn run_weight(self, links: Seq<int>) -> int
        decreases links.len(),
    {
        if links.len() == 0 {
            0
        } else {
            self.run_weight(links.drop_last()) + self.weight(links.last())
        }
    }
}

/// The weight of one edge is at most the sum of all.
pub proof fn lemma_weight_le_sum(edges: Seq<Edge>, e: int)
    requires
        0 <= e < edges.len(),
    ensures
        0 <= edges[e].val <= weight_sum(edges),
        0 <= weight_sum(edges.drop_last()) <= weight_sum(edges),
    decreases edges.len(),
{
    lemma_weight_sum_nonnegative(edges.drop_last());
    if e < edges.len() - 1 {
        lemma_weight_le_sum(edges.drop_last(), e);
    }
}

/// The sum over the first `n` edges is at most the sum over all.
pub proof fn lemma_weight_sum_take(edges: Seq<Edge>, n: int)
    requires
        0 <= n <= edges.len(),
    ensures
        0 <= weight_sum(edges.take(n)) <= weight_sum(edges),
    decreases edges.len(),
{
    lemma_weight_sum_nonnegative(edges.take(n));
    if n == edges.len() {
        assert(edges.take(n) =~= edges);
    } else {
        lemma_weight_sum_take(edges.drop_last(), n);
        assert(edges.drop_last().take(n) =~= edges.take(n));
    }
}

/// A sum of weights is not negative.
pub proof fn lemma_weight_sum_nonnegative(edges: Seq<Edge>)
    ensures
        0 <= weight_sum(edges),
    decreases edges.len(),
{
    if edges.len() > 0 {
        lemma_weight_sum_nonnegative(edges.drop_last());
    }
}

/// The weights of the edges, by identifier.
pub open spec fn weights(edges: Seq<Edge>) -> Seq<int> {
    Seq::new(edges.len(), |e: int| edges[e].val as int)
}

/// The sum of the weights of all edges is the sum of the sequence of weights.
pub proof fn lemma_weight_sum_as_sum(edges: Seq<Edge>)
    ensures
        weight_sum(edges) == sum(weights(edges)),
    decreases edges.len(),
{
    if edges.len() > 0 {
        lemma_weight_sum_as_sum(edges.drop_last());
        assert(weights(edges).drop_last() =~= weights(edges.drop_last()));
    }
}

/// The weight of a run is the sum of the weights of its attaching edges.
pub proof fn lemma_run_weight_as_sum(g: Graph, links: Seq<int>)
    ensures
        g.run_weight(links) == sum(Seq::new(links.len(), |j: int| g.weight(links[j]))),
    decreases links.len(),
{
    let s = Seq::new(links.len(), |j: int| g.weight(links[j]));
    if links.len() > 0 {
        lemma_run_weight_as_sum(g, links.drop_last());
        assert(s.drop_last() =~= Seq::new(
            links.drop_last().len(),
            |j: int| g.weight(links.drop_last()[j]),
        ));
    }
}

/// The weight of a run is at most the sum of the weights of all edges.
pub proof fn lemma_run_weight_bound(g: Graph, start: int, order: Seq<int>, links: Seq<int>)
    requires
        g.valid(),
        g.is_run(start, order, links),
    ensures
        0 <= g.run_weight(links) <= g.total_weight(),
{
    assert forall|i: int| 0 <= i < links.len() implies 0 <= #[trigger] links[i] < g.edges.len() by {
        assert(g.attaches(order, i + 1, links[i + 1 - 1]));
        let (j, k) = choose|j: int, k: int|
            0 <= j < i + 1 && j < order.len() && 0 <= k < g.adj[order[j]].len() && #[trigger] g.edge_id(
                order[j],
                k,
            ) == links[i];
        assert(0 <= order[j] < g.adj.len());
        assert(0 <= g.edge_id(order[j], k) < g.edges.len());
    }
    assert forall|a: int, b: int| 0 <= a < b < links.len() implies links[a] != links[b] by {
        assert(g.attaches(order, a + 1, links[a + 1 - 1]));
        assert(g.attaches(order, b + 1, links[b + 1 - 1]));
        assert(order[a + 1] != order[b + 1]);
    }
    let w = weights(g.edges);
    lemma_weight_sum_as_sum(g.edges);
    lemma_run_weight_as_sum(g, links);
    assert(pick(w, links) =~= Seq::new(links.len(), |j: int| g.weight(links[j])));
    lemma_pick_bound(w, links);
}

} // verus!
