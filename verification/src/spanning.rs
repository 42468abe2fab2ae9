//! Spanning trees of the graph, and why a run of Prim's algorithm over all
//! vertices weighs no more than any of them when every edge is listed in both
//! directions.

use crate::graph::{lemma_run_weight_as_sum, Graph};
use crate::model::SENTINEL;
use crate::traversal::{justified, OutcomeModel};
use crate::sums::{
    distinct_below, lemma_distinct_covers, lemma_distinct_length, lemma_pick_bound,
    lemma_shift_sum, lemma_sum_change, lemma_sum_front, pick, sum,
};
use vstd::prelude::*;

verus! {

/// A tree on the vertices of a graph, rooted at the start vertex: every
/// other vertex `v` is entered by the edge `link[v]`, which is listed at the
/// vertex `from[v]`; `rank` rises along every such edge, so that following
/// `from` ends at the root.
pub struct Tree {
    pub link: Seq<int>,
    pub from: Seq<int>,
    pub rank: Seq<int>,
}

impl Graph {
    /// Whether edge `e` is listed at vertex `u`.
    pub open spec fn listed(self, u: int, e: int) -> bool {
        exists|k: int| 0 <= k < self.adj[u].len() && #[trigger] self.edge_id(u, k) == e
    }

    /// Whether `t` is a spanning tree rooted at `start`.
    pub open spec fn is_tree(self, start: int, t: Tree) -> bool {
        &&& 0 <= start < self.adj.len()
        &&& t.link.len() == self.adj.len()
        &&& t.from.len() == self.adj.len()
        &&& t.rank.len() == self.adj.len()
        &&& forall|v: int| 0 <= v < self.adj.len() ==> 0 <= #[trigger] t.rank[v]
        &&& forall|v: int|
            0 <= v < self.adj.len() && v != start ==> {
                &&& 0 <= #[trigger] t.from[v] < self.adj.len()
                &&& self.listed(t.from[v], t.link[v])
                &&& self.to(t.link[v]) == v
                &&& t.rank[t.from[v]] < t.rank[v]
            }
    }

    /// Whether some edge listed where `e` leads to leads back to `u` with the
    /// weight of `e`.
    pub open spec fn has_reverse(self, u: int, e: int) -> bool {
        exists|k: int|
            0 <= k < self.adj[self.to(e)].len() && self.to(
                #[trigger] self.edge_id(self.to(e), k),
            ) == u && self.weight(self.edge_id(self.to(e), k)) == self.weight(e)
    }

    /// Whether every edge is listed in both directions with one weight.
    pub open spec fn symmetric(self) -> bool {
        forall|u: int, k: int|
            0 <= u < self.adj.len() && 0 <= k < self.adj[u].len() ==> self.has_reverse(
                u,
                #[trigger] self.edge_id(u, k),
            )
    }

    /// An edge that leads back to `u` from where `e` leads to, with the
    /// weight of `e`.
    pub open spec fn reverse(self, u: int, e: int) -> int {
        let k = choose|k: int|
            0 <= k < self.adj[self.to(e)].len() && self.to(
                #[trigger] self.edge_id(self.to(e), k),
            ) == u && self.weight(self.edge_id(self.to(e), k)) == self.weight(e);
        self.edge_id(self.to(e), k)
    }

    /// The position, among the first `i` vertices of `order`, of a vertex at
    /// which `e` is listed.
    pub open spec fn source(self, order: Seq<int>, i: int, e: int) -> int {
        let (j, k) = choose|j: int, k: int|
            0 <= j < i && j < order.len() && 0 <= k < self.adj[order[j]].len()
                && #[trigger] self.edge_id(order[j], k) == e;
        j
    }
}

/// Where `v` stands in `s`.
pub open spec fn position(s: Seq<int>, v: int) -> int {
    choose|j: int| 0 <= j < s.len() && s[j] == v
}

/// Whether the entries of `s` are distinct.
pub open spec fn distinct(s: Seq<int>) -> bool {
    forall|i: int, j: int| 0 <= i < j < s.len() ==> s[i] != s[j]
}

/// In a sequence of distinct entries each entry has one position.
pub proof fn lemma_position(s: Seq<int>, j: int)
    requires
        distinct(s),
        0 <= j < s.len(),
    ensures
        position(s, s[j]) == j,
        s.contains(s[j]),
{
    let p = position(s, s[j]);
    assert(0 <= p < s.len() && s[p] == s[j]);
    if p < j {
        assert(s[p] != s[j]);
    }
    if j < p {
        assert(s[j] != s[p]);
    }
}

/// The vertices from `v` up towards the root of `t`, down to the first one
/// whose parent is among the first `n` vertices of `order`; listed from the
/// top, so that `v` comes last.
pub open spec fn climb(t: Tree, order: Seq<int>, n: int, v: int) -> Seq<int>
    decreases t.rank[v],
{
    if Graph::visited(order, n, t.from[v]) || !(0 <= t.rank[t.from[v]] < t.rank[v]) {
        seq![v]
    } else {
        climb(t, order, n, t.from[v]).push(v)
    }
}

/// What the climb from a vertex outside the first `n` of `order` looks like.
pub open spec fn is_climb(g: Graph, t: Tree, order: Seq<int>, n: int, v: int, p: Seq<int>) -> bool {
    &&& p.len() >= 1
    &&& p[p.len() - 1] == v
    &&& Graph::visited(order, n, t.from[p[0]])
    &&& forall|l: int|
        0 <= l < p.len() ==> 0 <= #[trigger] p[l] < g.adj.len() && !Graph::visited(order, n, p[l])
    &&& forall|l: int| 1 <= l < p.len() ==> t.from[#[trigger] p[l]] == p[l - 1]
    &&& forall|l: int| 0 <= l < p.len() ==> t.rank[#[trigger] p[l]] <= t.rank[v]
    &&& distinct(p)
}

/// The climb from a vertex outside the first `n` of `order` ends below one
/// of them, stays outside them, follows `from`, and passes no vertex twice.
pub proof fn lemma_climb(g: Graph, start: int, t: Tree, order: Seq<int>, n: int, v: int)
    requires
        g.is_tree(start, t),
        1 <= n <= order.len(),
        order[0] == start,
        0 <= v < g.adj.len(),
        !Graph::visited(order, n, v),
    ensures
        is_climb(g, t, order, n, v, climb(t, order, n, v)),
    decreases t.rank[v],
{
    assert(v != start) by {
        if v == start {
            assert(order[0] == v);
        }
    }
    let u = t.from[v];
    assert(0 <= u < g.adj.len());
    assert(0 <= t.rank[u] < t.rank[v]);
    let p = climb(t, order, n, v);
    if Graph::visited(order, n, u) {
        assert(p =~= seq![v]);
    } else {
        let q = climb(t, order, n, u);
        lemma_climb(g, start, t, order, n, u);
        assert(p =~= q.push(v));
        assert forall|l: int| 1 <= l < p.len() implies t.from[#[trigger] p[l]] == p[l - 1] by {
            if l < q.len() {
                assert(p[l] == q[l]);
                assert(t.from[q[l]] == q[l - 1]);
            }
        }
        assert forall|l: int| 0 <= l < p.len() implies 0 <= #[trigger] p[l] < g.adj.len()
            && !Graph::visited(order, n, p[l]) by {
            if l < q.len() {
                assert(p[l] == q[l]);
            }
        }
        assert forall|l: int| 0 <= l < p.len() implies t.rank[#[trigger] p[l]] <= t.rank[v] by {
            if l < q.len() {
                assert(p[l] == q[l]);
                assert(t.rank[q[l]] <= t.rank[u]);
            }
        }
        assert forall|a: int, b: int| 0 <= a < b < p.len() implies p[a] != p[b] by {
            assert(p[a] == q[a]);
            assert(t.rank[q[a]] <= t.rank[u]);
            if b < q.len() {
                assert(p[b] == q[b]);
            }
        }
        assert(p[0] == q[0]);
    }
}

/// Whether the first `i` attaching edges of the run are links of `t`.
pub open spec fn agrees(t: Tree, order: Seq<int>, links: Seq<int>, i: int) -> bool {
    forall|j: int| 1 <= j <= i ==> t.link[#[trigger] order[j]] == links[j - 1]
}

/// The setting of one exchange: a run, and a spanning tree that holds the
/// first `n - 1` attaching edges of the run.
pub open spec fn grafting(
    g: Graph,
    start: int,
    order: Seq<int>,
    links: Seq<int>,
    t: Tree,
    n: int,
) -> bool {
    &&& g.valid()
    &&& g.symmetric()
    &&& g.is_run(start, order, links)
    &&& g.is_tree(start, t)
    &&& 1 <= n < order.len()
    &&& agrees(t, order, links, n - 1)
}

/// The link of `v` after the exchange: `order[n]` is entered by the run's
/// edge, the vertices above it on its climb are entered from below, every
/// other vertex keeps its link.
pub open spec fn new_link(
    g: Graph,
    t: Tree,
    order: Seq<int>,
    links: Seq<int>,
    n: int,
    v: int,
) -> int {
    let path = climb(t, order, n, order[n]);
    if Graph::visited(order, n, v) || !path.contains(v) {
        t.link[v]
    } else if position(path, v) == path.len() - 1 {
        links[n - 1]
    } else {
        g.reverse(v, t.link[path[position(path, v) + 1]])
    }
}

/// The parent of `v` after the exchange.
pub open spec fn new_from(
    g: Graph,
    t: Tree,
    order: Seq<int>,
    links: Seq<int>,
    n: int,
    v: int,
) -> int {
    let path = climb(t, order, n, order[n]);
    if Graph::visited(order, n, v) {
        order[g.source(order, position(order, v), links[position(order, v) - 1])]
    } else if !path.contains(v) {
        t.from[v]
    } else if position(path, v) == path.len() - 1 {
        order[g.source(order, n, links[n - 1])]
    } else {
        path[position(path, v) + 1]
    }
}

/// The rank of `v` after the exchange: the first `n` vertices of the run
/// by their place in it, then the climb from its lower end upwards, then all
/// others in their old order.
pub open spec fn new_rank(t: Tree, order: Seq<int>, n: int, v: int) -> int {
    let path = climb(t, order, n, order[n]);
    if Graph::visited(order, n, v) {
        position(order, v)
    } else if !path.contains(v) {
        t.rank[v] + n + path.len()
    } else {
        n + (path.len() - 1 - position(path, v))
    }
}

/// The tree after the exchange that brings the run's `n`-th vertex in by the
/// run's edge.
pub open spec fn regraft(g: Graph, t: Tree, order: Seq<int>, links: Seq<int>, n: int) -> Tree {
    Tree {
        link: Seq::new(g.adj.len(), |v: int| new_link(g, t, order, links, n, v)),
        from: Seq::new(g.adj.len(), |v: int| new_from(g, t, order, links, n, v)),
        rank: Seq::new(g.adj.len(), |v: int| new_rank(t, order, n, v)),
    }
}

/// Where an edge that leaves the first `i` vertices of `order` is listed.
pub proof fn lemma_source(g: Graph, order: Seq<int>, i: int, e: int)
    requires
        g.leaves(order, i, e),
    ensures
        0 <= g.source(order, i, e) < i,
        g.source(order, i, e) < order.len(),
        g.listed(order[g.source(order, i, e)], e),
{
    let (j, k) = choose|j: int, k: int|
        0 <= j < i && j < order.len() && 0 <= k < g.adj[order[j]].len() && #[trigger] g.edge_id(
            order[j],
            k,
        ) == e;
    assert(g.edge_id(order[j], k) == e);
}

/// The reverse of a listed edge of a symmetric graph.
pub proof fn lemma_reverse(g: Graph, u: int, e: int)
    requires
        g.symmetric(),
        0 <= u < g.adj.len(),
        g.listed(u, e),
    ensures
        g.listed(g.to(e), g.reverse(u, e)),
        g.to(g.reverse(u, e)) == u,
        g.weight(g.reverse(u, e)) == g.weight(e),
{
    let k0 = choose|k: int| 0 <= k < g.adj[u].len() && #[trigger] g.edge_id(u, k) == e;
    assert(g.has_reverse(u, g.edge_id(u, k0)));
    let k = choose|k: int|
        0 <= k < g.adj[g.to(e)].len() && g.to(#[trigger] g.edge_id(g.to(e), k)) == u && g.weight(
            g.edge_id(g.to(e), k),
        ) == g.weight(e);
    assert(g.edge_id(g.to(e), k) == g.reverse(u, e));
}

/// A vertex among the first `n` of a run has its place as its position.
pub proof fn lemma_visited_position(order: Seq<int>, n: int, v: int)
    requires
        distinct(order),
        0 <= n <= order.len(),
        Graph::visited(order, n, v),
    ensures
        0 <= position(order, v) < n,
        order[position(order, v)] == v,
{
    let j = choose|j: int| 0 <= j < n && j < order.len() && #[trigger] order[j] == v;
    lemma_position(order, j);
}

/// The vertex that the exchange brings in is outside the first `n`.
pub proof fn lemma_next_unvisited(order: Seq<int>, n: int)
    requires
        distinct(order),
        0 <= n < order.len(),
    ensures
        !Graph::visited(order, n, order[n]),
{
    if Graph::visited(order, n, order[n]) {
        let j = choose|j: int| 0 <= j < n && j < order.len() && #[trigger] order[j] == order[n];
        assert(order[j] != order[n]);
    }
}

/// After the exchange every vertex has a rank that is not negative, and
/// every vertex but the start is entered by a listed edge from a vertex of
/// lower rank.
pub proof fn lemma_regraft_vertex(
    g: Graph,
    start: int,
    order: Seq<int>,
    links: Seq<int>,
    t: Tree,
    n: int,
    v: int,
)
    requires
        grafting(g, start, order, links, t, n),
        0 <= v < g.adj.len(),
    ensures
        0 <= new_rank(t, order, n, v),
        v != start ==> {
            &&& 0 <= new_from(g, t, order, links, n, v) < g.adj.len()
            &&& g.listed(new_from(g, t, order, links, n, v), new_link(g, t, order, links, n, v))
            &&& g.to(new_link(g, t, order, links, n, v)) == v
            &&& new_rank(t, order, n, new_from(g, t, order, links, n, v)) < new_rank(
                t,
                order,
                n,
                v,
            )
        },
{
    let b = order[n];
    let path = climb(t, order, n, b);
    let m = path.len() - 1;
    assert(distinct(order));
    lemma_next_unvisited(order, n);
    assert(0 <= b < g.adj.len());
    lemma_climb(g, start, t, order, n, b);
    assert(Graph::visited(order, n, start)) by {
        assert(order[0] == start);
    }
    if Graph::visited(order, n, v) {
        lemma_visited_position(order, n, v);
        let j = position(order, v);
        if v != start {
            assert(j >= 1);
            assert(g.attaches(order, j, links[j - 1]));
            lemma_source(g, order, j, links[j - 1]);
            let sj = g.source(order, j, links[j - 1]);
            let u = order[sj];
            assert(0 <= u < g.adj.len());
            assert(t.link[order[j]] == links[j - 1]);
            assert(Graph::visited(order, n, u));
            lemma_position(order, sj);
        }
    } else if path.contains(v) {
        let l = position(path, v);
        assert(0 <= l < path.len() && path[l] == v);
        if l == m {
            assert(v == b);
            assert(g.attaches(order, n, links[n - 1]));
            lemma_source(g, order, n, links[n - 1]);
            let sj = g.source(order, n, links[n - 1]);
            let u = order[sj];
            assert(0 <= u < g.adj.len());
            assert(Graph::visited(order, n, u));
            lemma_position(order, sj);
        } else {
            let c = path[l + 1];
            assert(0 <= c < g.adj.len() && !Graph::visited(order, n, c));
            assert(c != start);
            assert(t.from[c] == path[l]);
            assert(0 <= t.from[c] < g.adj.len());
            lemma_reverse(g, v, t.link[c]);
            lemma_position(path, l + 1);
        }
    } else {
        if v != start {
            let p = t.from[v];
            assert(0 <= p < g.adj.len());
            assert(0 <= t.rank[p] < t.rank[v]);
            if Graph::visited(order, n, p) {
                lemma_visited_position(order, n, p);
            } else if path.contains(p) {
                let l = position(path, p);
                assert(0 <= l < path.len());
            }
        } else {
            assert(0 <= t.rank[v]);
        }
    }
}

/// The exchange gives a spanning tree that holds the first `n` attaching
/// edges of the run.
pub proof fn lemma_regraft_tree(
    g: Graph,
    start: int,
    order: Seq<int>,
    links: Seq<int>,
    t: Tree,
    n: int,
)
    requires
        grafting(g, start, order, links, t, n),
    ensures
        g.is_tree(start, regraft(g, t, order, links, n)),
{
    let t2 = regraft(g, t, order, links, n);
    assert(0 <= start < g.adj.len());
    assert forall|v: int| 0 <= v < g.adj.len() implies 0 <= #[trigger] t2.rank[v] by {
        lemma_regraft_vertex(g, start, order, links, t, n, v);
    }
    assert forall|v: int| 0 <= v < g.adj.len() && v != start implies {
        &&& 0 <= #[trigger] t2.from[v] < g.adj.len()
        &&& g.listed(t2.from[v], t2.link[v])
        &&& g.to(t2.link[v]) == v
        &&& t2.rank[t2.from[v]] < t2.rank[v]
    } by {
        lemma_regraft_vertex(g, start, order, links, t, n, v);
        let u = new_from(g, t, order, links, n, v);
        assert(t2.from[v] == u);
        assert(t2.link[v] == new_link(g, t, order, links, n, v));
        assert(t2.rank[v] == new_rank(t, order, n, v));
        assert(t2.rank[u] == new_rank(t, order, n, u));
    }
}

/// The link of the `j`-th vertex of the run after the exchange, for `j` up
/// to `n`, is the run's edge.
pub proof fn lemma_regraft_link(
    g: Graph,
    start: int,
    order: Seq<int>,
    links: Seq<int>,
    t: Tree,
    n: int,
    j: int,
)
    requires
        grafting(g, start, order, links, t, n),
        1 <= j <= n,
    ensures
        new_link(g, t, order, links, n, order[j]) == links[j - 1],
        0 <= order[j] < g.adj.len(),
{
    let b = order[n];
    let path = climb(t, order, n, b);
    assert(distinct(order));
    lemma_next_unvisited(order, n);
    assert(0 <= b < g.adj.len());
    assert(0 <= order[j] < g.adj.len());
    lemma_climb(g, start, t, order, n, b);
    if j < n {
        assert(Graph::visited(order, n, order[j]));
        assert(t.link[order[j]] == links[j - 1]);
    } else {
        lemma_position(path, path.len() - 1);
    }
}

/// The tree after the exchange holds the first `n` attaching edges of the run.
pub proof fn lemma_regraft_agrees(
    g: Graph,
    start: int,
    order: Seq<int>,
    links: Seq<int>,
    t: Tree,
    n: int,
)
    requires
        grafting(g, start, order, links, t, n),
    ensures
        agrees(regraft(g, t, order, links, n), order, links, n),
{
    let t2 = regraft(g, t, order, links, n);
    assert forall|j: int| 1 <= j <= n implies t2.link[#[trigger] order[j]] == links[j - 1] by {
        lemma_regraft_link(g, start, order, links, t, n, j);
    }
}

impl Graph {
    /// For each vertex the weight of the link that enters it; nothing for
    /// the start vertex.
    pub open spec fn link_weights(self, start: int, t: Tree) -> Seq<int> {
        Seq::new(
            self.adj.len(),
            |v: int|
                if v == start {
                    0
                } else {
                    self.weight(t.link[v])
                },
        )
    }

    /// The sum of the weights of the links of `t`.
    pub open spec fn tree_weight(self, start: int, t: Tree) -> int {
        sum(self.link_weights(start, t))
    }
}

/// The weight of the link that the exchange gives to the `l`-th vertex of
/// the climb: that of the run's edge for the last vertex, and for every
/// other vertex the old weight of the next one.
pub proof fn lemma_regraft_path_weight(
    g: Graph,
    start: int,
    order: Seq<int>,
    links: Seq<int>,
    t: Tree,
    n: int,
    l: int,
)
    requires
        grafting(g, start, order, links, t, n),
        0 <= l < climb(t, order, n, order[n]).len(),
    ensures
        climb(t, order, n, order[n])[l] != start,
        0 <= climb(t, order, n, order[n])[l] < g.adj.len(),
        l == climb(t, order, n, order[n]).len() - 1 ==> new_link(
            g,
            t,
            order,
            links,
            n,
            climb(t, order, n, order[n])[l],
        ) == links[n - 1],
        l < climb(t, order, n, order[n]).len() - 1 ==> g.weight(
            new_link(g, t, order, links, n, climb(t, order, n, order[n])[l]),
        ) == g.weight(t.link[climb(t, order, n, order[n])[l + 1]]),
{
    let b = order[n];
    let path = climb(t, order, n, b);
    let v = path[l];
    assert(distinct(order));
    lemma_next_unvisited(order, n);
    assert(0 <= b < g.adj.len());
    lemma_climb(g, start, t, order, n, b);
    assert(Graph::visited(order, n, start)) by {
        assert(order[0] == start);
    }
    assert(0 <= v < g.adj.len() && !Graph::visited(order, n, v));
    lemma_position(path, l);
    if l < path.len() - 1 {
        let c = path[l + 1];
        assert(0 <= c < g.adj.len() && !Graph::visited(order, n, c));
        assert(c != start);
        assert(t.from[c] == path[l]);
        assert(0 <= t.from[c] < g.adj.len());
        lemma_reverse(g, v, t.link[c]);
    }
}

/// The run's edge weighs no more than the link that enters the top of the climb.
pub proof fn lemma_regraft_crossing(
    g: Graph,
    start: int,
    order: Seq<int>,
    links: Seq<int>,
    t: Tree,
    n: int,
)
    requires
        grafting(g, start, order, links, t, n),
    ensures
        g.weight(links[n - 1]) <= g.weight(t.link[climb(t, order, n, order[n])[0]]),
{
    let b = order[n];
    let path = climb(t, order, n, b);
    let top = path[0];
    assert(distinct(order));
    lemma_next_unvisited(order, n);
    assert(0 <= b < g.adj.len());
    lemma_climb(g, start, t, order, n, b);
    assert(Graph::visited(order, n, start)) by {
        assert(order[0] == start);
    }
    assert(0 <= top < g.adj.len() && !Graph::visited(order, n, top));
    assert(top != start);
    let u = t.from[top];
    let f = t.link[top];
    assert(0 <= u < g.adj.len());
    assert(g.listed(u, f));
    assert(g.to(f) == top);
    let j = choose|j: int| 0 <= j < n && j < order.len() && #[trigger] order[j] == u;
    let k = choose|k: int| 0 <= k < g.adj[u].len() && #[trigger] g.edge_id(u, k) == f;
    assert(g.attaches(order, n, links[n - 1]));
    assert(g.edge_id(order[j], k) == f);
    assert(g.weight(links[n - 1]) <= g.weight(g.edge_id(order[j], k)));
}

/// The exchange does not make the tree heavier.
pub proof fn lemma_regraft_weight(
    g: Graph,
    start: int,
    order: Seq<int>,
    links: Seq<int>,
    t: Tree,
    n: int,
)
    requires
        grafting(g, start, order, links, t, n),
    ensures
        g.tree_weight(start, regraft(g, t, order, links, n)) <= g.tree_weight(start, t),
{
    let t2 = regraft(g, t, order, links, n);
    let b = order[n];
    let path = climb(t, order, n, b);
    let m = path.len() - 1;
    let w1 = g.link_weights(start, t);
    let w2 = g.link_weights(start, t2);
    assert(distinct(order));
    lemma_next_unvisited(order, n);
    assert(0 <= b < g.adj.len());
    lemma_climb(g, start, t, order, n, b);
    assert(distinct_below(path, w1.len() as int));
    assert forall|v: int| 0 <= v < w1.len() && !path.contains(v) implies #[trigger] w1[v]
        == w2[v] by {
        assert(t2.link[v] == new_link(g, t, order, links, n, v));
    }
    lemma_sum_change(w1, w2, path);
    let x = pick(w1, path);
    let y = pick(w2, path);
    let c = g.weight(links[n - 1]);
    assert forall|l: int| 0 <= l < x.len() - 1 implies #[trigger] y[l] == x[l + 1] by {
        lemma_regraft_path_weight(g, start, order, links, t, n, l);
        lemma_regraft_path_weight(g, start, order, links, t, n, l + 1);
        assert(t2.link[path[l]] == new_link(g, t, order, links, n, path[l]));
    }
    assert(y[y.len() - 1] == c) by {
        lemma_regraft_path_weight(g, start, order, links, t, n, m);
        assert(t2.link[path[m]] == new_link(g, t, order, links, n, path[m]));
    }
    lemma_shift_sum(x, y, c);
    lemma_regraft_crossing(g, start, order, links, t, n);
    lemma_regraft_path_weight(g, start, order, links, t, n, 0);
    assert(x[0] == g.weight(t.link[path[0]]));
}

/// A spanning tree that holds every attaching edge of a run over all
/// vertices weighs at least as much as the run.
pub proof fn lemma_agreeing_tree(g: Graph, start: int, order: Seq<int>, links: Seq<int>, t: Tree)
    requires
        g.is_run(start, order, links),
        g.is_tree(start, t),
        order.len() == g.adj.len(),
        agrees(t, order, links, order.len() - 1),
    ensures
        g.run_weight(links) <= g.tree_weight(start, t),
{
    let w = g.link_weights(start, t);
    let ids = Seq::new(links.len(), |j: int| order[j + 1]);
    assert(distinct_below(ids, w.len() as int)) by {
        assert forall|i: int| 0 <= i < ids.len() implies 0 <= #[trigger] ids[i] < w.len() by {
            assert(0 <= order[i + 1] < g.adj.len());
        }
        assert forall|i: int, j: int| 0 <= i < j < ids.len() implies ids[i] != ids[j] by {
            assert(order[i + 1] != order[j + 1]);
        }
    }
    assert(pick(w, ids) =~= Seq::new(links.len(), |j: int| g.weight(links[j]))) by {
        assert forall|j: int| 0 <= j < links.len() implies w[ids[j]] == g.weight(links[j]) by {
            assert(order[0] != order[j + 1]);
            assert(0 <= order[j + 1] < g.adj.len());
            assert(t.link[order[j + 1]] == links[j + 1 - 1]);
        }
    }
    lemma_run_weight_as_sum(g, links);
    lemma_pick_bound(w, ids);
}

/// A spanning tree that holds the first `i` attaching edges of a run over
/// all vertices weighs at least as much as the run.
pub proof fn lemma_exchange(
    g: Graph,
    start: int,
    order: Seq<int>,
    links: Seq<int>,
    t: Tree,
    i: int,
)
    requires
        g.valid(),
        g.symmetric(),
        g.is_run(start, order, links),
        g.is_tree(start, t),
        order.len() == g.adj.len(),
        0 <= i < order.len(),
        agrees(t, order, links, i),
    ensures
        g.run_weight(links) <= g.tree_weight(start, t),
    decreases order.len() - i,
{
    if i == order.len() - 1 {
        lemma_agreeing_tree(g, start, order, links, t);
    } else {
        let t2 = regraft(g, t, order, links, i + 1);
        lemma_regraft_tree(g, start, order, links, t, i + 1);
        lemma_regraft_agrees(g, start, order, links, t, i + 1);
        lemma_regraft_weight(g, start, order, links, t, i + 1);
        lemma_exchange(g, start, order, links, t2, i + 1);
    }
}

/// In a graph whose edges are listed in both directions, a run of Prim's
/// algorithm over all vertices weighs no more than any spanning tree.
pub proof fn lemma_run_is_lightest(
    g: Graph,
    start: int,
    order: Seq<int>,
    links: Seq<int>,
    t: Tree,
)
    requires
        g.valid(),
        g.symmetric(),
        g.is_run(start, order, links),
        order.len() == g.adj.len(),
        g.is_tree(start, t),
    ensures
        g.run_weight(links) <= g.tree_weight(start, t),
{
    lemma_exchange(g, start, order, links, t, 0);
}

impl Graph {
    /// Whether every link of `t` weighs less than the sentinel.
    pub open spec fn usable(self, start: int, t: Tree) -> bool {
        forall|v: int|
            0 <= v < self.adj.len() && v != start ==> self.weight(#[trigger] t.link[v]) < SENTINEL
    }

    /// The tree that a run over all vertices builds: each vertex is entered
    /// by its attaching edge, and its rank is its place in the run.
    pub open spec fn run_tree(self, order: Seq<int>, links: Seq<int>) -> Tree {
        Tree {
            link: Seq::new(self.adj.len(), |v: int| links[position(order, v) - 1]),
            from: Seq::new(
                self.adj.len(),
                |v: int|
                    order[self.source(order, position(order, v), links[position(order, v) - 1])],
            ),
            rank: Seq::new(self.adj.len(), |v: int| position(order, v)),
        }
    }
}

/// A run over all vertices passes every vertex.
pub proof fn lemma_run_covers(g: Graph, start: int, order: Seq<int>, links: Seq<int>, v: int)
    requires
        g.is_run(start, order, links),
        order.len() == g.adj.len(),
        0 <= v < g.adj.len(),
    ensures
        order.contains(v),
        0 <= position(order, v) < order.len(),
        order[position(order, v)] == v,
{
    assert(distinct_below(order, g.adj.len() as int));
    lemma_distinct_covers(order, g.adj.len(), v);
}

/// A run that is shorter than the number of vertices misses a vertex.
pub proof fn lemma_run_misses(g: Graph, start: int, order: Seq<int>, links: Seq<int>) -> (b: int)
    requires
        g.is_run(start, order, links),
        order.len() < g.adj.len(),
    ensures
        0 <= b < g.adj.len(),
        !order.contains(b),
{
    if forall|v: int| 0 <= v < g.adj.len() ==> order.contains(v) {
        let ids = Seq::new(g.adj.len(), |v: int| position(order, v));
        assert(distinct_below(ids, order.len() as int)) by {
            assert forall|i: int| 0 <= i < ids.len() implies 0 <= #[trigger] ids[i]
                < order.len() by {
                assert(order.contains(i));
            }
            assert forall|i: int, j: int| 0 <= i < j < ids.len() implies ids[i] != ids[j] by {
                assert(order.contains(i));
                assert(order.contains(j));
            }
        }
        lemma_distinct_length(ids, order.len());
        0
    } else {
        choose|v: int| 0 <= v < g.adj.len() && !order.contains(v)
    }
}

/// The tree that a run over all vertices builds is a spanning tree of
/// usable links that holds every attaching edge of the run.
pub proof fn lemma_run_tree(g: Graph, start: int, order: Seq<int>, links: Seq<int>)
    requires
        g.is_run(start, order, links),
        order.len() == g.adj.len(),
    ensures
        g.is_tree(start, g.run_tree(order, links)),
        g.usable(start, g.run_tree(order, links)),
        agrees(g.run_tree(order, links), order, links, order.len() - 1),
{
    let t = g.run_tree(order, links);
    assert(distinct(order));
    assert forall|v: int| 0 <= v < g.adj.len() implies 0 <= #[trigger] t.rank[v] by {
        lemma_run_covers(g, start, order, links, v);
    }
    assert forall|v: int| 0 <= v < g.adj.len() && v != start implies {
        &&& 0 <= #[trigger] t.from[v] < g.adj.len()
        &&& g.listed(t.from[v], t.link[v])
        &&& g.to(t.link[v]) == v
        &&& t.rank[t.from[v]] < t.rank[v]
    } by {
        lemma_run_covers(g, start, order, links, v);
        let j = position(order, v);
        assert(j >= 1);
        assert(g.attaches(order, j, links[j - 1]));
        lemma_source(g, order, j, links[j - 1]);
        let sj = g.source(order, j, links[j - 1]);
        assert(0 <= order[sj] < g.adj.len());
        lemma_position(order, sj);
    }
    assert forall|v: int| 0 <= v < g.adj.len() && v != start implies g.weight(
        #[trigger] t.link[v],
    ) < SENTINEL by {
        lemma_run_covers(g, start, order, links, v);
        let j = position(order, v);
        assert(j >= 1);
        assert(g.attaches(order, j, links[j - 1]));
    }
    assert forall|j: int| 1 <= j <= order.len() - 1 implies t.link[#[trigger] order[j]]
        == links[j - 1] by {
        assert(0 <= order[j] < g.adj.len());
        lemma_position(order, j);
    }
}

/// The tree that a run over all vertices builds weighs what the run weighs.
pub proof fn lemma_run_tree_weight(g: Graph, start: int, order: Seq<int>, links: Seq<int>)
    requires
        g.is_run(start, order, links),
        order.len() == g.adj.len(),
    ensures
        g.tree_weight(start, g.run_tree(order, links)) == g.run_weight(links),
{
    let t = g.run_tree(order, links);
    let w = g.link_weights(start, t);
    lemma_run_tree(g, start, order, links);
    lemma_agreeing_tree(g, start, order, links, t);
    let lw = Seq::new(links.len(), |j: int| g.weight(links[j]));
    let xs = seq![0int] + lw;
    let ids = Seq::new(g.adj.len(), |v: int| position(order, v));
    assert(distinct(order));
    assert(distinct_below(ids, xs.len() as int)) by {
        assert forall|i: int| 0 <= i < ids.len() implies 0 <= #[trigger] ids[i] < xs.len() by {
            lemma_run_covers(g, start, order, links, i);
        }
        assert forall|i: int, j: int| 0 <= i < j < ids.len() implies ids[i] != ids[j] by {
            lemma_run_covers(g, start, order, links, i);
            lemma_run_covers(g, start, order, links, j);
        }
    }
    assert(pick(xs, ids) =~= w) by {
        assert forall|v: int| 0 <= v < g.adj.len() implies xs[ids[v]] == w[v] by {
            lemma_run_covers(g, start, order, links, v);
            lemma_position(order, 0);
            let j = position(order, v);
            if j > 0 {
                assert(xs[j] == lw[j - 1]);
            }
        }
    }
    assert forall|i: int| 0 <= i < xs.len() implies 0 <= #[trigger] xs[i] by {
        if i > 0 {
            assert(xs[i] == lw[i - 1]);
        }
    }
    lemma_pick_bound(xs, ids);
    lemma_sum_front(0, lw);
    lemma_run_weight_as_sum(g, links);
}

/// Where a run has ended because its tree cannot grow, every spanning tree
/// has a link that weighs as much as the sentinel or more.
pub proof fn lemma_stuck_tree(g: Graph, start: int, order: Seq<int>, links: Seq<int>, t: Tree)
    requires
        g.valid(),
        g.is_run(start, order, links),
        order.len() < g.adj.len(),
        g.stuck(order),
        g.is_tree(start, t),
    ensures
        !g.usable(start, t),
{
    let b = lemma_run_misses(g, start, order, links);
    let n = order.len() as int;
    assert(!Graph::visited(order, n, b)) by {
        if Graph::visited(order, n, b) {
            let j = choose|j: int| 0 <= j < n && j < order.len() && #[trigger] order[j] == b;
            assert(order.contains(b));
        }
    }
    lemma_climb(g, start, t, order, n, b);
    let path = climb(t, order, n, b);
    let top = path[0];
    assert(0 <= top < g.adj.len() && !Graph::visited(order, n, top));
    assert(top != start) by {
        if top == start {
            assert(order[0] == top);
        }
    }
    let u = t.from[top];
    let f = t.link[top];
    assert(g.listed(u, f));
    let j = choose|j: int| 0 <= j < n && j < order.len() && #[trigger] order[j] == u;
    let k = choose|k: int| 0 <= k < g.adj[u].len() && #[trigger] g.edge_id(u, k) == f;
    assert(g.edge_id(order[j], k) == f);
    assert(!order.contains(g.to(f))) by {
        if order.contains(top) {
            let i = choose|i: int| 0 <= i < order.len() && order[i] == top;
            assert(order[i] == top);
        }
    }
    assert(g.weight(g.edge_id(order[j], k)) >= SENTINEL);
    assert(g.weight(t.link[top]) >= SENTINEL);
}

/// What an outcome says of the spanning trees of the graph.  Connected: the
/// weight is that of a spanning tree of usable links, and if every edge is
/// listed in both directions no spanning tree weighs less.  Not connected:
/// there is no spanning tree of usable links.
pub open spec fn minimal(g: Graph, start: int, out: OutcomeModel) -> bool {
    match out {
        OutcomeModel::Connected(w) => {
            &&& exists|t: Tree| #[trigger]
                g.is_tree(start, t) && g.usable(start, t) && g.tree_weight(start, t) == w
            &&& g.symmetric() ==> forall|t: Tree| #[trigger]
                g.is_tree(start, t) ==> w <= g.tree_weight(start, t)
        },
        OutcomeModel::NotConnected(_) => forall|t: Tree| #[trigger]
            g.is_tree(start, t) ==> !g.usable(start, t),
    }
}

/// The outcome of a run of Prim's algorithm says of the spanning trees what
/// `minimal` states.
pub proof fn lemma_justified_is_minimal(g: Graph, start: int, out: OutcomeModel)
    requires
        g.valid(),
        justified(g, start, out),
    ensures
        minimal(g, start, out),
{
    let (order, links) = choose|order: Seq<int>, links: Seq<int>| #[trigger]
        g.is_run(start, order, links) && match out {
            OutcomeModel::Connected(w) => order.len() == g.adj.len() && w == g.run_weight(links),
            OutcomeModel::NotConnected(w) => order.len() < g.adj.len() && g.stuck(order) && w
                == g.run_weight(links),
        };
    match out {
        OutcomeModel::Connected(w) => {
            let t0 = g.run_tree(order, links);
            lemma_run_tree(g, start, order, links);
            lemma_run_tree_weight(g, start, order, links);
            assert(g.is_tree(start, t0) && g.usable(start, t0) && g.tree_weight(start, t0) == w);
            if g.symmetric() {
                assert forall|t: Tree| #[trigger] g.is_tree(start, t) implies w <= g.tree_weight(
                    start,
                    t,
                ) by {
                    lemma_run_is_lightest(g, start, order, links, t);
                }
            }
        },
        OutcomeModel::NotConnected(_) => {
            assert forall|t: Tree| #[trigger] g.is_tree(start, t) implies !g.usable(start, t) by {
                lemma_stuck_tree(g, start, order, links, t);
            }
        },
    }
}

} // verus!
