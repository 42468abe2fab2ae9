//! What holds while the tree grows: the heap is the frontier of the tree
//! built so far, and every label in it is the weight of a lightest edge that
//! attaches its vertex to that tree.

use crate::graph::{lemma_run_weight_bound, Graph};
use crate::lemmas::{lemma_members_insert, lemma_members_remove};
use crate::model::{HeapModel, SENTINEL};
use vstd::prelude::*;

verus! {

/// The heap holds exactly the vertices outside `order`, each with its own
/// edge list and a label between zero and the sentinel.
pub open spec fn frontier(g: Graph, h: HeapModel, order: Seq<int>) -> bool {
    &&& h.wf()
    &&& h.exact()
    &&& h.indices.len() == g.adj.len()
    &&& h.data.len() + order.len() == g.adj.len()
    &&& forall|i: int| 0 <= i < order.len() ==> 0 <= #[trigger] order[i] < g.adj.len()
    &&& forall|u: int| 0 <= u < g.adj.len() ==> (#[trigger] h.contains(u) <==> !order.contains(u))
    &&& forall|u: int| #[trigger]
        h.contains(u) ==> h.vertex(u).edges == g.adj[u] && 0 <= h.vertex(u).label <= SENTINEL
}

/// No vertex in the heap has a label above the weight of an edge that leads
/// to it from one of the first `n` vertices of `order`.
pub open spec fn bounded(g: Graph, h: HeapModel, order: Seq<int>, n: int) -> bool {
    forall|j: int, k: int|
        0 <= j < n && 0 <= k < g.adj[order[j]].len() && h.contains(
            g.to(g.edge_id(order[j], k)),
        ) ==> h.vertex(g.to(g.edge_id(order[j], k))).label <= g.weight(
            #[trigger] g.edge_id(order[j], k),
        )
}

/// No vertex in the heap has a label above the weight of one of the first `k`
/// edges of `u` that leads to it.
pub open spec fn bounded_by(g: Graph, h: HeapModel, u: int, k: int) -> bool {
    forall|i: int|
        0 <= i < k && h.contains(g.to(g.edge_id(u, i))) ==> h.vertex(
            g.to(g.edge_id(u, i)),
        ).label <= g.weight(#[trigger] g.edge_id(u, i))
}

/// Every vertex in the heap, other than `start`, whose label is below the
/// sentinel has in `wit` an edge of that weight that leads to it from `order`.
pub open spec fn witnessed(
    g: Graph,
    h: HeapModel,
    order: Seq<int>,
    wit: Map<int, int>,
    start: int,
) -> bool {
    forall|u: int| #[trigger]
        h.contains(u) && u != start && h.vertex(u).label < SENTINEL ==> {
            &&& g.leaves(order, order.len() as int, wit[u])
            &&& g.to(wit[u]) == u
            &&& g.weight(wit[u]) == h.vertex(u).label
        }
}

/// What a sequence contains after a push.
proof fn lemma_push_contains(order: Seq<int>, u: int, x: int)
    ensures
        order.push(u).contains(x) <==> (order.contains(x) || x == u),
{
    let p = order.push(u);
    if order.contains(x) {
        let i = choose|i: int| 0 <= i < order.len() && order[i] == x;
        assert(p[i] == x);
    }
    if x == u {
        assert(p[order.len() as int] == x);
    }
    if p.contains(x) {
        let i = choose|i: int| 0 <= i < p.len() && p[i] == x;
        if i < order.len() {
            assert(order[i] == x);
        }
    }
}

/// A push does not change which vertices are among the first `i`.
proof fn lemma_visited_push(order: Seq<int>, u: int, i: int, x: int)
    requires
        0 <= i <= order.len(),
    ensures
        Graph::visited(order.push(u), i, x) == Graph::visited(order, i, x),
{
    let p = order.push(u);
    if Graph::visited(order, i, x) {
        let j = choose|j: int| 0 <= j < i && j < order.len() && #[trigger] order[j] == x;
        assert(p[j] == x);
    }
    if Graph::visited(p, i, x) {
        let j = choose|j: int| 0 <= j < i && j < p.len() && #[trigger] p[j] == x;
        assert(order[j] == x);
    }
}

/// The vertices among all of `order` are those that `order` contains.
proof fn lemma_visited_all(order: Seq<int>, x: int)
    ensures
        Graph::visited(order, order.len() as int, x) == order.contains(x),
{
    if order.contains(x) {
        let i = choose|i: int| 0 <= i < order.len() && order[i] == x;
        assert(order[i] == x);
    }
}

/// An edge that leaves the first `i` vertices still does so after a push,
/// and leaves the first `i + 1` as well.
proof fn lemma_leaves_push(g: Graph, order: Seq<int>, u: int, i: int, e: int)
    requires
        0 <= i <= order.len(),
        g.leaves(order, i, e),
    ensures
        g.leaves(order.push(u), i, e),
        g.leaves(order.push(u), i + 1, e),
{
    let p = order.push(u);
    let (j, k) = choose|j: int, k: int|
        0 <= j < i && j < order.len() && 0 <= k < g.adj[order[j]].len() && #[trigger] g.edge_id(
            order[j],
            k,
        ) == e;
    assert(p[j] == order[j]);
    assert(g.edge_id(p[j], k) == e);
}

/// An edge that attaches the `i`-th vertex still does so after a push.
proof fn lemma_attaches_push(g: Graph, order: Seq<int>, u: int, i: int, e: int)
    requires
        0 <= i < order.len(),
        g.attaches(order, i, e),
    ensures
        g.attaches(order.push(u), i, e),
{
    let p = order.push(u);
    lemma_leaves_push(g, order, u, i, e);
    assert forall|j: int, k: int|
        0 <= j < i && 0 <= k < g.adj[p[j]].len() && !Graph::visited(
            p,
            i,
            g.to(g.edge_id(p[j], k)),
        ) implies g.weight(e) <= g.weight(#[trigger] g.edge_id(p[j], k)) by {
        assert(p[j] == order[j]);
        lemma_visited_push(order, u, i, g.to(g.edge_id(order[j], k)));
        assert(g.weight(e) <= g.weight(g.edge_id(order[j], k)));
    }
}

/// A run grows by a vertex outside it and an edge that attaches that vertex.
proof fn lemma_run_push(g: Graph, start: int, order: Seq<int>, links: Seq<int>, u: int, e: int)
    requires
        g.is_run(start, order, links),
        0 <= u < g.adj.len(),
        !order.contains(u),
        g.attaches(order.push(u), order.len() as int, e),
    ensures
        g.is_run(start, order.push(u), links.push(e)),
        g.run_weight(links.push(e)) == g.run_weight(links) + g.weight(e),
{
    let p = order.push(u);
    let l = links.push(e);
    assert(l.drop_last() =~= links);
    assert forall|i: int, j: int| 0 <= i < j < p.len() implies p[i] != p[j] by {
        if j == order.len() {
            assert(order[i] == p[i]);
        } else {
            assert(order[i] != order[j]);
        }
    }
    assert forall|i: int| 1 <= i < p.len() implies g.attaches(p, i, #[trigger] l[i - 1]) by {
        if i < order.len() {
            assert(g.attaches(order, i, links[i - 1]));
            lemma_attaches_push(g, order, u, i, links[i - 1]);
        }
    }
    assert forall|i: int| 0 <= i < p.len() implies 0 <= #[trigger] p[i] < g.adj.len() by {
        if i < order.len() {
            assert(0 <= order[i] < g.adj.len());
        }
    }
}

/// The run that holds the start vertex alone.
proof fn lemma_run_start(g: Graph, start: int)
    requires
        0 <= start < g.adj.len(),
    ensures
        g.is_run(start, seq![start], Seq::<int>::empty()),
        g.run_weight(Seq::<int>::empty()) == 0,
{
}

/// What holds between two extractions: the heap is the frontier of the tree
/// on `order`, whose weight is `dist`; before the first extraction only the
/// start vertex has a label below the sentinel, afterwards `order` is a run
/// and the labels are the lightest attaching weights.
pub open spec fn growing(
    g: Graph,
    start: int,
    h: HeapModel,
    order: Seq<int>,
    links: Seq<int>,
    wit: Map<int, int>,
    dist: int,
) -> bool {
    &&& g.valid()
    &&& 0 <= start < g.adj.len()
    &&& frontier(g, h, order)
    &&& order.len() == 0 ==> {
        &&& links.len() == 0
        &&& h.contains(start)
        &&& h.vertex(start).label == 0
        &&& forall|u: int| #[trigger] h.contains(u) && u != start ==> h.vertex(u).label == SENTINEL
    }
    &&& order.len() > 0 ==> g.is_run(start, order, links)
    &&& bounded(g, h, order, order.len() as int)
    &&& witnessed(g, h, order, wit, start)
    &&& dist == g.run_weight(links)
}

/// What holds while the edges of the vertex extracted last are looked at,
/// before the `k`-th of them.
pub open spec fn relaxing(
    g: Graph,
    start: int,
    h: HeapModel,
    order: Seq<int>,
    links: Seq<int>,
    wit: Map<int, int>,
    dist: int,
    k: int,
) -> bool {
    &&& g.valid()
    &&& 0 <= start < g.adj.len()
    &&& frontier(g, h, order)
    &&& g.is_run(start, order, links)
    &&& bounded(g, h, order, order.len() - 1)
    &&& bounded_by(g, h, order.last(), k)
    &&& witnessed(g, h, order, wit, start)
    &&& dist == g.run_weight(links)
    &&& 0 <= k <= g.adj[order.last()].len()
}

/// The tree on `order` after the vertex `u` left the heap.
pub open spec fn next_order(order: Seq<int>, u: int) -> Seq<int> {
    order.push(u)
}

/// The attaching edges after the vertex `u` left the heap.
pub open spec fn next_links(order: Seq<int>, links: Seq<int>, wit: Map<int, int>, u: int) -> Seq<
    int,
> {
    if order.len() == 0 {
        links
    } else {
        links.push(wit[u])
    }
}

/// When the smallest label in the heap is the sentinel, a vertex was
/// extracted before and the tree cannot grow.
pub proof fn lemma_stuck(
    g: Graph,
    start: int,
    h: HeapModel,
    order: Seq<int>,
    links: Seq<int>,
    wit: Map<int, int>,
    dist: int,
)
    requires
        growing(g, start, h, order, links, wit, dist),
        h.data.len() > 0,
        forall|n: int| h.contains(n) ==> SENTINEL <= (#[trigger] h.vertex(n)).label,
    ensures
        g.is_run(start, order, links),
        g.stuck(order),
        order.len() < g.adj.len(),
{
    if order.len() == 0 {
        assert(SENTINEL <= h.vertex(start).label);
    }
    assert forall|j: int, k: int|
        0 <= j < order.len() && 0 <= k < g.adj[order[j]].len() && !order.contains(
            g.to(g.edge_id(order[j], k)),
        ) implies g.weight(#[trigger] g.edge_id(order[j], k)) >= SENTINEL by {
        let x = g.to(g.edge_id(order[j], k));
        assert(0 <= order[j] < g.adj.len());
        assert(h.contains(x));
        assert(SENTINEL <= h.vertex(x).label);
    }
}

/// The extraction of `u`, whose label is the smallest in the heap and below
/// the sentinel: the tree grows by `u`, its weight by that label.
pub proof fn lemma_extract_step(
    g: Graph,
    start: int,
    h1: HeapModel,
    h2: HeapModel,
    order: Seq<int>,
    links: Seq<int>,
    wit: Map<int, int>,
    dist: int,
    u: int,
)
    requires
        growing(g, start, h1, order, links, wit, dist),
        h1.contains(u),
        h1.vertex(u).label < SENTINEL,
        forall|n: int| h1.contains(n) ==> h1.vertex(u).label <= (#[trigger] h1.vertex(n)).label,
        h2.wf(),
        h2.exact(),
        h2.members() == h1.members().remove(u),
        h2.data.len() == h1.data.len() - 1,
        h2.indices.len() == h1.indices.len(),
    ensures
        relaxing(
            g,
            start,
            h2,
            next_order(order, u),
            next_links(order, links, wit, u),
            wit,
            dist + h1.vertex(u).label,
            0,
        ),
        0 <= dist + h1.vertex(u).label <= g.total_weight(),
{
    let label = h1.vertex(u).label;
    let order2 = next_order(order, u);
    let links2 = next_links(order, links, wit, u);
    let n = order.len() as int;
    lemma_members_remove(h1, h2, u);
    if n == 0 {
        if u != start {
            assert(label <= h1.vertex(start).label);
        }
        lemma_run_start(g, start);
        assert(order2 =~= seq![start]);
        assert(links2 =~= Seq::<int>::empty());
    } else {
        let e = wit[u];
        assert(order[0] == start);
        assert(order.contains(start));
        assert(u != start);
        lemma_leaves_push(g, order, u, n, e);
        assert(g.attaches(order2, n, e)) by {
            assert forall|j: int, k: int|
                0 <= j < n && 0 <= k < g.adj[order2[j]].len() && !Graph::visited(
                    order2,
                    n,
                    g.to(g.edge_id(order2[j], k)),
                ) implies g.weight(e) <= g.weight(#[trigger] g.edge_id(order2[j], k)) by {
                assert(order2[j] == order[j]);
                assert(0 <= order[j] < g.adj.len());
                let x = g.to(g.edge_id(order[j], k));
                lemma_visited_push(order, u, n, x);
                lemma_visited_all(order, x);
                assert(h1.contains(x));
                assert(label <= h1.vertex(x).label);
            }
        }
        lemma_run_push(g, start, order, links, u, e);
    }
    lemma_run_weight_bound(g, start, order2, links2);
    assert forall|i: int| 0 <= i < order2.len() implies 0 <= #[trigger] order2[i]
        < g.adj.len() by {
        if i < n {
            assert(order2[i] == order[i]);
        }
    }
    assert forall|x: int| 0 <= x < g.adj.len() implies (#[trigger] h2.contains(x)
        <==> !order2.contains(x)) by {
        lemma_push_contains(order, u, x);
        assert(h1.contains(x) <==> !order.contains(x));
    }
    assert forall|x: int| #[trigger] h2.contains(x) implies h2.vertex(x).edges == g.adj[x] && 0
        <= h2.vertex(x).label <= SENTINEL by {
        assert(h1.contains(x));
    }
    assert(frontier(g, h2, order2));
    assert(witnessed(g, h2, order2, wit, start)) by {
        assert forall|x: int| #[trigger]
            h2.contains(x) && x != start && h2.vertex(x).label < SENTINEL implies {
            &&& g.leaves(order2, order2.len() as int, wit[x])
            &&& g.to(wit[x]) == x
            &&& g.weight(wit[x]) == h2.vertex(x).label
        } by {
            assert(h1.contains(x));
            lemma_leaves_push(g, order, u, n, wit[x]);
        }
    }
    assert(bounded(g, h2, order2, order2.len() - 1)) by {
        assert forall|j: int, k: int|
            0 <= j < order2.len() - 1 && 0 <= k < g.adj[order2[j]].len() && h2.contains(
                g.to(g.edge_id(order2[j], k)),
            ) implies h2.vertex(g.to(g.edge_id(order2[j], k))).label <= g.weight(
            #[trigger] g.edge_id(order2[j], k),
        ) by {
            assert(order2[j] == order[j]);
            assert(h1.contains(g.to(g.edge_id(order[j], k))));
        }
    }
    assert(order2.last() == u);
    assert(bounded_by(g, h2, order2.last(), 0));
}

/// Looking at an edge that changes nothing: it leads to a vertex outside the
/// heap, or to one whose label is not above the edge's weight.
pub proof fn lemma_relax_skip(
    g: Graph,
    start: int,
    h: HeapModel,
    order: Seq<int>,
    links: Seq<int>,
    wit: Map<int, int>,
    dist: int,
    k: int,
)
    requires
        relaxing(g, start, h, order, links, wit, dist, k),
        k < g.adj[order.last()].len(),
        h.contains(g.to(g.edge_id(order.last(), k))) ==> h.vertex(
            g.to(g.edge_id(order.last(), k)),
        ).label <= g.weight(g.edge_id(order.last(), k)),
    ensures
        relaxing(g, start, h, order, links, wit, dist, k + 1),
{
}

/// Looking at an edge that lowers the label of the vertex it leads to.
pub proof fn lemma_relax_lower(
    g: Graph,
    start: int,
    hb: HeapModel,
    ha: HeapModel,
    order: Seq<int>,
    links: Seq<int>,
    wit: Map<int, int>,
    dist: int,
    k: int,
)
    requires
        relaxing(g, start, hb, order, links, wit, dist, k),
        k < g.adj[order.last()].len(),
        hb.contains(g.to(g.edge_id(order.last(), k))),
        0 <= g.weight(g.edge_id(order.last(), k)) < hb.vertex(
            g.to(g.edge_id(order.last(), k)),
        ).label,
        ha.wf(),
        ha.exact(),
        ha.members() == hb.members().insert(
            g.to(g.edge_id(order.last(), k)),
            hb.vertex(g.to(g.edge_id(order.last(), k))).relabel(
                g.weight(g.edge_id(order.last(), k)),
            ),
        ),
        ha.data.len() == hb.data.len(),
        ha.indices.len() == hb.indices.len(),
    ensures
        relaxing(
            g,
            start,
            ha,
            order,
            links,
            wit.insert(g.to(g.edge_id(order.last(), k)), g.edge_id(order.last(), k)),
            dist,
            k + 1,
        ),
{
    let u = order.last();
    let e = g.edge_id(u, k);
    let to = g.to(e);
    let w = g.weight(e);
    let wit2 = wit.insert(to, e);
    lemma_members_insert(hb, ha, to, hb.vertex(to).relabel(w));
    assert(order[0] == start);
    assert(order.contains(start));
    assert(to != start);
    assert(g.leaves(order, order.len() as int, e)) by {
        assert(g.edge_id(order[order.len() - 1], k) == e);
    }
    assert forall|x: int| 0 <= x < g.adj.len() implies (#[trigger] ha.contains(x)
        <==> !order.contains(x)) by {
        assert(hb.contains(x) <==> !order.contains(x));
    }
    assert forall|x: int| #[trigger] ha.contains(x) implies ha.vertex(x).edges == g.adj[x] && 0
        <= ha.vertex(x).label <= SENTINEL by {
        assert(hb.contains(x));
    }
    assert(frontier(g, ha, order));
    assert(bounded(g, ha, order, order.len() - 1)) by {
        assert forall|j: int, i: int|
            0 <= j < order.len() - 1 && 0 <= i < g.adj[order[j]].len() && ha.contains(
                g.to(g.edge_id(order[j], i)),
            ) implies ha.vertex(g.to(g.edge_id(order[j], i))).label <= g.weight(
            #[trigger] g.edge_id(order[j], i),
        ) by {
            assert(hb.contains(g.to(g.edge_id(order[j], i))));
        }
    }
    assert(bounded_by(g, ha, u, k + 1)) by {
        assert forall|i: int|
            0 <= i < k + 1 && ha.contains(g.to(g.edge_id(u, i))) implies ha.vertex(
            g.to(g.edge_id(u, i)),
        ).label <= g.weight(#[trigger] g.edge_id(u, i)) by {
            assert(hb.contains(g.to(g.edge_id(u, i))));
        }
    }
    assert(witnessed(g, ha, order, wit2, start)) by {
        assert forall|x: int| #[trigger]
            ha.contains(x) && x != start && ha.vertex(x).label < SENTINEL implies {
            &&& g.leaves(order, order.len() as int, wit2[x])
            &&& g.to(wit2[x]) == x
            &&& g.weight(wit2[x]) == ha.vertex(x).label
        } by {
            assert(hb.contains(x));
        }
    }
}

/// When all edges of the vertex extracted last were looked at, the labels are
/// again the lightest attaching weights.
pub proof fn lemma_relax_done(
    g: Graph,
    start: int,
    h: HeapModel,
    order: Seq<int>,
    links: Seq<int>,
    wit: Map<int, int>,
    dist: int,
)
    requires
        relaxing(g, start, h, order, links, wit, dist, g.adj[order.last()].len() as int),
    ensures
        growing(g, start, h, order, links, wit, dist),
{
    let u = order.last();
    assert forall|j: int, i: int|
        0 <= j < order.len() && 0 <= i < g.adj[order[j]].len() && h.contains(
            g.to(g.edge_id(order[j], i)),
        ) implies h.vertex(g.to(g.edge_id(order[j], i))).label <= g.weight(
        #[trigger] g.edge_id(order[j], i),
    ) by {
        if j == order.len() - 1 {
            assert(h.vertex(g.to(g.edge_id(u, i))).label <= g.weight(g.edge_id(u, i)));
        }
    }
}

/// The state before the first extraction.
pub proof fn lemma_start(g: Graph, start: int, h0: HeapModel, h: HeapModel)
    requires
        g.adj.len() == h0.indices.len(),
        forall|u: int| 0 <= u < g.adj.len() ==> #[trigger] g.adj[u] == h0.vertex(u).edges,
        g.valid(),
        h0.wf(),
        h0.full(),
        h0.all_labelled(SENTINEL as int),
        0 <= start < h0.indices.len(),
        h.wf(),
        h.exact(),
        h.members() == h0.members().insert(start, h0.vertex(start).relabel(0)),
        h.data.len() == h0.data.len(),
        h.indices.len() == h0.indices.len(),
    ensures
        growing(g, start, h, Seq::<int>::empty(), Seq::<int>::empty(), Map::<int, int>::empty(), 0),
{
    let order = Seq::<int>::empty();
    lemma_members_insert(h0, h, start, h0.vertex(start).relabel(0));
    assert forall|u: int| #[trigger] h.contains(u) implies h.vertex(u).edges == g.adj[u] && 0
        <= h.vertex(u).label <= SENTINEL && (u != start ==> h.vertex(u).label == SENTINEL) by {
        assert(h0.contains(u));
        assert(h0.data[h0.indices[u]].label == SENTINEL);
        assert(g.adj[u] == h0.vertex(u).edges);
    }
    assert forall|u: int| 0 <= u < g.adj.len() implies (#[trigger] h.contains(u)
        <==> !order.contains(u)) by {
        assert(h0.contains(u));
    }
    assert(h0.contains(start));
}

} // verus!
