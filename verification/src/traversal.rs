//! Prim's traversal: the vertices leave the heap in order of their labels,
//! each adds its label to the total and lowers the labels of its neighbours
//! that are still in the heap.

use crate::graph::{
    graph_of, lemma_weight_le_sum, lemma_weight_sum_take, weight_sum, Edge, Graph,
};
use crate::growth::{
    growing, lemma_extract_step, lemma_relax_done, lemma_relax_lower, lemma_relax_skip,
    lemma_start, lemma_stuck, next_links, next_order, relaxing,
};
use crate::heap::{decrease_key, heap_extract, Heap};
use crate::lemmas::lemma_full_exact;
use crate::model::{HeapModel, SENTINEL};
use crate::spanning::{lemma_justified_is_minimal, minimal};
use vstd::prelude::*;

verus! {

/// What a traversal found.
#[derive(Clone, Copy, Debug, PartialEq, Eq)]
pub enum Outcome {
    /// Every vertex was reached; the total weight of the tree.
    Connected(i32),
    /// Some vertex cannot be reached from the start; the weight of the tree
    /// on the vertices that were reached.
    NotConnected(i32),
}

/// An outcome with its weight as a mathematical integer.
pub enum OutcomeModel {
    Connected(int),
    NotConnected(int),
}

impl View for Outcome {
    type V = OutcomeModel;

    open spec fn view(&self) -> OutcomeModel {
        match *self {
            Outcome::Connected(w) => OutcomeModel::Connected(w as int),
            Outcome::NotConnected(w) => OutcomeModel::NotConnected(w as int),
        }
    }
}

/// The heap after one edge was looked at: if the vertex it leads to is still
/// in the heap and the edge weighs less than that vertex's label, the label
/// is lowered to the weight.
pub open spec fn relax_one(h: HeapModel, e: Edge) -> HeapModel {
    let to = e.to as int;
    if h.indices[to] < h.data.len() && (e.val as int) < h.data[h.indices[to]].label {
        h.decrease_key(to, e.val as int)
    } else {
        h
    }
}

/// The heap after the edges `list[k..]` were looked at in turn.
pub open spec fn relax(h: HeapModel, edges: Seq<Edge>, list: Seq<usize>, k: int) -> HeapModel
    decreases list.len() - k,
{
    if 0 <= k < list.len() {
        relax(relax_one(h, edges[list[k] as int]), edges, list, k + 1)
    } else {
        h
    }
}

/// The outcome of the traversal that goes on from heap `h` with the total
/// `dist`, for at most `steps` extractions.
pub open spec fn run_from(h: HeapModel, edges: Seq<Edge>, dist: int, steps: nat) -> OutcomeModel
    decreases steps,
{
    if steps == 0 || h.data.len() == 0 {
        OutcomeModel::Connected(dist)
    } else if h.min().label == SENTINEL {
        OutcomeModel::NotConnected(dist)
    } else {
        run_from(
            relax(h.remove_min(), edges, h.min().edges, 0),
            edges,
            dist + h.min().label,
            (steps - 1) as nat,
        )
    }
}

/// The outcome of the traversal of heap `h` from the vertex `start`.
pub open spec fn traversal(h: HeapModel, edges: Seq<Edge>, start: int) -> OutcomeModel {
    run_from(h.decrease_key(start, 0), edges, 0, h.data.len())
}

/// Whether an outcome is that of a run of Prim's algorithm on `g` from
/// `start`: a run over all vertices with the reported weight, or a run that
/// ends before all vertices are reached because the tree cannot grow, with
/// the weight of that tree.
pub open spec fn justified(g: Graph, start: int, out: OutcomeModel) -> bool {
    exists|order: Seq<int>, links: Seq<int>| #[trigger]
        g.is_run(start, order, links) && match out {
            OutcomeModel::Connected(w) => order.len() == g.adj.len() && w == g.run_weight(links),
            OutcomeModel::NotConnected(w) => order.len() < g.adj.len() && g.stuck(order) && w
                == g.run_weight(links),
        }
}

/// Whether heap, edges and start vertex can be traversed: the heap is
/// well-formed and contains every vertex with the sentinel label, `start` is
/// one of them, every edge listed at a vertex exists and leads to a vertex,
/// and the weights of all edges together do not exceed the sentinel.
pub open spec fn ready(h: HeapModel, edges: Seq<Edge>, start: int) -> bool {
    &&& h.wf()
    &&& h.full()
    &&& h.all_labelled(SENTINEL as int)
    &&& 0 <= start < h.indices.len()
    &&& graph_of(h, edges).valid()
    &&& graph_of(h, edges).total_weight() <= SENTINEL
}

/// Decides whether heap, edges and start vertex can be traversed.
pub fn can_traverse(heap: &Heap, edges: &Vec<Edge>, start_v: usize) -> (ok: bool)
    ensures
        ok == ready(heap@, edges@, start_v as int),
{
    let ghost h = heap@;
    let ghost g = graph_of(h, edges@);
    let n = heap.indices.len();
    if heap.data.len() != n || start_v >= n {
        return false;
    }
    let mut i: usize = 0;
    while i < n
        invariant
            i <= n,
            h == heap@,
            n == heap.indices.len(),
            n == heap.data.len(),
            forall|p: int|
                0 <= p < i ==> {
                    &&& 0 <= (#[trigger] h.data[p]).name < n
                    &&& h.indices[h.data[p].name] == p
                    &&& h.data[p].label == SENTINEL
                },
            forall|u: int| 0 <= u < i ==> #[trigger] h.contains(u),
        decreases n - i,
    {
        let name = heap.data[i].name;
        if name >= n || heap.indices[name] != i || heap.data[i].label != SENTINEL {
            assert(!(h.indexed() && h.all_labelled(SENTINEL as int))) by {
                let p = i as int;
                assert(h.data[p].name == name);
            }
            return false;
        }
        let idx = heap.indices[i];
        if idx >= n || heap.data[idx].name != i {
            assert(!h.contains(i as int));
            return false;
        }
        i += 1;
    }
    assert(h.ordered()) by {
        assert forall|p: int| 0 < p < h.data.len() implies h.data[crate::model::parent(p)].label
            <= (#[trigger] h.data[p]).label by {
            assert(h.data[crate::model::parent(p)].label == SENTINEL);
        }
    }
    assert(h.wf() && h.full() && h.all_labelled(SENTINEL as int));
    let mut u: usize = 0;
    while u < n
        invariant
            u <= n,
            h == heap@,
            g == graph_of(h, edges@),
            n == heap.indices.len(),
            n == heap.data.len(),
            h.full(),
            forall|x: int, k: int|
                0 <= x < u && 0 <= k < g.adj[x].len() ==> {
                    &&& 0 <= #[trigger] g.edge_id(x, k) < g.edges.len()
                    &&& 0 <= g.to(g.edge_id(x, k)) < g.adj.len()
                },
        decreases n - u,
    {
        assert(h.contains(u as int));
        let slot = heap.indices[u];
        let mut k: usize = 0;
        while k < heap.data[slot].edges.len()
            invariant
                u < n,
                slot < heap.data.len(),
                h == heap@,
                g == graph_of(h, edges@),
                n == heap.indices.len(),
                k <= heap.data[slot as int].edges.len(),
                g.adj[u as int] == heap.data[slot as int].edges@,
                forall|j: int|
                    0 <= j < k ==> {
                        &&& 0 <= #[trigger] g.edge_id(u as int, j) < g.edges.len()
                        &&& 0 <= g.to(g.edge_id(u as int, j)) < g.adj.len()
                    },
            decreases heap.data[slot as int].edges.len() - k,
        {
            let id = heap.data[slot].edges[k];
            if id >= edges.len() || edges[id].to >= n {
                assert(!g.valid()) by {
                    assert(g.edge_id(u as int, k as int) == id);
                }
                return false;
            }
            k += 1;
        }
        u += 1;
    }
    assert(g.valid());
    let mut total: usize = 0;
    let mut j: usize = 0;
    assert(edges@.take(0) =~= Seq::<Edge>::empty());
    while j < edges.len()
        invariant
            j <= edges.len(),
            total == weight_sum(edges@.take(j as int)),
            total <= SENTINEL,
        decreases edges.len() - j,
    {
        let w = edges[j].val;
        proof {
            assert(edges@.take(j + 1).drop_last() =~= edges@.take(j as int));
            lemma_weight_sum_take(edges@, j + 1);
        }
        if w > (SENTINEL as usize) - total {
            return false;
        }
        total = total + w;
        j += 1;
    }
    assert(edges@.take(edges.len() as int) =~= edges@);
    true
}

/// Prim's traversal from `start_v` over a heap that contains every vertex
/// with the sentinel label.  Each vertex that leaves the heap with a label
/// below the sentinel adds that label to the total; the first one that leaves
/// with the sentinel ends the traversal as not connected.
pub fn prim(heap: Heap, edges: Vec<Edge>, start_v: usize) -> (res: Outcome)
    requires
        ready(heap@, edges@, start_v as int),
    ensures
        res@ == traversal(heap@, edges@, start_v as int),
        justified(graph_of(heap@, edges@), start_v as int, res@),
        minimal(graph_of(heap@, edges@), start_v as int, res@),
{
    let ghost h0 = heap@;
    let ghost g = graph_of(h0, edges@);
    let ghost start = start_v as int;
    let ghost mut order: Seq<int> = Seq::empty();
    let ghost mut links: Seq<int> = Seq::empty();
    let ghost mut wit: Map<int, int> = Map::empty();
    let mut queue = heap;
    proof {
        lemma_full_exact(h0);
        assert(h0.contains(start));
    }
    decrease_key(&mut queue, start_v, 0);
    let mut dist: i32 = 0;
    proof {
        lemma_start(g, start, h0, queue@);
    }
    while queue.data.len() > 0
        invariant
            h0 == heap@,
            g == graph_of(h0, edges@),
            g.total_weight() <= SENTINEL,
            start == start_v as int,
            growing(g, start, queue@, order, links, wit, dist as int),
            run_from(queue@, edges@, dist as int, queue.data.len() as nat) == traversal(
                h0,
                edges@,
                start,
            ),
        decreases queue.data.len(),
    {
        let ghost h1 = queue@;
        let v = heap_extract(&mut queue).unwrap();
        let ghost h2 = queue@;
        let ghost u = v.name as int;
        if v.label == SENTINEL {
            proof {
                lemma_stuck(g, start, h1, order, links, wit, dist as int);
                assert(justified(g, start, OutcomeModel::NotConnected(dist as int)));
                lemma_justified_is_minimal(g, start, OutcomeModel::NotConnected(dist as int));
            }
            return Outcome::NotConnected(dist);
        }
        proof {
            lemma_extract_step(g, start, h1, h2, order, links, wit, dist as int, u);
            links = next_links(order, links, wit, u);
            order = next_order(order, u);
        }
        dist = dist + v.label;
        let mut k: usize = 0;
        while k < v.edges.len()
            invariant
                k <= v.edges.len(),
                v.edges@ == g.adj[u],
                order.last() == u,
                g == graph_of(h0, edges@),
                g.total_weight() <= SENTINEL,
                relaxing(g, start, queue@, order, links, wit, dist as int, k as int),
                relax(queue@, edges@, v.edges@, k as int) == relax(h2, edges@, v.edges@, 0),
                queue.data.len() == h2.data.len(),
            decreases v.edges.len() - k,
        {
            let ghost hb = queue@;
            let e = v.edges[k];
            proof {
                assert(0 <= u < g.adj.len());
                assert(0 <= g.edge_id(u, k as int) < g.edges.len());
                lemma_weight_le_sum(edges@, e as int);
            }
            let to = edges[e].to;
            let idx = queue.indices[to];
            if idx < queue.data.len() && (edges[e].val as i32) < queue.data[idx].label {
                let new_dist = edges[e].val as i32;
                assert(hb.contains(to as int));
                decrease_key(&mut queue, to, new_dist);
                proof {
                    lemma_relax_lower(
                        g,
                        start,
                        hb,
                        queue@,
                        order,
                        links,
                        wit,
                        dist as int,
                        k as int,
                    );
                    wit = wit.insert(to as int, e as int);
                }
            } else {
                proof {
                    lemma_relax_skip(g, start, hb, order, links, wit, dist as int, k as int);
                }
            }
            assert(queue@ == relax_one(hb, edges@[e as int]));
            k += 1;
        }
        proof {
            lemma_relax_done(g, start, queue@, order, links, wit, dist as int);
        }
    }
    proof {
        assert(order.len() == g.adj.len());
        assert(g.is_run(start, order, links));
        assert(justified(g, start, OutcomeModel::Connected(dist as int)));
        lemma_justified_is_minimal(g, start, OutcomeModel::Connected(dist as int));
    }
    Outcome::Connected(dist)
}

} // verus!
