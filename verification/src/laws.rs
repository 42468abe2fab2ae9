//! Laws of the heap and of the traversal, stated over the models.

use crate::graph::Edge;
use crate::lemmas::{
    lemma_decrease_key, lemma_insert, lemma_members_insert, lemma_members_remove,
    lemma_remove_min, lemma_root_is_min,
};
use crate::model::{HeapModel, VertModel};
use crate::traversal::{traversal, Outcome};
use vstd::prelude::*;

verus! {

/// An operation on the heap.
pub enum Op {
    /// Insert the vertex.
    Insert(VertModel),
    /// Give the vertex of this name this label.
    DecreaseKey(int, int),
    /// Remove the root.
    ExtractMin,
}

/// Whether `op` may be applied to `h`: an inserted vertex has the next free
/// name, and a decreased key is in the heap and its label does not rise.
/// An extraction may always be tried.
pub open spec fn allowed(h: HeapModel, op: Op) -> bool {
    match op {
        Op::Insert(v) => v.name == h.indices.len(),
        Op::DecreaseKey(key, label) => h.contains(key) && label <= h.vertex(key).label,
        Op::ExtractMin => true,
    }
}

/// The heap after `op`.  An extraction from the empty heap changes nothing.
pub open spec fn apply(h: HeapModel, op: Op) -> HeapModel {
    match op {
        Op::Insert(v) => h.insert(v),
        Op::DecreaseKey(key, label) => h.decrease_key(key, label),
        Op::ExtractMin => if h.data.len() > 0 {
            h.remove_min()
        } else {
            h
        },
    }
}

/// Whether each of `ops` may be applied in turn, starting from `h`.
pub open spec fn allowed_all(h: HeapModel, ops: Seq<Op>) -> bool
    decreases ops.len(),
{
    ops.len() == 0 || (allowed(h, ops[0]) && allowed_all(apply(h, ops[0]), ops.drop_first()))
}

/// The heap after `ops` were applied in turn, starting from `h`.
pub open spec fn apply_all(h: HeapModel, ops: Seq<Op>) -> HeapModel
    decreases ops.len(),
{
    if ops.len() == 0 {
        h
    } else {
        apply_all(apply(h, ops[0]), ops.drop_first())
    }
}

/// The heap that holds nothing.
pub open spec fn empty_heap() -> HeapModel {
    HeapModel { indices: Seq::empty(), data: Seq::empty() }
}

/// The smallest label in `data`, found by looking at every record.
pub open spec fn least_label(data: Seq<VertModel>) -> int
    decreases data.len(),
{
    if data.len() <= 1 {
        data[0].label
    } else if data.last().label < least_label(data.drop_last()) {
        data.last().label
    } else {
        least_label(data.drop_last())
    }
}

/// The empty heap is index-consistent and ordered.
pub proof fn lemma_empty_heap_wf()
    ensures
        empty_heap().wf(),
{
}

/// One allowed operation keeps a heap index-consistent and ordered.
pub proof fn lemma_operation_keeps_invariants(h: HeapModel, op: Op)
    requires
        h.wf(),
        allowed(h, op),
    ensures
        apply(h, op).wf(),
{
    match op {
        Op::Insert(v) => lemma_insert(h, v),
        Op::DecreaseKey(key, label) => lemma_decrease_key(h, key, label),
        Op::ExtractMin => {
            if h.data.len() > 0 {
                lemma_remove_min(h);
            }
        },
    }
}

/// After any sequence of allowed insertions, decrease-keys and extractions a
/// heap that was index-consistent and ordered is so still.
pub proof fn lemma_operations_keep_invariants(h: HeapModel, ops: Seq<Op>)
    requires
        h.wf(),
        allowed_all(h, ops),
    ensures
        apply_all(h, ops).wf(),
    decreases ops.len(),
{
    if ops.len() > 0 {
        lemma_operation_keeps_invariants(h, ops[0]);
        lemma_operations_keep_invariants(apply(h, ops[0]), ops.drop_first());
    }
}

/// The smallest label is a label of `data` and none is smaller.
pub proof fn lemma_least_label(data: Seq<VertModel>)
    requires
        data.len() > 0,
    ensures
        forall|p: int| 0 <= p < data.len() ==> least_label(data) <= (#[trigger] data[p]).label,
        exists|p: int| 0 <= p < data.len() && least_label(data) == (#[trigger] data[p]).label,
    decreases data.len(),
{
    if data.len() == 1 {
        assert(least_label(data) == data[0].label);
    } else {
        let rest = data.drop_last();
        lemma_least_label(rest);
        let q = choose|q: int| 0 <= q < rest.len() && least_label(rest) == (#[trigger] rest[q]).label;
        assert(rest[q] == data[q]);
        assert forall|p: int| 0 <= p < data.len() implies least_label(data) <= (
        #[trigger] data[p]).label by {
            if p < rest.len() {
                assert(rest[p] == data[p]);
            }
        }
        if data.last().label < least_label(rest) {
            assert(least_label(data) == data[data.len() - 1].label);
        } else {
            assert(least_label(data) == data[q].label);
        }
    }
}

/// Extract-min returns a vertex with the smallest label in the heap: the
/// label at the root equals the one that a scan of all records finds.
pub proof fn lemma_extract_gives_least(h: HeapModel)
    requires
        h.wf(),
        h.data.len() > 0,
    ensures
        h.min().label == least_label(h.data),
{
    lemma_least_label(h.data);
    let q = choose|q: int| 0 <= q < h.data.len() && least_label(h.data) == (#[trigger] h.data[q]).label;
    lemma_root_is_min(h, q);
    assert(least_label(h.data) <= h.data[0].label);
}

/// After decrease-key the vertex has the new label, the heap is
/// index-consistent and ordered, and every other vertex is as it was.
pub proof fn lemma_decrease_key_sets_label(h: HeapModel, key: int, label: int)
    requires
        h.wf(),
        h.contains(key),
        label <= h.vertex(key).label,
    ensures
        h.decrease_key(key, label).wf(),
        h.decrease_key(key, label).contains(key),
        h.decrease_key(key, label).vertex(key).label == label,
        forall|n: int| #[trigger] h.decrease_key(key, label).contains(n) <==> h.contains(n),
        forall|n: int|
            h.contains(n) && n != key ==> #[trigger] h.decrease_key(key, label).vertex(n)
                == h.vertex(n),
{
    let r = h.decrease_key(key, label);
    lemma_decrease_key(h, key, label);
    lemma_members_insert(h, r, key, h.vertex(key).relabel(label));
    assert(r.contains(key));
    assert forall|n: int| h.contains(n) && n != key implies #[trigger] r.vertex(n) == h.vertex(
        n,
    ) by {
        assert(r.contains(n));
    }
}

/// In a heap without stale entries inside `data`, a vertex is absent exactly
/// when its entry in the reverse index is at least the length of `data`.
pub proof fn lemma_stale_index_means_absent(h: HeapModel, n: int)
    requires
        h.exact(),
        0 <= n < h.indices.len(),
        0 <= h.indices[n],
    ensures
        !h.contains(n) <==> h.indices[n] >= h.data.len(),
{
}

/// Extraction keeps a heap free of stale entries inside `data`, and leaves
/// the entry of the extracted vertex, if it is not negative, outside `data`.
pub proof fn lemma_extracted_index_is_stale(h: HeapModel)
    requires
        h.wf(),
        h.exact(),
        h.data.len() > 0,
    ensures
        h.remove_min().exact(),
        !h.remove_min().contains(h.min().name),
        0 <= h.remove_min().indices[h.min().name] ==> h.remove_min().indices[h.min().name]
            >= h.remove_min().data.len(),
{
    lemma_remove_min(h);
    lemma_members_remove(h, h.remove_min(), h.min().name);
}

/// Two traversals of the same heap and edges from the same start give the
/// same outcome.
pub proof fn lemma_traversal_repeatable(
    h: HeapModel,
    edges: Seq<Edge>,
    start: int,
    first: Outcome,
    second: Outcome,
)
    requires
        first@ == traversal(h, edges, start),
        second@ == traversal(h, edges, start),
    ensures
        first == second,
{
}

} // verus!
