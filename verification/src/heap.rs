//! The indexed binary min-heap: vertex records in heap layout, with a reverse
//! index from vertex name to slot that every swap keeps in step.

use crate::lemmas::{
    lemma_decrease_key, lemma_full_exact, lemma_holds_with, lemma_holds_without, lemma_insert,
    lemma_perc_up, lemma_remove_min, lemma_sift_down, lemma_swap,
};
use crate::model::{HeapModel, VertModel};
use vstd::prelude::*;

verus! {

/// A vertex: its name, the identifiers of the edges that leave it, and its
/// label, the smallest weight known to attach it to the tree.
#[derive(Clone, Debug, PartialEq, Eq)]
pub struct Vert {
    pub name: usize,
    pub edges: Vec<usize>,
    pub label: i32,
}

impl View for Vert {
    type V = VertModel;

    open spec fn view(&self) -> VertModel {
        VertModel { name: self.name as int, edges: self.edges@, label: self.label as int }
    }
}

/// The heap: `data` in heap layout, and for each vertex name its slot in `data`.
#[derive(Clone, Debug, PartialEq, Eq)]
pub struct Heap {
    pub indices: Vec<usize>,
    pub data: Vec<Vert>,
}

impl View for Heap {
    type V = HeapModel;

    open spec fn view(&self) -> HeapModel {
        HeapModel {
            indices: self.indices@.map_values(|i: usize| i as int),
            data: self.data@.map_values(|v: Vert| v@),
        }
    }
}

/// Why a heap operation gave no vertex.
#[derive(Clone, Copy, Debug, PartialEq, Eq)]
pub enum HeapError {
    /// There was nothing to extract.
    EmptyHeapExtraction,
}

/// Exchanges the records in slots `vi` and `pi`, and with them the two
/// records' entries in the reverse index.
pub fn heap_swap(heap: &mut Heap, vi: usize, pi: usize)
    requires
        old(heap)@.indexed(),
        vi < old(heap).data.len(),
        pi < old(heap).data.len(),
    ensures
        final(heap)@ == old(heap)@.swap(vi as int, pi as int),
        final(heap)@.indexed(),
        final(heap)@.members() == old(heap)@.members(),
        final(heap).data.len() == old(heap).data.len(),
        final(heap).indices.len() == old(heap).indices.len(),
{
    proof {
        lemma_swap(heap@, vi as int, pi as int);
        assert(heap@.indices[heap@.data[vi as int].name] == vi);
        assert(heap@.indices[heap@.data[pi as int].name] == pi);
    }
    if vi < pi {
        let (low, high) = heap.data.as_mut_slice().split_at_mut(pi);
        core::mem::swap(&mut low[vi], &mut high[0]);
    } else if pi < vi {
        let (low, high) = heap.data.as_mut_slice().split_at_mut(vi);
        core::mem::swap(&mut low[pi], &mut high[0]);
    }
    assert(heap.data@ =~= old(heap).data@.update(vi as int, old(heap).data@[pi as int]).update(
        pi as int,
        old(heap).data@[vi as int],
    ));
    let name_v = heap.data[vi].name;
    let name_p = heap.data[pi].name;
    let tmp = heap.indices[name_v];
    heap.indices[name_v] = heap.indices[name_p];
    heap.indices[name_p] = tmp;
    proof {
        let s = old(heap)@.swap(vi as int, pi as int);
        assert(heap@.data =~= s.data);
        assert(heap@.indices =~= s.indices);
    }
}

/// Moves the record in slot `vi` up while its label is smaller than its
/// parent's.  If that record was the only one out of order, the heap is
/// ordered afterwards.
pub fn perc_up(heap: &mut Heap, vi: usize)
    requires
        old(heap)@.indexed(),
        vi == 0 || vi < old(heap).data.len(),
    ensures
        final(heap)@ == old(heap)@.perc_up(vi as int),
        final(heap)@.indexed(),
        final(heap)@.members() == old(heap)@.members(),
        final(heap).data.len() == old(heap).data.len(),
        final(heap).indices.len() == old(heap).indices.len(),
        old(heap)@.ordered_except_up(vi as int) ==> final(heap)@.ordered(),
    decreases vi,
{
    proof {
        if vi < heap.data.len() {
            lemma_perc_up(heap@, vi as int);
        }
    }
    if vi == 0 {
        return ;
    }
    let parent_i = (vi - 1) / 2;
    if heap.data[vi].label < heap.data[parent_i].label {
        heap_swap(heap, vi, parent_i);
        perc_up(heap, parent_i);
    }
}

/// Moves the record in slot `i` down while one of its children has a smaller
/// label, each time into the slot of the smaller child.  If that record was
/// the only one out of order, the heap is ordered afterwards.
pub fn sift_down(heap: &mut Heap, i: usize)
    requires
        old(heap)@.indexed(),
    ensures
        final(heap)@ == old(heap)@.sift_down(i as int),
        final(heap)@.indexed(),
        final(heap)@.members() == old(heap)@.members(),
        final(heap).data.len() == old(heap).data.len(),
        final(heap).indices.len() == old(heap).indices.len(),
        old(heap)@.ordered_except_down(i as int) ==> final(heap)@.ordered(),
    decreases old(heap).data.len() - i,
{
    proof {
        lemma_sift_down(heap@, i as int);
    }
    let len = heap.data.len();
    let mut smallest = i;
    if i < len / 2 {
        let left = 2 * i + 1;
        if heap.data[left].label < heap.data[smallest].label {
            smallest = left;
        }
        if left + 1 < len {
            let right = left + 1;
            if heap.data[right].label < heap.data[smallest].label {
                smallest = right;
            }
        }
    }
    assert(i < len ==> smallest == heap@.smallest(i as int));
    if smallest != i {
        heap_swap(heap, i, smallest);
        sift_down(heap, smallest);
    }
}

/// Extract-min: removes the root and returns it, the last record takes its
/// slot and is sifted down.  On an empty heap nothing changes and the error
/// is returned.
pub fn heap_extract(heap: &mut Heap) -> (res: Result<Vert, HeapError>)
    requires
        old(heap)@.wf(),
    ensures
        res is Err <==> old(heap).data.len() == 0,
        res is Err ==> *final(heap) == *old(heap),
        res matches Ok(v) ==> {
            &&& v@ == old(heap)@.min()
            &&& final(heap)@ == old(heap)@.remove_min()
            &&& final(heap)@.wf()
            &&& old(heap)@.contains(v@.name)
            &&& old(heap)@.vertex(v@.name) == v@
            &&& forall|n: int|
                old(heap)@.contains(n) ==> v@.label <= (#[trigger] old(heap)@.vertex(n)).label
            &&& final(heap)@.members() == old(heap)@.members().remove(v@.name)
            &&& final(heap)@.holds_without(old(heap)@, v@.name)
            &&& final(heap).data.len() == old(heap).data.len() - 1
            &&& final(heap).indices.len() == old(heap).indices.len()
            &&& old(heap)@.exact() ==> final(heap)@.exact()
        },
{
    if heap.data.len() == 0 {
        return Err(HeapError::EmptyHeapExtraction);
    }
    proof {
        lemma_remove_min(heap@);
    }
    let start_i: usize = 0;
    let len = heap.data.len();
    heap_swap(heap, start_i, len - 1);
    let ghost swapped = heap@;
    let v = heap.data.pop().unwrap();
    proof {
        let s = old(heap)@.swap(0, len - 1);
        assert(v@ == swapped.data[len - 1]);
        assert(v@ == old(heap)@.min());
        assert(heap@.data =~= s.data.drop_last());
        assert(heap@.indices =~= s.indices);
        assert(heap@ == HeapModel { indices: s.indices, data: s.data.drop_last() });
    }
    sift_down(heap, 0);
    proof {
        lemma_holds_without(old(heap)@, heap@, v@.name);
    }
    Ok(v)
}

/// Decrease-key: gives the vertex named `key` the label `val`, which must not
/// exceed its present label, and moves it up to its place.
pub fn decrease_key(heap: &mut Heap, key: usize, val: i32)
    requires
        old(heap)@.wf(),
        old(heap)@.contains(key as int),
        val <= old(heap)@.vertex(key as int).label,
    ensures
        final(heap)@ == old(heap)@.decrease_key(key as int, val as int),
        final(heap)@.wf(),
        final(heap)@.contains(key as int),
        final(heap)@.vertex(key as int) == old(heap)@.vertex(key as int).relabel(val as int),
        final(heap)@.members() == old(heap)@.members().insert(
            key as int,
            old(heap)@.vertex(key as int).relabel(val as int),
        ),
        final(heap)@.holds_with(old(heap)@, old(heap)@.vertex(key as int).relabel(val as int)),
        final(heap).data.len() == old(heap).data.len(),
        final(heap).indices.len() == old(heap).indices.len(),
        old(heap)@.exact() ==> final(heap)@.exact(),
{
    proof {
        lemma_decrease_key(heap@, key as int, val as int);
    }
    let index = heap.indices[key];
    heap.data[index].label = val;
    proof {
        let i = index as int;
        let m = HeapModel {
            indices: old(heap)@.indices,
            data: old(heap)@.data.update(i, old(heap)@.data[i].relabel(val as int)),
        };
        assert(heap@.data =~= m.data);
        assert(heap@.indices =~= m.indices);
        assert(heap@ == m);
        assert(m.indexed()) by {
            assert forall|p: int| 0 <= p < m.data.len() implies {
                &&& 0 <= (#[trigger] m.data[p]).name < m.indices.len()
                &&& m.indices[m.data[p].name] == p
            } by {
                assert(old(heap)@.indices[old(heap)@.data[p].name] == p);
            }
        }
    }
    perc_up(heap, index);
    proof {
        let r = heap@;
        assert(r.members().dom().contains(key as int));
        assert(r.members()[key as int] == r.vertex(key as int));
        lemma_holds_with(old(heap)@, r, old(heap)@.vertex(key as int).relabel(val as int));
    }
}

/// Insert: appends `v`, whose name must be the next free one, records its
/// slot in the reverse index, and moves it up to its place.  A heap from
/// which nothing was extracted yet stays free of stale index entries; after
/// an extraction an insertion may bring a stale entry back inside `data`.
pub fn heap_insert(heap: &mut Heap, v: Vert)
    requires
        old(heap)@.wf(),
        v.name == old(heap).indices.len(),
    ensures
        final(heap)@ == old(heap)@.insert(v@),
        final(heap)@.wf(),
        final(heap)@.members() == old(heap)@.members().insert(v@.name, v@),
        final(heap)@.holds_with(old(heap)@, v@),
        final(heap).data.len() == old(heap).data.len() + 1,
        final(heap).indices.len() == old(heap).indices.len() + 1,
        old(heap)@.full() ==> final(heap)@.full() && final(heap)@.exact(),
{
    proof {
        lemma_insert(heap@, v@);
    }
    let index = heap.data.len();
    heap.indices.push(index);
    heap.data.push(v);
    proof {
        let m = HeapModel {
            indices: old(heap)@.indices.push(index as int),
            data: old(heap)@.data.push(v@),
        };
        assert(heap@.data =~= m.data);
        assert(heap@.indices =~= m.indices);
        assert(heap@ == m);
        assert(m.indexed()) by {
            assert forall|p: int| 0 <= p < m.data.len() implies {
                &&& 0 <= (#[trigger] m.data[p]).name < m.indices.len()
                &&& m.indices[m.data[p].name] == p
            } by {
                if p < index {
                    assert(old(heap)@.indices[old(heap)@.data[p].name] == p);
                }
            }
        }
    }
    perc_up(heap, index);
    proof {
        lemma_holds_with(old(heap)@, heap@, v@);
        if old(heap)@.full() {
            assert(heap@.full());
            lemma_full_exact(heap@);
        }
    }
}

} // verus!
