//! Lemmas about the heap model: each operation keeps the invariants and acts
//! on the heap's membership as a priority queue should.

use crate::model::{parent, HeapModel, VertModel};
use vstd::prelude::*;

verus! {

/// In an ordered heap the root has the smallest label.
pub proof fn lemma_root_is_min(h: HeapModel, p: int)
    requires
        h.ordered(),
        0 <= p < h.data.len(),
    ensures
        h.data[0].label <= h.data[p].label,
    decreases p,
{
    if p > 0 {
        lemma_root_is_min(h, parent(p));
    }
}

/// Heap order, said of a slot and its two children.
pub proof fn lemma_ordered_children(h: HeapModel, i: int)
    requires
        h.ordered(),
        0 <= i,
    ensures
        2 * i + 1 < h.data.len() ==> h.data[i].label <= h.data[2 * i + 1].label,
        2 * i + 2 < h.data.len() ==> h.data[i].label <= h.data[2 * i + 2].label,
{
    assert(parent(2 * i + 1) == i);
    assert(parent(2 * i + 2) == i);
}

/// A heap in which each slot is ordered with respect to its children is ordered.
pub proof fn lemma_children_ordered(h: HeapModel)
    requires
        forall|i: int|
            0 <= i && 2 * i + 1 < h.data.len() ==> h.data[i].label <= (#[trigger] h.data[2 * i
                + 1]).label,
        forall|i: int|
            0 <= i && 2 * i + 2 < h.data.len() ==> h.data[i].label <= (#[trigger] h.data[2 * i
                + 2]).label,
    ensures
        h.ordered(),
{
    assert forall|p: int| 0 < p < h.data.len() implies h.data[parent(p)].label <= (
    #[trigger] h.data[p]).label by {
        let i = parent(p);
        if p == 2 * i + 1 {
            assert(h.data[i].label <= h.data[2 * i + 1].label);
        } else {
            assert(p == 2 * i + 2);
            assert(h.data[i].label <= h.data[2 * i + 2].label);
        }
    }
}

/// How containment and records read off the member map.
pub proof fn lemma_members(h: HeapModel)
    ensures
        forall|n: int| #[trigger] h.contains(n) <==> h.members().dom().contains(n),
        forall|n: int| #[trigger] h.contains(n) ==> h.members()[n] == h.vertex(n),
{
}

/// Containment and records of a heap whose members are those of `h` with one
/// record put in.
pub proof fn lemma_members_insert(h: HeapModel, r: HeapModel, key: int, v: VertModel)
    requires
        r.members() == h.members().insert(key, v),
    ensures
        forall|n: int| #[trigger] r.contains(n) <==> (h.contains(n) || n == key),
        forall|n: int| #[trigger]
            r.contains(n) ==> r.vertex(n) == (if n == key {
                v
            } else {
                h.vertex(n)
            }),
{
    lemma_members(h);
    lemma_members(r);
}

/// Containment and records of a heap whose members are those of `h` without
/// one name.
pub proof fn lemma_members_remove(h: HeapModel, r: HeapModel, key: int)
    requires
        r.members() == h.members().remove(key),
    ensures
        forall|n: int| #[trigger] r.contains(n) <==> (h.contains(n) && n != key),
        forall|n: int| #[trigger] r.contains(n) ==> r.vertex(n) == h.vertex(n),
{
    lemma_members(h);
    lemma_members(r);
}

/// A heap whose members are those of `h` with `v` put in under its name
/// holds what `h` held and `v`.
pub proof fn lemma_holds_with(h: HeapModel, r: HeapModel, v: VertModel)
    requires
        r.members() == h.members().insert(v.name, v),
    ensures
        r.holds_with(h, v),
{
    lemma_members_insert(h, r, v.name, v);
}

/// A heap whose members are those of `h` without one name holds what `h`
/// held but for that vertex.
pub proof fn lemma_holds_without(h: HeapModel, r: HeapModel, name: int)
    requires
        r.members() == h.members().remove(name),
    ensures
        r.holds_without(h, name),
{
    lemma_members_remove(h, r, name);
}

/// A heap that contains every name has no stale entry inside `data`.
pub proof fn lemma_full_exact(h: HeapModel)
    requires
        h.full(),
    ensures
        h.exact(),
{
    assert forall|n: int|
        0 <= n < h.indices.len() && 0 <= (#[trigger] h.indices[n])
            < h.data.len() implies h.data[h.indices[n]].name == n by {
        assert(h.contains(n));
    }
}

/// A swap keeps index consistency and the heap's members.
pub proof fn lemma_swap(h: HeapModel, a: int, b: int)
    requires
        h.indexed(),
        0 <= a < h.data.len(),
        0 <= b < h.data.len(),
    ensures
        h.swap(a, b).indexed(),
        h.swap(a, b).data.len() == h.data.len(),
        h.swap(a, b).indices.len() == h.indices.len(),
        h.swap(a, b).members() == h.members(),
        h.exact() ==> h.swap(a, b).exact(),
{
    let s = h.swap(a, b);
    assert(h.indices[h.data[a].name] == a);
    assert(h.indices[h.data[b].name] == b);
    assert forall|p: int| 0 <= p < s.data.len() implies {
        &&& 0 <= (#[trigger] s.data[p]).name < s.indices.len()
        &&& s.indices[s.data[p].name] == p
    } by {
        assert(h.indices[h.data[p].name] == p);
    }
    assert forall|n: int| s.contains(n) == h.contains(n) && (h.contains(n) ==> s.vertex(n)
        == h.vertex(n)) by {
        if 0 <= n < h.indices.len() {
            let q = h.indices[n];
            if 0 <= q < h.data.len() {
                assert(h.indices[h.data[q].name] == q);
            }
            let r = s.indices[n];
            if 0 <= r < s.data.len() {
                assert(s.indices[s.data[r].name] == r);
            }
        }
    }
    assert(s.members() =~= h.members());
    if h.exact() {
        assert forall|n: int|
            0 <= n < s.indices.len() && 0 <= (#[trigger] s.indices[n])
                < s.data.len() implies s.data[s.indices[n]].name == n by {
            if n != h.data[a].name && n != h.data[b].name {
                assert(s.indices[n] == h.indices[n]);
                assert(h.data[h.indices[n]].name == n);
            }
        }
    }
}

/// Moving a record up keeps index consistency and the members, and restores
/// heap order when that record was the only one out of order.
pub proof fn lemma_perc_up(h: HeapModel, i: int)
    requires
        h.indexed(),
        0 <= i < h.data.len(),
    ensures
        h.perc_up(i).indexed(),
        h.perc_up(i).data.len() == h.data.len(),
        h.perc_up(i).indices.len() == h.indices.len(),
        h.perc_up(i).members() == h.members(),
        h.exact() ==> h.perc_up(i).exact(),
        h.ordered_except_up(i) ==> h.perc_up(i).ordered(),
    decreases i,
{
    if 0 < i && h.data[i].label < h.data[parent(i)].label {
        let p = parent(i);
        let s = h.swap(i, p);
        lemma_swap(h, i, p);
        if h.ordered_except_up(i) {
            assert(s.ordered_except_up(p)) by {
                assert forall|q: int| 0 < q < s.data.len() && q != p implies s.data[parent(
                    q,
                )].label <= (#[trigger] s.data[q]).label by {
                    assert(h.data[parent(p)].label <= h.data[p].label || p == 0);
                    if q == i {
                    } else if parent(q) == p {
                        assert(h.data[p].label <= h.data[q].label);
                    } else if parent(q) == i {
                        assert(h.data[p].label <= h.data[q].label);
                    } else {
                        assert(h.data[parent(q)].label <= h.data[q].label);
                    }
                }
                assert forall|c: int|
                    0 < c < s.data.len() && parent(c) == p && p > 0 implies s.data[parent(
                    p,
                )].label <= (#[trigger] s.data[c]).label by {
                    assert(h.data[parent(p)].label <= h.data[p].label);
                    if c != i {
                        assert(h.data[p].label <= h.data[c].label);
                    }
                }
            }
        }
        lemma_perc_up(s, p);
    } else {
        if h.ordered_except_up(i) {
            assert forall|q: int| 0 < q < h.data.len() implies h.data[parent(q)].label <= (
            #[trigger] h.data[q]).label by {}
        }
    }
}

/// Moving a record down keeps index consistency and the members, and restores
/// heap order when that record was the only one out of order.
pub proof fn lemma_sift_down(h: HeapModel, i: int)
    requires
        h.indexed(),
        0 <= i,
    ensures
        h.sift_down(i).indexed(),
        h.sift_down(i).data.len() == h.data.len(),
        h.sift_down(i).indices.len() == h.indices.len(),
        h.sift_down(i).members() == h.members(),
        h.exact() ==> h.sift_down(i).exact(),
        h.ordered_except_down(i) ==> h.sift_down(i).ordered(),
    decreases h.data.len() - i,
{
    if i < h.data.len() && h.smallest(i) != i {
        let m = h.smallest(i);
        let s = h.swap(i, m);
        lemma_swap(h, i, m);
        assert(parent(m) == i);
        if h.ordered_except_down(i) {
            assert(s.ordered_except_down(m)) by {
                assert forall|q: int|
                    0 < q < s.data.len() && parent(q) != m implies s.data[parent(q)].label <= (
                #[trigger] s.data[q]).label by {
                    if q == m {
                    } else if parent(q) == i {
                        assert(q == 2 * i + 1 || q == 2 * i + 2);
                        assert(h.data[m].label <= h.data[q].label);
                    } else if q == i {
                        assert(h.data[parent(i)].label <= h.data[m].label);
                    } else {
                        assert(h.data[parent(q)].label <= h.data[q].label);
                    }
                }
                assert forall|c: int|
                    0 < c < s.data.len() && parent(c) == m && m > 0 implies s.data[parent(
                    m,
                )].label <= (#[trigger] s.data[c]).label by {
                    assert(h.data[m].label <= h.data[c].label);
                }
            }
        }
        lemma_sift_down(s, m);
    } else {
        if h.ordered_except_down(i) {
            assert forall|q: int| 0 < q < h.data.len() implies h.data[parent(q)].label <= (
            #[trigger] h.data[q]).label by {
                if parent(q) == i {
                    assert(q == 2 * i + 1 || q == 2 * i + 2);
                }
            }
        }
    }
}

/// Removing the root of a well-formed heap: the root had the smallest label,
/// the rest is well-formed and holds every other member unchanged.
pub proof fn lemma_remove_min(h: HeapModel)
    requires
        h.wf(),
        h.data.len() > 0,
    ensures
        h.remove_min().wf(),
        h.remove_min().data.len() == h.data.len() - 1,
        h.remove_min().indices.len() == h.indices.len(),
        h.remove_min().members() == h.members().remove(h.min().name),
        h.contains(h.min().name),
        h.vertex(h.min().name) == h.min(),
        forall|n: int| h.contains(n) ==> h.min().label <= (#[trigger] h.vertex(n)).label,
        h.exact() ==> h.remove_min().exact(),
{
    let last = h.data.len() - 1;
    let s = h.swap(0, last);
    let m = HeapModel { indices: s.indices, data: s.data.drop_last() };
    lemma_swap(h, 0, last);
    assert(h.indices[h.data[0].name] == 0);
    assert(h.indices[h.data[last].name] == last);
    assert forall|n: int| h.contains(n) implies h.min().label <= (#[trigger] h.vertex(n)).label by {
        lemma_root_is_min(h, h.indices[n]);
    }
    assert(m.indexed()) by {
        assert forall|p: int| 0 <= p < m.data.len() implies {
            &&& 0 <= (#[trigger] m.data[p]).name < m.indices.len()
            &&& m.indices[m.data[p].name] == p
        } by {
            assert(s.indices[s.data[p].name] == p);
        }
    }
    assert(m.ordered_except_down(0)) by {
        assert forall|q: int| 0 < q < m.data.len() && parent(q) != 0 implies m.data[parent(
            q,
        )].label <= (#[trigger] m.data[q]).label by {
            assert(h.data[parent(q)].label <= h.data[q].label);
        }
    }
    assert forall|n: int|
        m.contains(n) == (h.contains(n) && n != h.min().name) && (m.contains(n) ==> m.vertex(n)
            == h.vertex(n)) by {
        assert(s.contains(n) == h.members().dom().contains(n));
        assert(s.members().dom().contains(n) == s.contains(n));
        if s.contains(n) {
            assert(s.members()[n] == s.vertex(n));
            assert(h.members()[n] == h.vertex(n));
        }
        if 0 <= n < s.indices.len() {
            let q = s.indices[n];
            if 0 <= q < s.data.len() {
                assert(s.indices[s.data[q].name] == q);
            }
        }
    }
    assert(m.members() =~= h.members().remove(h.min().name));
    if h.exact() {
        assert forall|n: int|
            0 <= n < m.indices.len() && 0 <= (#[trigger] m.indices[n])
                < m.data.len() implies m.data[m.indices[n]].name == n by {
            assert(s.data[s.indices[n]].name == n);
        }
    }
    lemma_sift_down(m, 0);
}

/// Lowering the label of a member of a well-formed heap: the result is
/// well-formed, that member has the new label, every other member is unchanged.
pub proof fn lemma_decrease_key(h: HeapModel, key: int, label: int)
    requires
        h.wf(),
        h.contains(key),
        label <= h.vertex(key).label,
    ensures
        h.decrease_key(key, label).wf(),
        h.decrease_key(key, label).data.len() == h.data.len(),
        h.decrease_key(key, label).indices.len() == h.indices.len(),
        h.decrease_key(key, label).members() == h.members().insert(
            key,
            h.vertex(key).relabel(label),
        ),
        h.exact() ==> h.decrease_key(key, label).exact(),
{
    let i = h.indices[key];
    let m = HeapModel { indices: h.indices, data: h.data.update(i, h.data[i].relabel(label)) };
    assert(m.indexed()) by {
        assert forall|p: int| 0 <= p < m.data.len() implies {
            &&& 0 <= (#[trigger] m.data[p]).name < m.indices.len()
            &&& m.indices[m.data[p].name] == p
        } by {
            assert(h.indices[h.data[p].name] == p);
        }
    }
    assert(m.ordered_except_up(i)) by {
        assert forall|q: int| 0 < q < m.data.len() && q != i implies m.data[parent(q)].label <= (
        #[trigger] m.data[q]).label by {
            assert(h.data[parent(q)].label <= h.data[q].label);
        }
        assert forall|c: int|
            0 < c < m.data.len() && parent(c) == i && i > 0 implies m.data[parent(i)].label <= (
        #[trigger] m.data[c]).label by {
            assert(h.data[parent(c)].label <= h.data[c].label);
            assert(h.data[parent(i)].label <= h.data[i].label);
        }
    }
    assert forall|n: int|
        m.contains(n) == h.contains(n) && (m.contains(n) ==> m.vertex(n) == (if n == key {
            h.vertex(key).relabel(label)
        } else {
            h.vertex(n)
        })) by {
        if 0 <= n < h.indices.len() {
            let q = h.indices[n];
            if 0 <= q < h.data.len() {
                assert(h.indices[h.data[q].name] == q);
            }
        }
    }
    assert(m.members() =~= h.members().insert(key, h.vertex(key).relabel(label)));
    if h.exact() {
        assert forall|n: int|
            0 <= n < m.indices.len() && 0 <= (#[trigger] m.indices[n])
                < m.data.len() implies m.data[m.indices[n]].name == n by {
            assert(h.data[h.indices[n]].name == n);
        }
    }
    lemma_perc_up(m, i);
}

/// Inserting the vertex with the next free name into a well-formed heap: the
/// result is well-formed and holds the old members and the new vertex.
pub proof fn lemma_insert(h: HeapModel, v: VertModel)
    requires
        h.wf(),
        v.name == h.indices.len(),
    ensures
        h.insert(v).wf(),
        h.insert(v).data.len() == h.data.len() + 1,
        h.insert(v).indices.len() == h.indices.len() + 1,
        h.insert(v).members() == h.members().insert(v.name, v),
{
    let len = h.data.len() as int;
    let m = HeapModel { indices: h.indices.push(len), data: h.data.push(v) };
    assert(m.indexed()) by {
        assert forall|p: int| 0 <= p < m.data.len() implies {
            &&& 0 <= (#[trigger] m.data[p]).name < m.indices.len()
            &&& m.indices[m.data[p].name] == p
        } by {
            if p < len {
                assert(h.indices[h.data[p].name] == p);
            }
        }
    }
    assert(m.ordered_except_up(len)) by {
        assert forall|q: int| 0 < q < m.data.len() && q != len implies m.data[parent(q)].label <= (
        #[trigger] m.data[q]).label by {
            assert(h.data[parent(q)].label <= h.data[q].label);
        }
    }
    assert forall|n: int|
        m.contains(n) == (h.contains(n) || n == v.name) && (m.contains(n) ==> m.vertex(n) == (
        if n == v.name {
            v
        } else {
            h.vertex(n)
        })) by {
        if 0 <= n < h.indices.len() {
            let q = h.indices[n];
            if 0 <= q < h.data.len() {
                assert(h.indices[h.data[q].name] == q);
            }
        }
    }
    assert(m.members() =~= h.members().insert(v.name, v));
    lemma_perc_up(m, len);
}

} // verus!
