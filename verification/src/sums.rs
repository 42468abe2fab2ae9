//! Sums over sequences of integers, and how they change when entries are
//! picked, replaced or shifted.

use vstd::prelude::*;

verus! {

/// The sum of the entries of `s`.
pub open spec fn sum(s: Seq<int>) -> int
    decreases s.len(),
{
    if s.len() == 0 {
        0
    } else {
        sum(s.drop_last()) + s.last()
    }
}

/// The entries of `w` at the positions `ids`, in the order of `ids`.
pub open spec fn pick(w: Seq<int>, ids: Seq<int>) -> Seq<int> {
    Seq::new(ids.len(), |i: int| w[ids[i]])
}

/// Whether the entries of `ids` are distinct positions of a sequence of
/// length `n`.
pub open spec fn distinct_below(ids: Seq<int>, n: int) -> bool {
    &&& forall|i: int| 0 <= i < ids.len() ==> 0 <= #[trigger] ids[i] < n
    &&& forall|i: int, j: int| 0 <= i < j < ids.len() ==> ids[i] != ids[j]
}

/// Replacing one entry changes the sum by the difference.
pub proof fn lemma_sum_update(w: Seq<int>, p: int, x: int)
    requires
        0 <= p < w.len(),
    ensures
        sum(w.update(p, x)) == sum(w) - w[p] + x,
    decreases w.len(),
{
    if p == w.len() - 1 {
        assert(w.update(p, x).drop_last() =~= w.drop_last());
    } else {
        lemma_sum_update(w.drop_last(), p, x);
        assert(w.update(p, x).drop_last() =~= w.drop_last().update(p, x));
    }
}

/// Taking one entry out lowers the sum by that entry.
pub proof fn lemma_sum_remove(s: Seq<int>, j: int)
    requires
        0 <= j < s.len(),
    ensures
        sum(s) == sum(s.remove(j)) + s[j],
    decreases s.len(),
{
    if j == s.len() - 1 {
        assert(s.remove(j) =~= s.drop_last());
    } else {
        lemma_sum_remove(s.drop_last(), j);
        assert(s.remove(j).drop_last() =~= s.drop_last().remove(j));
        assert(s.remove(j).last() == s.last());
    }
}

/// Entries picked at distinct positions of a sequence without negative
/// entries sum to at most the sum of the sequence.
pub proof fn lemma_pick_bound(w: Seq<int>, ids: Seq<int>)
    requires
        forall|i: int| 0 <= i < w.len() ==> 0 <= #[trigger] w[i],
        distinct_below(ids, w.len() as int),
    ensures
        0 <= sum(pick(w, ids)) <= sum(w),
    decreases w.len(),
{
    if w.len() == 0 {
        if ids.len() > 0 {
            assert(0 <= ids[0] < w.len());
        }
        assert(pick(w, ids) =~= Seq::<int>::empty());
    } else {
        let n = w.len() - 1;
        let w1 = w.drop_last();
        assert(0 <= w[n]);
        assert forall|i: int| 0 <= i < w1.len() implies 0 <= #[trigger] w1[i] by {
            assert(w1[i] == w[i]);
        }
        if exists|j: int| 0 <= j < ids.len() && ids[j] == n {
            let j = choose|j: int| 0 <= j < ids.len() && ids[j] == n;
            let rest = ids.remove(j);
            assert forall|i: int| 0 <= i < rest.len() implies 0 <= #[trigger] rest[i] < n by {
                if i < j {
                    assert(rest[i] == ids[i]);
                } else {
                    assert(rest[i] == ids[i + 1]);
                }
            }
            assert forall|a: int, b: int| 0 <= a < b < rest.len() implies rest[a] != rest[b] by {
                let a1 = if a < j { a } else { a + 1 };
                let b1 = if b < j { b } else { b + 1 };
                assert(rest[a] == ids[a1] && rest[b] == ids[b1]);
            }
            lemma_sum_remove(pick(w, ids), j);
            assert(pick(w, ids).remove(j) =~= pick(w1, rest));
            lemma_pick_bound(w1, rest);
        } else {
            assert forall|i: int| 0 <= i < ids.len() implies 0 <= #[trigger] ids[i] < n by {}
            assert(pick(w, ids) =~= pick(w1, ids));
            lemma_pick_bound(w1, ids);
        }
    }
}

/// The sequence of `n` ones.
pub open spec fn ones(n: nat) -> Seq<int> {
    Seq::new(n, |i: int| 1int)
}

/// Ones sum to their number.
pub proof fn lemma_sum_ones(n: nat)
    ensures
        sum(ones(n)) == n,
    decreases n,
{
    if n > 0 {
        lemma_sum_ones((n - 1) as nat);
        assert(ones(n).drop_last() =~= ones((n - 1) as nat));
    }
}

/// An entry put in front adds to the sum.
pub proof fn lemma_sum_front(x: int, s: Seq<int>)
    ensures
        sum(seq![x] + s) == x + sum(s),
    decreases s.len(),
{
    let t = seq![x] + s;
    if s.len() == 0 {
        assert(t.drop_last() =~= Seq::<int>::empty());
        assert(t.last() == x);
        assert(sum(t) == sum(t.drop_last()) + t.last());
    } else {
        lemma_sum_front(x, s.drop_last());
        assert(t.drop_last() =~= seq![x] + s.drop_last());
        assert(t.last() == s.last());
        assert(sum(t) == sum(t.drop_last()) + t.last());
    }
}

/// There are at most `n` distinct positions below `n`.
pub proof fn lemma_distinct_length(ids: Seq<int>, n: nat)
    requires
        distinct_below(ids, n as int),
    ensures
        ids.len() <= n,
{
    lemma_pick_bound(ones(n), ids);
    assert(pick(ones(n), ids) =~= ones(ids.len()));
    lemma_sum_ones(n);
    lemma_sum_ones(ids.len());
}

/// `n` distinct positions below `n` are all of them.
pub proof fn lemma_distinct_covers(ids: Seq<int>, n: nat, v: int)
    requires
        distinct_below(ids, n as int),
        ids.len() == n,
        0 <= v < n,
    ensures
        ids.contains(v),
{
    if !ids.contains(v) {
        let w = ones(n).update(v, 0);
        lemma_sum_ones(n);
        lemma_sum_update(ones(n), v, 0);
        assert(pick(w, ids) =~= ones(n)) by {
            assert forall|i: int| 0 <= i < ids.len() implies w[ids[i]] == 1 by {
                if ids[i] == v {
                    assert(ids.contains(v));
                }
            }
        }
        lemma_pick_bound(w, ids);
    }
}

/// If each entry of `y` but the last is the next entry of `x`, and the last
/// is `c`, the sums differ by `c` less the first entry of `x`.
pub proof fn lemma_shift_sum(x: Seq<int>, y: Seq<int>, c: int)
    requires
        x.len() == y.len(),
        x.len() >= 1,
        forall|l: int| 0 <= l < x.len() - 1 ==> #[trigger] y[l] == x[l + 1],
        y[y.len() - 1] == c,
    ensures
        sum(y) - sum(x) == c - x[0],
    decreases x.len(),
{
    if x.len() == 1 {
        assert(sum(x.drop_last()) == 0);
        assert(sum(y.drop_last()) == 0);
    } else {
        let m = x.len() - 1;
        let x1 = x.drop_last();
        let y1 = y.drop_last();
        assert(y1[m - 1] == y[m - 1]);
        assert forall|l: int| 0 <= l < x1.len() - 1 implies #[trigger] y1[l] == x1[l + 1] by {
            assert(y[l] == x[l + 1]);
        }
        lemma_shift_sum(x1, y1, x[m]);
    }
}

/// Two sequences that agree outside the distinct positions `pts` differ in
/// their sums by the difference of what they hold at `pts`.
pub proof fn lemma_sum_change(w1: Seq<int>, w2: Seq<int>, pts: Seq<int>)
    requires
        w1.len() == w2.len(),
        distinct_below(pts, w1.len() as int),
        forall|v: int| 0 <= v < w1.len() && !pts.contains(v) ==> #[trigger] w1[v] == w2[v],
    ensures
        sum(w2) - sum(w1) == sum(pick(w2, pts)) - sum(pick(w1, pts)),
    decreases pts.len(),
{
    if pts.len() == 0 {
        assert forall|v: int| 0 <= v < w1.len() implies w1[v] == w2[v] by {
            assert(!pts.contains(v));
        }
        assert(w1 =~= w2);
        assert(pick(w1, pts) =~= pick(w2, pts));
    } else {
        let p = pts.last();
        let rest = pts.drop_last();
        let mid = w2.update(p, w1[p]);
        assert(pts[pts.len() - 1] == p);
        assert forall|i: int| 0 <= i < rest.len() implies 0 <= #[trigger] rest[i] < w1.len() by {
            assert(rest[i] == pts[i]);
        }
        assert forall|i: int, j: int| 0 <= i < j < rest.len() implies rest[i] != rest[j] by {
            assert(rest[i] == pts[i] && rest[j] == pts[j]);
        }
        assert forall|v: int| 0 <= v < w1.len() && !rest.contains(v) implies #[trigger] w1[v]
            == mid[v] by {
            if v != p {
                if pts.contains(v) {
                    let i = choose|i: int| 0 <= i < pts.len() && pts[i] == v;
                    assert(rest[i] == v);
                }
            }
        }
        lemma_sum_change(w1, mid, rest);
        lemma_sum_update(w2, p, w1[p]);
        assert(pick(mid, rest) =~= pick(w2, rest)) by {
            assert forall|i: int| 0 <= i < rest.len() implies mid[rest[i]] == w2[rest[i]] by {
                assert(rest[i] == pts[i]);
                assert(pts[i] != pts[pts.len() - 1]);
            }
        }
        assert(pick(w2, pts).drop_last() =~= pick(w2, rest));
        assert(pick(w1, pts).drop_last() =~= pick(w1, rest));
    }
}

} // verus!
