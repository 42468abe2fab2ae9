//! The text form of a graph: a header line with the vertex count and the edge
//! count, then one edge per line as `from to weight`.  Words are separated by
//! white space; a word counts only if it is a number, and a line is an edge
//! only if it holds exactly three numbers.  An edge is listed at the vertex it
//! leaves and nowhere else: a text that means its edges to run both ways
//! gives each of them twice, once in each direction.

use crate::graph::{graph_of, Edge};
use crate::heap::{heap_insert, Heap, Vert};
use crate::model::{HeapModel, VertModel, SENTINEL};
use vstd::prelude::*;
use vstd::utf8::encode_utf8;

verus! {

/// The space character.
pub const SPACE: u8 = 32u8;

/// The horizontal tab.
pub const TAB: u8 = 9u8;

/// The line feed.
pub const LINE_FEED: u8 = 10u8;

/// The form feed.
pub const FORM_FEED: u8 = 12u8;

/// The carriage return.
pub const CARRIAGE_RETURN: u8 = 13u8;

/// Whether a byte is white space and so separates words: a space, a tab, a
/// line feed, a form feed or a carriage return.
pub open spec fn is_space(b: u8) -> bool {
    b == SPACE || b == TAB || b == LINE_FEED || b == FORM_FEED || b == CARRIAGE_RETURN
}

/// The sign that may stand before a number.
pub const PLUS: u8 = 43u8;

/// The digit zero.
pub const ZERO: u8 = 48u8;

/// The digit nine.
pub const NINE: u8 = 57u8;

/// Whether every byte of `s` is a decimal digit.
pub open spec fn all_digits(s: Seq<u8>) -> bool {
    forall|i: int| 0 <= i < s.len() ==> ZERO <= #[trigger] s[i] <= NINE
}

/// The number that a string of decimal digits stands for.
pub open spec fn digits_value(s: Seq<u8>) -> nat
    decreases s.len(),
{
    if s.len() == 0 {
        0
    } else {
        digits_value(s.drop_last()) * 10 + (s.last() - ZERO) as nat
    }
}

/// The digits of a word: the word without a leading plus sign.
pub open spec fn digits_of(w: Seq<u8>) -> Seq<u8> {
    if w.len() > 0 && w[0] == PLUS {
        w.skip(1)
    } else {
        w
    }
}

/// The number that a word stands for: an optional plus sign, then at least
/// one decimal digit and nothing else, with a value that fits in `usize`.
pub open spec fn word_value(w: Seq<u8>) -> Option<usize> {
    let d = digits_of(w);
    if d.len() > 0 && all_digits(d) && digits_value(d) <= usize::MAX {
        Some(digits_value(d) as usize)
    } else {
        None
    }
}

/// The position of the first white space in `s`, or the length of `s` if it
/// has none.
pub open spec fn first_space(s: Seq<u8>) -> int
    decreases s.len(),
{
    if s.len() == 0 || is_space(s[0]) {
        0
    } else {
        1 + first_space(s.skip(1))
    }
}

/// The numbers on a line, in order: the values of those words between
/// white space that stand for a number.
pub open spec fn numbers(s: Seq<u8>) -> Seq<usize>
    decreases s.len(),
{
    let k = first_space(s);
    let head = match word_value(s.take(k)) {
        Some(v) => seq![v],
        None => Seq::empty(),
    };
    if 0 <= k < s.len() {
        head + numbers(s.skip(k + 1))
    } else {
        head
    }
}

/// The lines as byte strings.
pub open spec fn text(lines: Seq<String>) -> Seq<Seq<u8>> {
    Seq::new(lines.len(), |i: int| encode_utf8(lines[i]@))
}

/// The edge that a line of three numbers stands for.
pub open spec fn edge_of(n: Seq<usize>) -> Edge {
    Edge { from: n[0], to: n[1], val: n[2] }
}

/// The edges of a text, in order: one for each line with exactly three
/// numbers, the header line not excepted.
pub open spec fn edges_of(lines: Seq<Seq<u8>>) -> Seq<Edge>
    decreases lines.len(),
{
    if lines.len() == 0 {
        Seq::empty()
    } else if numbers(lines.last()).len() == 3 {
        edges_of(lines.drop_last()).push(edge_of(numbers(lines.last())))
    } else {
        edges_of(lines.drop_last())
    }
}

/// The identifiers of the edges that leave `u`, in rising order.
pub open spec fn leaving(edges: Seq<Edge>, u: int) -> Seq<usize>
    decreases edges.len(),
{
    if edges.len() == 0 {
        Seq::empty()
    } else if edges.last().from == u {
        leaving(edges.drop_last(), u).push((edges.len() - 1) as usize)
    } else {
        leaving(edges.drop_last(), u)
    }
}

/// The vertex count that the header line gives.
pub open spec fn vertex_count(lines: Seq<Seq<u8>>) -> int {
    numbers(lines[0])[0] as int
}

/// The heap before the traversal: `count` vertices, each in the slot of its
/// own name, with the sentinel label and the edges that leave it.
pub open spec fn initial_heap(count: int, edges: Seq<Edge>) -> HeapModel {
    HeapModel {
        indices: Seq::new(count as nat, |u: int| u),
        data: Seq::new(
            count as nat,
            |u: int| VertModel { name: u, edges: leaving(edges, u), label: SENTINEL as int },
        ),
    }
}

/// Whether a text can be built into a graph: it has a header line with at
/// least two numbers, and every edge line leaves a vertex below the count.
/// The header line is an edge line too if it holds exactly three numbers, so
/// such a header is never well-formed.
pub open spec fn well_formed(lines: Seq<Seq<u8>>) -> bool {
    &&& lines.len() >= 1
    &&& numbers(lines[0]).len() >= 2
    &&& forall|j: int|
        0 <= j < lines.len() && numbers(#[trigger] lines[j]).len() == 3 ==> numbers(lines[j])[0]
            < vertex_count(lines)
}

/// The value of a prefix of a digit string is at most the value of the whole.
proof fn lemma_digits_prefix(s: Seq<u8>, n: int)
    requires
        0 <= n <= s.len(),
    ensures
        digits_value(s.take(n)) <= digits_value(s),
    decreases s.len(),
{
    if n == s.len() {
        assert(s.take(n) =~= s);
    } else {
        lemma_digits_prefix(s.drop_last(), n);
        assert(s.drop_last().take(n) =~= s.take(n));
    }
}

/// Where the first space is, given a position before which there is none.
proof fn lemma_first_space(s: Seq<u8>, k: int)
    requires
        0 <= k <= s.len(),
        forall|j: int| 0 <= j < k ==> !is_space(#[trigger] s[j]),
        k == s.len() || is_space(s[k]),
    ensures
        first_space(s) == k,
    decreases k,
{
    if k > 0 {
        lemma_first_space(s.skip(1), k - 1);
    }
}

/// The number that the word `bytes[from..to]` stands for, if it is one.
fn word_number(bytes: &[u8], from: usize, to: usize) -> (res: Option<usize>)
    requires
        from <= to <= bytes@.len(),
    ensures
        res == word_value(bytes@.subrange(from as int, to as int)),
{
    let ghost w = bytes@.subrange(from as int, to as int);
    let mut i: usize = from;
    if i < to && bytes[i] == PLUS {
        i += 1;
    }
    let first: usize = i;
    let ghost d = bytes@.subrange(first as int, to as int);
    assert(d =~= digits_of(w));
    if first == to {
        return None;
    }
    let mut acc: usize = 0;
    while i < to
        invariant
            first <= i <= to <= bytes@.len(),
            d == bytes@.subrange(first as int, to as int),
            d == digits_of(bytes@.subrange(from as int, to as int)),
            all_digits(bytes@.subrange(first as int, i as int)),
            acc == digits_value(bytes@.subrange(first as int, i as int)),
        decreases to - i,
    {
        let b = bytes[i];
        if b < ZERO || b > NINE {
            assert(d[i - first] == b);
            return None;
        }
        let digit: usize = (b - ZERO) as usize;
        proof {
            let p = bytes@.subrange(first as int, i + 1);
            assert(p.drop_last() =~= bytes@.subrange(first as int, i as int));
            assert(p.last() == b);
            assert(digits_value(p) == acc * 10 + digit);
            assert(d.take(i + 1 - first) =~= p);
            lemma_digits_prefix(d, i + 1 - first);
        }
        match acc.checked_mul(10) {
            None => {
                return None;
            },
            Some(tens) => {
                match tens.checked_add(digit) {
                    None => {
                        return None;
                    },
                    Some(sum) => {
                        acc = sum;
                    },
                }
            },
        }
        i += 1;
    }
    assert(bytes@.subrange(first as int, i as int) =~= d);
    Some(acc)
}

/// The numbers on a line, in order.
pub fn line_numbers(line: &str) -> (out: Vec<usize>)
    ensures
        out@ == numbers(encode_utf8(line@)),
{
    let bytes = line.as_bytes();
    let n = bytes.len();
    let mut out: Vec<usize> = Vec::new();
    let mut start: usize = 0;
    let mut i: usize = 0;
    assert(bytes@.skip(0) =~= bytes@);
    while i < n
        invariant
            n == bytes@.len(),
            start <= i <= n,
            forall|j: int| start <= j < i ==> !is_space(#[trigger] bytes@[j]),
            out@ + numbers(bytes@.skip(start as int)) == numbers(bytes@),
        decreases n - i,
    {
        let b = bytes[i];
        if b == SPACE || b == TAB || b == LINE_FEED || b == FORM_FEED || b == CARRIAGE_RETURN {
            let ghost rest = bytes@.skip(start as int);
            proof {
                lemma_first_space(rest, i - start);
                assert(rest.take(i - start) =~= bytes@.subrange(start as int, i as int));
                assert(rest.skip(i - start + 1) =~= bytes@.skip(i + 1));
            }
            let ghost before = out@;
            match word_number(bytes, start, i) {
                Some(v) => {
                    out.push(v);
                    assert(out@ + numbers(bytes@.skip(i + 1)) =~= before + (seq![v] + numbers(
                        bytes@.skip(i + 1),
                    )));
                },
                None => {
                    assert(out@ + numbers(bytes@.skip(i + 1)) =~= before + (Seq::<usize>::empty()
                        + numbers(bytes@.skip(i + 1))));
                },
            }
            start = i + 1;
        }
        i += 1;
    }
    let ghost rest = bytes@.skip(start as int);
    proof {
        lemma_first_space(rest, n - start);
        assert(rest.take(n - start) =~= bytes@.subrange(start as int, n as int));
    }
    let ghost before = out@;
    match word_number(bytes, start, n) {
        Some(v) => {
            out.push(v);
            assert(out@ =~= before + seq![v]);
        },
        None => {
            assert(out@ =~= before + Seq::<usize>::empty());
        },
    }
    out
}

/// Whether the lines can be built into a graph.
pub fn input_well_formed(lines: &Vec<String>) -> (ok: bool)
    ensures
        ok == well_formed(text(lines@)),
{
    if lines.len() == 0 {
        return false;
    }
    let ghost t = text(lines@);
    let header = line_numbers(lines[0].as_str());
    assert(header@ == numbers(t[0]));
    if header.len() < 2 {
        return false;
    }
    let count = header[0];
    let mut j: usize = 0;
    while j < lines.len()
        invariant
            j <= lines.len(),
            t == text(lines@),
            lines.len() >= 1,
            count == vertex_count(t),
            forall|i: int|
                0 <= i < j && numbers(#[trigger] t[i]).len() == 3 ==> numbers(t[i])[0] < count,
        decreases lines.len() - j,
    {
        let nums = line_numbers(lines[j].as_str());
        assert(nums@ == numbers(t[j as int]));
        if nums.len() == 3 && nums[0] >= count {
            return false;
        }
        j += 1;
    }
    true
}

/// The identifiers that `leaving` lists name edges that leave `u`.
pub proof fn lemma_leaving(edges: Seq<Edge>, u: int)
    requires
        edges.len() <= usize::MAX,
    ensures
        forall|k: int|
            0 <= k < leaving(edges, u).len() ==> {
                &&& 0 <= #[trigger] leaving(edges, u)[k] < edges.len()
                &&& edges[leaving(edges, u)[k] as int].from == u
            },
    decreases edges.len(),
{
    if edges.len() > 0 {
        let rest = leaving(edges.drop_last(), u);
        lemma_leaving(edges.drop_last(), u);
        assert forall|k: int| 0 <= k < leaving(edges, u).len() implies {
            &&& 0 <= #[trigger] leaving(edges, u)[k] < edges.len()
            &&& edges[leaving(edges, u)[k] as int].from == u
        } by {
            if k < rest.len() {
                assert(leaving(edges, u)[k] == rest[k]);
                assert(edges.drop_last()[rest[k] as int] == edges[rest[k] as int]);
            }
        }
    }
}

/// The initial heap is well-formed, contains every vertex, and every label
/// in it is the sentinel.
pub proof fn lemma_initial_heap(count: int, edges: Seq<Edge>)
    requires
        0 <= count,
    ensures
        initial_heap(count, edges).wf(),
        initial_heap(count, edges).full(),
        initial_heap(count, edges).exact(),
        initial_heap(count, edges).all_labelled(SENTINEL as int),
{
    let h = initial_heap(count, edges);
    assert forall|n: int| 0 <= n < h.indices.len() implies #[trigger] h.contains(n) by {}
}

/// Builds the heap and the edge list from the lines of a text.  The heap
/// holds every vertex below the count of the header line, each with the
/// sentinel label and the identifiers of the edges that leave it.
pub fn init_heap(lines: Vec<String>) -> (res: (Heap, Vec<Edge>))
    requires
        well_formed(text(lines@)),
    ensures
        res.1@ == edges_of(text(lines@)),
        res.0@ == initial_heap(vertex_count(text(lines@)), res.1@),
        res.0@.wf(),
        res.0@.full(),
        res.0@.all_labelled(SENTINEL as int),
        graph_of(res.0@, res.1@).listed_at_origin(),
{
    let ghost t = text(lines@);
    let parts = line_numbers(lines[0].as_str());
    assert(parts@ == numbers(t[0]));
    let len_v: usize = parts[0];
    let mut heap: Heap = Heap { indices: Vec::new(), data: Vec::new() };
    let mut i: usize = 0;
    proof {
        assert(heap@.indices =~= initial_heap(0, Seq::empty()).indices);
        assert(heap@.data =~= initial_heap(0, Seq::empty()).data);
    }
    while i < len_v
        invariant
            i <= len_v,
            heap@ == initial_heap(i as int, Seq::empty()),
        decreases len_v - i,
    {
        let v: Vert = Vert { name: i, edges: Vec::new(), label: SENTINEL };
        proof {
            lemma_initial_heap(i as int, Seq::empty());
        }
        heap_insert(&mut heap, v);
        proof {
            let before = initial_heap(i as int, Seq::empty());
            let pushed = HeapModel {
                indices: before.indices.push(i as int),
                data: before.data.push(v@),
            };
            assert(pushed.perc_up(i as int) == pushed);
            assert(pushed.indices =~= initial_heap(i + 1, Seq::empty()).indices);
            assert(pushed.data =~= initial_heap(i + 1, Seq::empty()).data);
        }
        i += 1;
    }
    let mut edges: Vec<Edge> = Vec::new();
    let mut edge_index: usize = 0;
    let mut j: usize = 0;
    assert(t.take(0) =~= Seq::<Seq<u8>>::empty());
    while j < lines.len()
        invariant
            j <= lines.len(),
            t == text(lines@),
            well_formed(t),
            len_v == vertex_count(t),
            edge_index == edges.len(),
            edges.len() <= j,
            edges@ == edges_of(t.take(j as int)),
            heap@ == initial_heap(len_v as int, edges@),
        decreases lines.len() - j,
    {
        let nums = line_numbers(lines[j].as_str());
        proof {
            assert(nums@ == numbers(t[j as int]));
            assert(t.take(j + 1).drop_last() =~= t.take(j as int));
            assert(t.take(j + 1).last() == t[j as int]);
        }
        if nums.len() == 3 {
            let e: Edge = Edge { from: nums[0], to: nums[1], val: nums[2] };
            let ghost before = heap@;
            let ghost old_edges = edges@;
            proof {
                assert(numbers(t[j as int])[0] < vertex_count(t));
                assert(before.data.len() == len_v);
            }
            heap.data[e.from].edges.push(edge_index);
            edges.push(e);
            edge_index += 1;
            proof {
                assert(edges@.drop_last() =~= old_edges);
                assert(edges@.last() == e);
                let after = initial_heap(len_v as int, edges@);
                assert(heap@.indices =~= after.indices);
                assert forall|u: int| 0 <= u < len_v implies heap@.data[u] == after.data[u] by {
                    assert(before.data[u].edges == leaving(old_edges, u));
                    if u == e.from {
                        assert(heap@.data[u].edges =~= leaving(old_edges, u).push(
                            (edges@.len() - 1) as usize,
                        ));
                    } else {
                        assert(heap@.data[u] == before.data[u]);
                    }
                }
                assert(heap@.data =~= after.data);
            }
        }
        j += 1;
    }
    proof {
        assert(t.take(lines.len() as int) =~= t);
        lemma_initial_heap(len_v as int, edges@);
        let g = graph_of(heap@, edges@);
        assert forall|u: int, k: int| 0 <= u < g.adj.len() && 0 <= k < g.adj[u].len() implies {
            &&& 0 <= #[trigger] g.edge_id(u, k) < g.edges.len()
            &&& g.edges[g.edge_id(u, k)].from == u
        } by {
            lemma_leaving(edges@, u);
            assert(g.adj[u] == leaving(edges@, u));
        }
    }
    (heap, edges)
}

} // verus!
