use prim_mst::graph::Edge;
use prim_mst::heap::{Heap, Vert};
use prim_mst::input::init_heap;
use prim_mst::traversal::{prim, Outcome};

fn lines(text: &[&str]) -> Vec<String> {
    text.iter().map(|l| l.to_string()).collect()
}

fn run(text: &[&str]) -> Outcome {
    let (heap, edges) = init_heap(lines(text));
    prim(heap, edges, 0)
}

#[test]
fn connected_graph_gives_known_weight() {
    let out = run(&["4 5", "0 1 1", "0 2 4", "1 2 2", "1 3 5", "2 3 1"]);
    assert_eq!(out, Outcome::Connected(4));
}

#[test]
fn isolated_vertex_is_not_connected() {
    let out = run(&["3 1", "0 1 3"]);
    assert_eq!(out, Outcome::NotConnected(3));
    assert!(!matches!(out, Outcome::Connected(_)));
}

#[test]
fn single_vertex_weighs_nothing() {
    assert_eq!(run(&["1 0"]), Outcome::Connected(0));
}

#[test]
fn traversal_is_repeatable() {
    let text = ["5 7", "0 1 7", "0 2 3", "2 1 1", "1 3 2", "2 3 8", "3 4 4", "2 4 9"];
    let first = run(&text);
    let second = run(&text);
    assert_eq!(first, second);
    assert_eq!(first, Outcome::Connected(10));
}

#[test]
fn symmetric_listing_gives_tree_weight() {
    // A square with one diagonal, each edge listed in both directions.
    let out = run(&[
        "4 10", "0 1 4", "1 0 4", "1 2 3", "2 1 3", "2 3 2", "3 2 2", "3 0 1", "0 3 1", "0 2 5",
        "2 0 5",
    ]);
    assert_eq!(out, Outcome::Connected(6));
}

#[test]
fn edge_against_the_direction_does_not_connect() {
    // The only edge leads into the start vertex, so nothing leaves it.
    assert_eq!(run(&["2 1", "1 0 5"]), Outcome::NotConnected(0));
}

#[test]
fn other_start_vertex() {
    let (heap, edges) = init_heap(lines(&["3 2", "2 1 6", "1 0 2"]));
    assert_eq!(prim(heap, edges, 2), Outcome::Connected(8));
}

#[test]
fn weight_of_the_sentinel_does_not_connect() {
    let (heap, edges) = init_heap(lines(&["2 1", "0 1 2147483647"]));
    assert_eq!(prim(heap, edges, 0), Outcome::NotConnected(0));
}

/// The weight of a lightest tree that spans what can be reached from vertex
/// 0, found by scanning all edges for each vertex added, and whether that is
/// every vertex.
fn by_scanning(count: usize, edges: &[(usize, usize, usize)]) -> (usize, bool) {
    let mut inside = vec![false; count];
    inside[0] = true;
    let mut total = 0;
    loop {
        let best = edges
            .iter()
            .filter(|e| inside[e.0] != inside[e.1])
            .map(|e| (e.2, if inside[e.0] { e.1 } else { e.0 }))
            .min();
        match best {
            Some((weight, vertex)) => {
                inside[vertex] = true;
                total += weight;
            }
            None => return (total, inside.iter().all(|b| *b)),
        }
    }
}

#[test]
fn weight_is_least_on_graphs_listed_both_ways() {
    let mut seed: u64 = 0x9e37_79b9_7f4a_7c15;
    let mut next = move |bound: u64| {
        seed ^= seed << 13;
        seed ^= seed >> 7;
        seed ^= seed << 17;
        seed % bound
    };
    for round in 0..300 {
        let count = 1 + next(7) as usize;
        let wanted = next(12) as usize;
        let mut edges = vec![];
        for _ in 0..wanted {
            let a = next(count as u64) as usize;
            let b = next(count as u64) as usize;
            edges.push((a, b, next(10) as usize));
        }
        let mut text = vec![format!("{} {}", count, 2 * edges.len())];
        for (a, b, w) in edges.iter() {
            text.push(format!("{} {} {}", a, b, w));
            text.push(format!("{} {} {}", b, a, w));
        }
        let (heap, list) = init_heap(text);
        let (weight, all) = by_scanning(count, &edges);
        let expected = if all {
            Outcome::Connected(weight as i32)
        } else {
            Outcome::NotConnected(weight as i32)
        };
        assert_eq!(prim(heap, list, 0), expected, "round {}", round);
    }
}

#[test]
fn ties_do_not_change_the_weight() {
    let out = run(&[
        "5 12", "0 1 2", "1 0 2", "0 2 2", "2 0 2", "1 2 2", "2 1 2", "1 3 2", "3 1 2", "2 4 2",
        "4 2 2", "3 4 2", "4 3 2",
    ]);
    assert_eq!(out, Outcome::Connected(8));
}

#[test]
fn parallel_edges_and_loops() {
    let out = run(&["2 6", "0 0 1", "0 1 9", "1 0 9", "0 1 4", "1 0 4", "1 1 0"]);
    assert_eq!(out, Outcome::Connected(4));
}

#[test]
fn largest_total_that_fits() {
    let out = run(&["3 2", "0 1 2147483646", "1 2 1"]);
    assert_eq!(out, Outcome::Connected(2147483647));
    let out = run(&["3 3", "0 1 2147483646", "1 2 1", "2 1 0"]);
    assert_eq!(out, Outcome::Connected(2147483647));
}

#[test]
fn traversal_of_a_heap_built_by_hand() {
    let heap = Heap {
        indices: vec![0, 1],
        data: vec![
            Vert { name: 0, edges: vec![0], label: i32::MAX },
            Vert { name: 1, edges: vec![], label: i32::MAX },
        ],
    };
    let edges = vec![Edge { from: 0, to: 1, val: 9 }];
    assert_eq!(prim(heap, edges, 0), Outcome::Connected(9));
}
