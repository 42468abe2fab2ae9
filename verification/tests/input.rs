use prim_mst::graph::Edge;
use prim_mst::heap::{Heap, Vert};
use prim_mst::input::{init_heap, input_well_formed, line_numbers};
use prim_mst::traversal::{can_traverse, prim, Outcome};

fn lines(text: &[&str]) -> Vec<String> {
    text.iter().map(|l| l.to_string()).collect()
}

fn by_std(line: &str) -> Vec<usize> {
    line.split_ascii_whitespace().filter_map(|w| w.parse().ok()).collect()
}

#[test]
fn numbers_of_plain_lines() {
    assert_eq!(line_numbers("4 5"), vec![4, 5]);
    assert_eq!(line_numbers("0 1 3"), vec![0, 1, 3]);
    assert_eq!(line_numbers("17"), vec![17]);
    assert_eq!(line_numbers(""), Vec::<usize>::new());
}

#[test]
fn numbers_skip_what_is_no_number() {
    assert_eq!(line_numbers("1  2"), vec![1, 2]);
    assert_eq!(line_numbers(" 1 2 "), vec![1, 2]);
    assert_eq!(line_numbers("a 1 b 2 c"), vec![1, 2]);
    assert_eq!(line_numbers("12a 3"), vec![3]);
    assert_eq!(line_numbers("-1 3"), vec![3]);
    assert_eq!(line_numbers("1.5 2"), vec![2]);
    assert_eq!(line_numbers("1,2 3"), vec![3]);
    assert_eq!(line_numbers("1\u{000b}2 3"), vec![3]);
    assert_eq!(line_numbers("1\u{00a0}2 3"), vec![3]);
    assert_eq!(line_numbers("\u{0661} 2 \u{00e9}3"), vec![2]);
}

#[test]
fn numbers_are_separated_by_white_space() {
    assert_eq!(line_numbers("1\t2"), vec![1, 2]);
    assert_eq!(line_numbers("1 2\r"), vec![1, 2]);
    assert_eq!(line_numbers("\t 1\n2\u{000c}3\r\n"), vec![1, 2, 3]);
    assert_eq!(line_numbers(" \t "), Vec::<usize>::new());
}

#[test]
fn numbers_take_a_plus_sign_and_leading_zeros() {
    assert_eq!(line_numbers("+7 008"), vec![7, 8]);
    assert_eq!(line_numbers("+ ++1 +-1 1+"), Vec::<usize>::new());
    assert_eq!(line_numbers("+0 0"), vec![0, 0]);
}

#[test]
fn numbers_stop_at_the_largest_value() {
    let max = usize::MAX.to_string();
    assert_eq!(line_numbers(&max), vec![usize::MAX]);
    let over = format!("{}0 1", max);
    assert_eq!(line_numbers(&over), vec![1]);
    let next = format!("1{}", "0".repeat(max.len()));
    assert_eq!(line_numbers(&next), Vec::<usize>::new());
    let mut digits = max.into_bytes();
    let last = digits.len() - 1;
    digits[last] += 1;
    let above = String::from_utf8(digits).unwrap();
    assert_eq!(line_numbers(&above), Vec::<usize>::new());
    let padded = format!("000{}", usize::MAX);
    assert_eq!(line_numbers(&padded), vec![usize::MAX]);
}

#[test]
fn numbers_agree_with_the_standard_parser() {
    let samples = [
        "",
        " ",
        "  ",
        "3 4",
        "3  4",
        " 3 4 ",
        "+3 -4 ++5 +",
        "0x10 10 1e3 1_000",
        "18446744073709551615 18446744073709551616 4294967295 4294967296",
        "99999999999999999999999999999999 1",
        "\u{0661}\u{0662}\u{0663} 123 \u{ff11}\u{ff12}\u{ff13}",
        "1\t2 3\n4 5\r",
        "1\u{000b}2 3\u{000c}4 5\u{0085}6 7\u{2003}8",
        "\t\t9\t\t",
        "007 +007 -007",
        "\u{00e9} 9 \u{00fc}8 7\u{00fc}",
        "1 2 3 4 5 6 7 8 9 10",
    ];
    for s in samples.iter() {
        assert_eq!(line_numbers(s), by_std(s), "line {:?}", s);
    }
}

#[test]
fn well_formed_input_is_recognised() {
    assert!(input_well_formed(&lines(&["4 5", "0 1 1", "3 2 4"])));
    assert!(input_well_formed(&lines(&["1 0"])));
    assert!(input_well_formed(&lines(&["2 1 extra", "junk", "", "1 0 9"])));
    assert!(input_well_formed(&lines(&["0 0"])));
}

#[test]
fn malformed_input_is_recognised() {
    assert!(!input_well_formed(&lines(&[])));
    assert!(!input_well_formed(&lines(&[""])));
    assert!(!input_well_formed(&lines(&["4"])));
    assert!(!input_well_formed(&lines(&["4 5", "4 0 1"])));
    assert!(!input_well_formed(&lines(&["0 0", "0 0 0"])));
    // A header of three numbers is read as an edge as well, and that edge
    // leaves the vertex just above the count.
    assert!(!input_well_formed(&lines(&["3 1 2", "0 1 1"])));
    assert!(input_well_formed(&lines(&["3 1 2 0", "0 1 1"])));
}

#[test]
fn init_builds_vertices_in_name_order() {
    let (heap, edges) = init_heap(lines(&["3 2", "0 1 3", "2 0 4", "0 2 5"]));
    assert_eq!(
        edges,
        vec![
            Edge { from: 0, to: 1, val: 3 },
            Edge { from: 2, to: 0, val: 4 },
            Edge { from: 0, to: 2, val: 5 },
        ]
    );
    assert_eq!(
        heap,
        Heap {
            indices: vec![0, 1, 2],
            data: vec![
                Vert { name: 0, edges: vec![0, 2], label: i32::MAX },
                Vert { name: 1, edges: vec![], label: i32::MAX },
                Vert { name: 2, edges: vec![1], label: i32::MAX },
            ],
        }
    );
}

#[test]
fn init_skips_lines_that_are_no_edges() {
    let (heap, edges) = init_heap(lines(&["2 1", "", "0 1", "0 1 2 3", "x y z", "1 0 6"]));
    assert_eq!(edges, vec![Edge { from: 1, to: 0, val: 6 }]);
    assert_eq!(heap.data[1].edges, vec![0]);
    assert_eq!(heap.data[0].edges, Vec::<usize>::new());
    let (_, edges) = init_heap(lines(&["2\t1", "0\t1\t4", "1 x 0 y 5"]));
    assert_eq!(edges, vec![Edge { from: 0, to: 1, val: 4 }, Edge { from: 1, to: 0, val: 5 }]);
}

#[test]
fn init_of_no_vertices() {
    let (heap, edges) = init_heap(lines(&["0 0"]));
    assert_eq!(heap, Heap { indices: vec![], data: vec![] });
    assert_eq!(edges, vec![]);
    assert!(!can_traverse(&heap, &edges, 0));
}

#[test]
fn built_graph_can_be_traversed() {
    let (heap, edges) = init_heap(lines(&["3 2", "0 1 3", "1 2 4"]));
    assert!(can_traverse(&heap, &edges, 0));
    assert!(can_traverse(&heap, &edges, 2));
    assert!(!can_traverse(&heap, &edges, 3));
    assert_eq!(prim(heap, edges, 0), Outcome::Connected(7));
}

#[test]
fn edge_to_a_missing_vertex_cannot_be_traversed() {
    let (heap, edges) = init_heap(lines(&["2 1", "0 2 3"]));
    assert!(!can_traverse(&heap, &edges, 0));
}

#[test]
fn weights_above_the_sentinel_cannot_be_traversed() {
    let (heap, edges) = init_heap(lines(&["2 1", "0 1 2147483648"]));
    assert!(!can_traverse(&heap, &edges, 0));
    let (heap, edges) = init_heap(lines(&["2 1", "0 1 2147483647"]));
    assert!(can_traverse(&heap, &edges, 0));
    let (heap, edges) = init_heap(lines(&["2 2", "0 1 2147483647", "1 0 1"]));
    assert!(!can_traverse(&heap, &edges, 0));
    let (heap, edges) = init_heap(lines(&["2 2", "0 1 2147483646", "1 0 1"]));
    assert!(can_traverse(&heap, &edges, 0));
    let (heap, edges) = init_heap(lines(&["2 2", "0 1 18446744073709551615", "1 0 1"]));
    assert!(!can_traverse(&heap, &edges, 0));
}

#[test]
fn heap_in_use_cannot_be_traversed() {
    let edges = vec![];
    let relabelled = Heap {
        indices: vec![0, 1],
        data: vec![
            Vert { name: 0, edges: vec![], label: 0 },
            Vert { name: 1, edges: vec![], label: i32::MAX },
        ],
    };
    assert!(!can_traverse(&relabelled, &edges, 0));
    let partly_empty = Heap {
        indices: vec![0, 1],
        data: vec![Vert { name: 0, edges: vec![], label: i32::MAX }],
    };
    assert!(!can_traverse(&partly_empty, &edges, 0));
    let misindexed = Heap {
        indices: vec![1, 0],
        data: vec![
            Vert { name: 0, edges: vec![], label: i32::MAX },
            Vert { name: 1, edges: vec![], label: i32::MAX },
        ],
    };
    assert!(!can_traverse(&misindexed, &edges, 0));
    let dangling = Heap {
        indices: vec![0],
        data: vec![Vert { name: 0, edges: vec![0], label: i32::MAX }],
    };
    assert!(!can_traverse(&dangling, &edges, 0));
}
