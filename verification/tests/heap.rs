use prim_mst::heap::{
    decrease_key, heap_extract, heap_insert, heap_swap, perc_up, sift_down, Heap, HeapError, Vert,
};

fn vert(name: usize, label: i32) -> Vert {
    Vert { name, edges: vec![], label }
}

fn empty() -> Heap {
    Heap { indices: vec![], data: vec![] }
}

fn heap_of(labels: &[i32]) -> Heap {
    let mut heap = empty();
    for (name, label) in labels.iter().enumerate() {
        heap_insert(&mut heap, vert(name, *label));
    }
    heap
}

fn labels(heap: &Heap) -> Vec<i32> {
    heap.data.iter().map(|v| v.label).collect()
}

fn names(heap: &Heap) -> Vec<usize> {
    heap.data.iter().map(|v| v.name).collect()
}

fn index_consistent(heap: &Heap) -> bool {
    heap.data
        .iter()
        .enumerate()
        .all(|(slot, v)| v.name < heap.indices.len() && heap.indices[v.name] == slot)
}

fn heap_ordered(heap: &Heap) -> bool {
    (0..heap.data.len()).all(|i| {
        [2 * i + 1, 2 * i + 2]
            .iter()
            .all(|c| *c >= heap.data.len() || heap.data[i].label <= heap.data[*c].label)
    })
}

#[test]
fn insert_appends_and_moves_up() {
    let heap = heap_of(&[5, 3, 8, 1]);
    assert_eq!(labels(&heap), vec![1, 3, 8, 5]);
    assert_eq!(names(&heap), vec![3, 1, 2, 0]);
    assert_eq!(heap.indices, vec![3, 1, 2, 0]);
}

#[test]
fn insert_keeps_equal_labels_in_place() {
    let heap = heap_of(&[i32::MAX, i32::MAX, i32::MAX]);
    assert_eq!(names(&heap), vec![0, 1, 2]);
    assert_eq!(heap.indices, vec![0, 1, 2]);
}

#[test]
fn extract_from_empty_heap_is_an_error() {
    let mut heap = empty();
    assert_eq!(heap_extract(&mut heap), Err(HeapError::EmptyHeapExtraction));
    assert_eq!(heap, empty());
}

#[test]
fn extract_returns_the_minimum_and_restores_order() {
    let mut heap = heap_of(&[5, 3, 8, 1, 9, 2]);
    let v = heap_extract(&mut heap).unwrap();
    assert_eq!((v.name, v.label), (3, 1));
    assert_eq!(labels(&heap), vec![2, 3, 8, 5, 9]);
    assert!(index_consistent(&heap));
    assert!(heap_ordered(&heap));
}

#[test]
fn extract_of_the_last_vertex_empties_the_heap() {
    let mut heap = heap_of(&[4]);
    assert_eq!(heap_extract(&mut heap), Ok(vert(0, 4)));
    assert_eq!(heap.data.len(), 0);
    assert_eq!(heap_extract(&mut heap), Err(HeapError::EmptyHeapExtraction));
}

#[test]
fn extracted_vertex_has_a_stale_index() {
    let mut heap = heap_of(&[5, 3, 8, 1]);
    while heap.data.len() > 0 {
        let v = heap_extract(&mut heap).unwrap();
        assert!(heap.indices[v.name] >= heap.data.len());
        for name in 0..heap.indices.len() {
            let slot = heap.indices[name];
            assert!(slot >= heap.data.len() || heap.data[slot].name == name);
        }
    }
}

#[test]
fn extraction_order_is_sorted() {
    let mut heap = heap_of(&[7, 2, 9, 4, 4, 1, 8, 3]);
    let mut out = vec![];
    while let Ok(v) = heap_extract(&mut heap) {
        out.push(v.label);
    }
    assert_eq!(out, vec![1, 2, 3, 4, 4, 7, 8, 9]);
}

#[test]
fn decrease_key_sets_the_label_and_moves_up() {
    let mut heap = heap_of(&[1, 3, 8, 5]);
    decrease_key(&mut heap, 3, 0);
    assert_eq!(labels(&heap), vec![0, 1, 8, 3]);
    assert_eq!(names(&heap), vec![3, 0, 2, 1]);
    assert_eq!(heap.indices, vec![1, 3, 2, 0]);
    assert_eq!(heap.data[heap.indices[3]].label, 0);
}

#[test]
fn decrease_key_to_the_same_label_changes_nothing() {
    let mut heap = heap_of(&[1, 3, 8, 5]);
    let before = heap.clone();
    decrease_key(&mut heap, 2, 8);
    assert_eq!(heap, before);
}

#[test]
fn decrease_key_keeps_the_edge_list() {
    let mut heap = empty();
    heap_insert(&mut heap, Vert { name: 0, edges: vec![4, 2], label: 10 });
    heap_insert(&mut heap, Vert { name: 1, edges: vec![7], label: 20 });
    decrease_key(&mut heap, 1, 5);
    assert_eq!(heap.data[0], Vert { name: 1, edges: vec![7], label: 5 });
    assert_eq!(heap.data[1], Vert { name: 0, edges: vec![4, 2], label: 10 });
}

#[test]
fn swap_exchanges_records_and_index_entries() {
    let mut heap = heap_of(&[1, 3, 8, 5]);
    heap_swap(&mut heap, 0, 2);
    assert_eq!(names(&heap), vec![2, 1, 0, 3]);
    assert_eq!(heap.indices, vec![2, 1, 0, 3]);
    heap_swap(&mut heap, 3, 1);
    assert_eq!(names(&heap), vec![2, 3, 0, 1]);
    assert_eq!(heap.indices, vec![2, 3, 0, 1]);
    assert!(index_consistent(&heap));
}

#[test]
fn swap_of_a_slot_with_itself_changes_nothing() {
    let mut heap = heap_of(&[1, 3, 8]);
    let before = heap.clone();
    heap_swap(&mut heap, 1, 1);
    assert_eq!(heap, before);
}

#[test]
fn perc_up_stops_at_a_smaller_parent() {
    let mut heap = Heap {
        indices: vec![0, 1, 2, 3],
        data: vec![vert(0, 1), vert(1, 6), vert(2, 3), vert(3, 4)],
    };
    perc_up(&mut heap, 3);
    assert_eq!(labels(&heap), vec![1, 4, 3, 6]);
    assert_eq!(heap.indices, vec![0, 3, 2, 1]);
}

#[test]
fn perc_up_at_the_root_changes_nothing() {
    let mut heap = empty();
    perc_up(&mut heap, 0);
    assert_eq!(heap, empty());
    let mut heap = heap_of(&[2, 5]);
    let before = heap.clone();
    perc_up(&mut heap, 0);
    assert_eq!(heap, before);
}

#[test]
fn sift_down_follows_the_smaller_child() {
    let mut heap = Heap {
        indices: vec![0, 1, 2, 3, 4],
        data: vec![vert(0, 9), vert(1, 4), vert(2, 2), vert(3, 7), vert(4, 5)],
    };
    sift_down(&mut heap, 0);
    assert_eq!(labels(&heap), vec![2, 4, 9, 7, 5]);
    assert_eq!(heap.indices, vec![2, 1, 0, 3, 4]);
    assert!(heap_ordered(&heap));
}

#[test]
fn sift_down_prefers_the_left_child_on_a_tie() {
    let mut heap = Heap {
        indices: vec![0, 1, 2],
        data: vec![vert(0, 9), vert(1, 3), vert(2, 3)],
    };
    sift_down(&mut heap, 0);
    assert_eq!(names(&heap), vec![1, 0, 2]);
}

#[test]
fn sift_down_outside_the_heap_changes_nothing() {
    let mut heap = heap_of(&[2, 5, 3]);
    let before = heap.clone();
    sift_down(&mut heap, 3);
    sift_down(&mut heap, usize::MAX);
    assert_eq!(heap, before);
    let mut heap = empty();
    sift_down(&mut heap, 0);
    assert_eq!(heap, empty());
}

#[test]
fn invariants_hold_after_any_operation() {
    // A fixed pseudo-random sequence of operations, checked against a plain
    // list of the vertices that should be in the heap.
    let mut seed: u64 = 0x2545_f491_4f6c_dd1d;
    let mut next = move |bound: u64| {
        seed = seed.wrapping_mul(6364136223846793005).wrapping_add(1442695040888963407);
        (seed >> 33) % bound
    };
    let mut heap = empty();
    let mut shadow: Vec<(usize, i32)> = vec![];
    for _ in 0..2000 {
        match next(3) {
            0 => {
                let name = heap.indices.len();
                let label = next(1000) as i32;
                heap_insert(&mut heap, vert(name, label));
                shadow.push((name, label));
            }
            1 => {
                if !shadow.is_empty() {
                    let pick = next(shadow.len() as u64) as usize;
                    let (name, label) = shadow[pick];
                    let lower = label - next(label as u64 + 1) as i32;
                    decrease_key(&mut heap, name, lower);
                    shadow[pick].1 = lower;
                    assert_eq!(heap.data[heap.indices[name]].label, lower);
                }
            }
            _ => {
                let least = shadow.iter().map(|e| e.1).min();
                match heap_extract(&mut heap) {
                    Ok(v) => {
                        assert_eq!(Some(v.label), least);
                        let at = shadow.iter().position(|e| *e == (v.name, v.label)).unwrap();
                        shadow.remove(at);
                    }
                    Err(e) => {
                        assert_eq!(e, HeapError::EmptyHeapExtraction);
                        assert!(shadow.is_empty());
                    }
                }
            }
        }
        assert!(index_consistent(&heap));
        assert!(heap_ordered(&heap));
        assert_eq!(heap.data.len(), shadow.len());
        for (name, label) in shadow.iter() {
            assert_eq!(heap.data[heap.indices[*name]].name, *name);
            assert_eq!(heap.data[heap.indices[*name]].label, *label);
        }
    }
}
