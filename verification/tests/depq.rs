use aisd::depq::{DoubleHeap, DEPQ};

/// Check that both arrays are heap-ordered and mirror each other:
/// `max_array[min_array[i].mirror].mirror == i` with equal values, and
/// symmetrically.
fn check_invariants(h: &DoubleHeap) {
    assert!(h.is_heap());
    assert_eq!(h.min_array.len(), h.max_array.len());
    for (i, s) in h.min_array.iter().enumerate() {
        let m = &h.max_array[s.mirror];
        assert_eq!(m.mirror, i);
        assert_eq!(m.val, s.val);
    }
    for (i, s) in h.max_array.iter().enumerate() {
        let m = &h.min_array[s.mirror];
        assert_eq!(m.mirror, i);
        assert_eq!(m.val, s.val);
    }
}

fn drain_ascending(mut h: DoubleHeap) -> Vec<u64> {
    let mut out = Vec::new();
    while let Some(x) = h.del_min() {
        check_invariants(&h);
        out.push(x);
    }
    out
}

#[test]
fn depq_empty_semantics() {
    let mut q = DoubleHeap::new();
    assert_eq!(q.size(), 0);
    assert!(q.is_empty());
    assert_eq!(q.min(), None);
    assert_eq!(q.max(), None);
    assert_eq!(q.del_min(), None);
    assert_eq!(q.del_max(), None);
    assert_eq!(q.size(), 0);
    check_invariants(&q);
}

#[test]
fn depq_build_and_delete_max() {
    let mut q = DoubleHeap::make_heap(vec![99, 97, 95, 94, 96]);
    check_invariants(&q);
    assert_eq!(q.min(), Some(94));
    assert_eq!(q.max(), Some(99));
    assert_eq!(q.size(), 5);

    let mut maxes = Vec::new();
    while let Some(x) = q.del_max() {
        check_invariants(&q);
        maxes.push(x);
    }
    assert_eq!(maxes, vec![99, 97, 96, 95, 94]);
    assert!(q.is_empty());
    assert!(q.min_array.is_empty());
    assert!(q.max_array.is_empty());
}

#[test]
fn depq_insert_one_through_twelve() {
    let mut q = DoubleHeap::new();
    for x in 1..=12 {
        q.ins(x);
        check_invariants(&q);
    }
    assert_eq!(q.min(), Some(1));
    assert_eq!(q.max(), Some(12));
    assert_eq!(q.size(), 12);
}

#[test]
fn depq_single_element_delete_min() {
    let mut q = DoubleHeap::new();
    q.ins(7);
    assert_eq!(q.del_min(), Some(7));
    assert_eq!(q.size(), 0);
    assert!(q.min_array.is_empty());
    assert!(q.max_array.is_empty());
}

#[test]
fn depq_single_element_delete_max() {
    let mut q = DoubleHeap::new();
    q.ins(7);
    assert_eq!(q.del_max(), Some(7));
    assert_eq!(q.size(), 0);
    assert!(q.min_array.is_empty());
    assert!(q.max_array.is_empty());
}

#[test]
fn depq_duplicates() {
    let mut q = DoubleHeap::new();
    q.ins_all(vec![5, 5, 5]);
    check_invariants(&q);
    assert_eq!(q.size(), 3);
    assert_eq!(q.del_min(), Some(5));
    assert_eq!(q.del_min(), Some(5));
    assert_eq!(q.del_min(), Some(5));
    assert_eq!(q.del_min(), None);
    assert!(q.is_empty());
}

#[test]
fn depq_size_laws() {
    let mut q = DoubleHeap::make_heap(vec![4, 1, 3]);
    assert_eq!(q.size(), 3);
    q.ins(2);
    assert_eq!(q.size(), 4);
    assert!(q.del_min().is_some());
    assert_eq!(q.size(), 3);
    assert!(q.del_max().is_some());
    assert_eq!(q.size(), 2);
}

#[test]
fn depq_extremal_after_delete() {
    let mut q = DoubleHeap::make_heap(vec![8, 3, 5, 3, 9, 1, 7]);
    let m = q.del_min().unwrap();
    assert_eq!(m, 1);
    for s in &q.min_array {
        assert!(m <= s.val);
    }
    let x = q.del_max().unwrap();
    assert_eq!(x, 9);
    for s in &q.max_array {
        assert!(s.val <= x);
    }
}

#[test]
fn depq_round_trip_min() {
    let mut q = DoubleHeap::make_heap(vec![6, 2, 9, 2, 5]);
    let before = drain_ascending(q.clone());
    let m = q.del_min().unwrap();
    q.ins(m);
    check_invariants(&q);
    let after = drain_ascending(q);
    assert_eq!(before, after);
}

#[test]
fn depq_round_trip_max() {
    let mut q = DoubleHeap::make_heap(vec![6, 2, 9, 2, 5]);
    let before = drain_ascending(q.clone());
    let m = q.del_max().unwrap();
    q.ins(m);
    check_invariants(&q);
    let after = drain_ascending(q);
    assert_eq!(before, after);
}

#[test]
fn depq_make_heap_matches_ins_all() {
    let items = vec![42, 17, 17, 99, 0, 3, 8, 21];
    let built = DoubleHeap::make_heap(items.clone());
    check_invariants(&built);
    let mut inserted = DoubleHeap::new();
    inserted.ins_all(items);
    check_invariants(&inserted);
    assert_eq!(drain_ascending(built), drain_ascending(inserted));
}

#[test]
fn depq_interleaved_operations() {
    let mut q = DoubleHeap::new();
    q.ins(10);
    q.ins(4);
    q.ins(8);
    assert_eq!(q.del_min(), Some(4));
    q.ins(1);
    q.ins(12);
    assert_eq!(q.del_max(), Some(12));
    assert_eq!(q.del_max(), Some(10));
    assert_eq!(q.min(), Some(1));
    assert_eq!(q.max(), Some(8));
    check_invariants(&q);
    assert_eq!(drain_ascending(q), vec![1, 8]);
}

#[test]
fn depq_equality_ignores_arrangement() {
    let a = DoubleHeap::make_heap(vec![3, 1, 4, 1, 5]);
    let mut b = DoubleHeap::new();
    b.ins_all(vec![5, 4, 3, 1, 1]);
    assert!(a == b);
    let c = DoubleHeap::make_heap(vec![3, 1, 4, 1, 6]);
    assert!(a != c);
}

#[test]
fn depq_reinsert_restores_equality() {
    let h = DoubleHeap::make_heap(vec![7, 2, 9, 2]);
    let mut h2 = h.clone();
    let m = h2.del_min().unwrap();
    h2.ins(m);
    assert!(h2 == h);
    let mut h3 = h.clone();
    let x = h3.del_max().unwrap();
    h3.ins(x);
    assert!(h3 == h);
}
