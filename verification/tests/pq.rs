use aisd::pq::{Heap, PriorityQueue};

fn is_ascending(v: &Vec<u64>) -> bool {
    v.windows(2).all(|w| w[0] <= w[1])
}

#[test]
fn pq_new_is_empty() {
    let h = Heap::new();
    assert!(h.is_empty());
    assert_eq!(h.size(), 0);
    assert_eq!(h.height(), 0);
    assert!(Heap::is_heap(h.arr()));
    assert_eq!(h.min(), None);
}

#[test]
fn pq_insert_and_min() {
    let mut h = Heap::new();
    h.insert(5);
    h.insert(3);
    h.insert(9);
    assert_eq!(h.size(), 3);
    assert!(!h.is_empty());
    assert_eq!(h.min(), Some(3));
    assert!(Heap::is_heap(h.arr()));
    h.ins(1);
    assert_eq!(h.min(), Some(1));
    assert_eq!(h.size(), 4);
}

#[test]
fn pq_del_min_ascending() {
    let mut h = Heap::new();
    for x in [6u64, 2, 8, 2, 0, 11] {
        h.insert(x);
    }
    let mut out = Vec::new();
    while let Some(x) = h.del_min() {
        assert!(Heap::is_heap(h.arr()));
        out.push(x);
    }
    assert_eq!(out, vec![0, 2, 2, 6, 8, 11]);
    assert_eq!(h.del_min(), None);
}

#[test]
fn pq_height_small_sizes() {
    let mut h = Heap::new();
    let expected = [1u32, 2, 3, 3, 4, 4, 4, 4, 5];
    for (k, e) in expected.iter().enumerate() {
        h.insert(k as u64);
        assert_eq!(h.height(), *e, "height at size {}", k + 1);
    }
}

#[test]
fn pq_is_heap_aux_directions() {
    let minheap = vec![1u64, 2, 3, 4, 5];
    let maxheap = vec![5u64, 4, 3, 2, 1];
    assert!(Heap::is_heap_aux(&minheap, true));
    assert!(!Heap::is_heap_aux(&minheap, false));
    assert!(Heap::is_heap_aux(&maxheap, false));
    assert!(!Heap::is_heap_aux(&maxheap, true));
    let not_heap = vec![3u64, 1, 2];
    assert!(!Heap::is_heap(&not_heap));
}

#[test]
fn pq_make_heap_bottom_up_valid() {
    let v = vec![6u64, 4, 1, 7, 9, 3, 1];
    let h = Heap::make_heap_bottom_up(v.clone());
    assert_eq!(h.size(), v.len());
    assert!(Heap::is_heap(h.arr()));
}

#[test]
fn pq_make_heap_top_down_valid() {
    let v = vec![6u64, 4, 1, 7, 9, 3, 1];
    let h = Heap::make_heap_top_down(v.clone());
    assert_eq!(h.size(), v.len());
    assert!(Heap::is_heap(h.arr()));
    let e = Heap::make_heap_top_down(Vec::new());
    assert!(e.is_empty());
}

#[test]
fn pq_sort_sorts_in_place() {
    let mut v = vec![9u64, 1, 8, 1, 0, 42, 5];
    Heap::sort(&mut v);
    assert_eq!(v, vec![0, 1, 1, 5, 8, 9, 42]);
}

#[test]
fn pq_sort2_sorts() {
    let v = vec![3u64, 3, 2, 10, 7];
    let s = Heap::sort2(v.clone());
    assert!(is_ascending(&s));
    assert_eq!(s.len(), v.len());
    assert_eq!(s, vec![2, 3, 3, 7, 10]);
    assert!(Heap::sort2(Vec::new()).is_empty());
}

#[test]
fn pq_equality_ignores_arrangement() {
    let a = Heap::make_heap_bottom_up(vec![3, 1, 4, 1, 5]);
    let b = Heap::make_heap_top_down(vec![5, 4, 3, 1, 1]);
    assert!(a == b);
    let mut c = a.clone();
    c.insert(0);
    assert!(a != c);
}

#[test]
fn pq_reinsert_restores_equality() {
    let h = Heap::make_heap_top_down(vec![7, 2, 9, 2]);
    let mut h2 = h.clone();
    let m = h2.del_min().unwrap();
    h2.ins(m);
    assert!(h2 == h);
}
