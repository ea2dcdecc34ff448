use aisd::heap::Heap;

fn sorted_copy(v: &Vec<u64>) -> Vec<u64> {
    Heap::sort2(v.clone())
}

#[test]
fn heap_new_empty() {
    let h = Heap::new();
    assert_eq!(h.size(), 0);
    assert_eq!(h.height(), 0);
    assert!(Heap::is_heap(h.arr()));
    assert_eq!(h.min(), None);
}

#[test]
fn heap_insert_min_del_min() {
    let mut h = Heap::new();
    h.insert(4);
    h.ins(9);
    h.ins(2);
    assert_eq!(h.size(), 3);
    assert_eq!(h.min(), Some(2));
    assert!(Heap::is_heap(h.arr()));
    assert_eq!(h.del_min(), Some(2));
    assert_eq!(h.del_min(), Some(4));
    assert_eq!(h.del_min(), Some(9));
    assert_eq!(h.del_min(), None);
}

#[test]
fn heap_is_heap_detects_violation() {
    assert!(Heap::is_heap(&vec![1, 2, 3, 4, 5, 6, 7]));
    assert!(!Heap::is_heap(&vec![2, 1]));
    assert!(!Heap::is_heap(&vec![1, 5, 2, 4, 3, 9, 1]));
    assert!(Heap::is_heap(&vec![7]));
    assert!(Heap::is_heap(&Vec::new()));
}

#[test]
fn heap_make_heap_bottom_up_is_heap() {
    let v = vec![6u64, 4, 1, 7, 9, 3, 1];
    let h = Heap::make_heap_bottom_up(v.clone());
    assert_eq!(h.size(), v.len());
    assert!(Heap::is_heap(h.arr()));
    assert_eq!(sorted_copy(h.arr()), sorted_copy(&v));
}

#[test]
fn heap_make_heap_top_down_is_heap() {
    let v = vec![10u64, 8, 6, 4, 2, 0, 1, 3, 5, 7, 9];
    let h = Heap::make_heap_top_down(v.clone());
    assert_eq!(h.size(), v.len());
    assert!(Heap::is_heap(h.arr()));
    assert_eq!(sorted_copy(h.arr()), sorted_copy(&v));
}

#[test]
fn heap_wut_make_heap_preserves_contents() {
    let v = vec![6u64, 4, 1, 7, 9, 3, 1, 12, 0];
    let h = Heap::wut_make_heap(v.clone());
    assert_eq!(h.size(), v.len());
    assert_eq!(sorted_copy(h.arr()), sorted_copy(&v));
    let e = Heap::wut_make_heap(Vec::new());
    assert_eq!(e.size(), 0);
}

#[test]
fn heap_sort_ascending() {
    let mut v = vec![5u64, 5, 4, 10, 0];
    Heap::sort(&mut v);
    assert_eq!(v, vec![0, 4, 5, 5, 10]);
}

#[test]
fn heap_sort2_ascending() {
    assert_eq!(Heap::sort2(vec![3, 1, 2]), vec![1, 2, 3]);
}

#[test]
fn heap_height_matches_sizes() {
    let mut h = Heap::new();
    h.insert(1);
    assert_eq!(h.height(), 1);
    h.insert(2);
    assert_eq!(h.height(), 2);
    h.insert(3);
    assert_eq!(h.height(), 3);
    h.insert(4);
    assert_eq!(h.height(), 3);
    h.insert(5);
    assert_eq!(h.height(), 4);
}
