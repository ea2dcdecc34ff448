use aisd::union_by_rank::UnionFind as RankUF;
use aisd::union_by_size::UnionFind as SizeUF;

#[test]
fn size_uf_doc_example() {
    let mut uf = SizeUF::new(42);
    assert_eq!(uf.find(100500), None);
    assert_eq!(uf.find(13), Some(13));
    uf.union(13, 0);
    assert_eq!(uf.find(13), Some(0));
    assert_eq!(uf.find(0), Some(0));
    assert_eq!(uf.find(0), uf.find(13));
}

#[test]
fn size_uf_new_singletons() {
    let uf = SizeUF::new(5);
    assert_eq!(uf.size(), 5);
    let mut uf = uf;
    for i in 0..5 {
        assert_eq!(uf.find(i), Some(i));
    }
    let empty = SizeUF::new(0);
    assert_eq!(empty.size(), 0);
}

#[test]
fn size_uf_union_joins_and_keeps_size() {
    let mut uf = SizeUF::new(6);
    uf.union(0, 1);
    uf.union(2, 3);
    assert_eq!(uf.size(), 6);
    assert_eq!(uf.find(0), uf.find(1));
    assert_eq!(uf.find(2), uf.find(3));
    assert_ne!(uf.find(0), uf.find(2));
    uf.union(1, 3);
    assert_eq!(uf.find(0), uf.find(2));
    assert_ne!(uf.find(0), uf.find(5));
    assert_eq!(uf.size(), 6);
}

#[test]
fn size_uf_union_out_of_range_is_noop() {
    let mut uf = SizeUF::new(3);
    uf.union(0, 7);
    uf.union(9, 1);
    for i in 0..3 {
        assert_eq!(uf.find(i), Some(i));
    }
}

#[test]
fn size_uf_smaller_tree_moves() {
    let mut uf = SizeUF::new(5);
    uf.union(0, 1);
    uf.union(0, 2);
    // {0,1,2} has the larger tree, so the singleton joins it
    let big_root = uf.find(0).unwrap();
    uf.union(3, 0);
    assert_eq!(uf.find(3), Some(big_root));
}

#[test]
fn rank_uf_basics() {
    let mut uf = RankUF::new(4);
    assert_eq!(uf.size(), 4);
    for i in 0..4 {
        assert_eq!(uf.find(i), Some(i));
    }
    assert_eq!(uf.find(4), None);
    uf.union(1, 2);
    assert_eq!(uf.find(1), uf.find(2));
    assert_ne!(uf.find(0), uf.find(1));
    assert_eq!(uf.size(), 4);
}

#[test]
fn rank_uf_chain_of_unions() {
    let mut uf = RankUF::new(8);
    uf.union(0, 1);
    uf.union(2, 3);
    uf.union(4, 5);
    uf.union(6, 7);
    uf.union(1, 3);
    uf.union(5, 7);
    uf.union(3, 7);
    let r = uf.find(0);
    for i in 1..8 {
        assert_eq!(uf.find(i), r);
    }
}

#[test]
fn rank_uf_union_is_idempotent_on_same_set() {
    let mut uf = RankUF::new(3);
    uf.union(0, 1);
    let r01 = uf.find(0);
    uf.union(0, 1);
    uf.union(1, 0);
    assert_eq!(uf.find(0), r01);
    assert_eq!(uf.find(1), r01);
    assert_ne!(uf.find(2), r01);
}

#[test]
fn size_uf_sizes_sum_to_element_count() {
    let mut uf = SizeUF::new(7);
    uf.union(0, 1);
    uf.union(2, 3);
    uf.union(0, 3);
    let total: usize = uf.sizes.iter().sum();
    assert_eq!(total, 7);
}
