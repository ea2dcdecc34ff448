use aisd::map::Dict;
use aisd::map::bst::Tree;

#[test]
fn map_find_new() {
    let t: Tree<u32> = Tree::new();
    assert_eq!(t.find(&7), None);
    assert_eq!(t.size(), 0);
}

#[test]
fn map_find_ins() {
    let mut t: Tree<u32> = Tree::new();
    t.ins(5, 50);
    t.ins(2, 20);
    t.ins(8, 80);
    assert_eq!(t.find(&5), Some(&50));
    assert_eq!(t.find(&2), Some(&20));
    assert_eq!(t.find(&8), Some(&80));
    assert_eq!(t.find(&3), None);
    assert_eq!(t.size(), 3);
}

#[test]
fn map_ins_overwrites() {
    let mut t: Tree<&'static str> = Tree::new();
    t.ins(1, "one");
    t.ins(1, "uno");
    assert_eq!(t.find(&1), Some(&"uno"));
    assert_eq!(t.size(), 1);
}

#[test]
fn map_del_returns_none() {
    let mut t: Tree<u32> = Tree::new();
    t.ins(4, 44);
    assert_eq!(t.del(&4), None);
    assert_eq!(t.find(&4), Some(&44));
    assert_eq!(t.size(), 1);
    let mut e: Tree<u32> = Tree::new();
    assert_eq!(e.del(&9), None);
}

#[test]
fn map_many_keys() {
    let mut t: Tree<usize> = Tree::new();
    for k in [50usize, 20, 70, 10, 30, 60, 80, 25, 35] {
        t.ins(k, k * 10);
    }
    assert_eq!(t.size(), 9);
    for k in [50usize, 20, 70, 10, 30, 60, 80, 25, 35] {
        assert_eq!(t.find(&k), Some(&(k * 10)));
    }
    assert_eq!(t.find(&55), None);
}
