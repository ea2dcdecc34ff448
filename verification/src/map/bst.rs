//! An unbalanced binary search tree dictionary.

use vstd::prelude::*;
use crate::map::Dict;

verus! {

/// A binary search tree: empty, or a node carrying a key, a value and
/// two subtrees, with all smaller keys on the left and all greater
/// keys on the right.
pub enum Tree<V> {
    E,
    N(usize, V, Box<Tree<V>>, Box<Tree<V>>),
}

impl<V> Tree<V> {
    /// The bindings held by the tree.  On overlapping keys the right
    /// subtree would win, but a search tree has none.
    pub open spec fn as_map(self) -> Map<usize, V>
        decreases self,
    {
        match self {
            Tree::E => Map::empty(),
            Tree::N(k, v, l, r) => l.as_map().union_prefer_right(r.as_map()).insert(k, v),
        }
    }

    /// The search-tree order: keys on the left are smaller, keys on the
    /// right are greater, recursively.
    pub open spec fn bst(self) -> bool
        decreases self,
    {
        match self {
            Tree::E => true,
            Tree::N(k, v, l, r) => {
                &&& l.bst()
                &&& r.bst()
                &&& forall|x: usize| l.as_map().dom().contains(x) ==> x < k
                &&& forall|x: usize| r.as_map().dom().contains(x) ==> x > k
            },
        }
    }

    /// The number of nodes.
    pub open spec fn num_nodes(self) -> nat
        decreases self,
    {
        match self {
            Tree::E => 0,
            Tree::N(k, v, l, r) => 1 + l.num_nodes() + r.num_nodes(),
        }
    }

    /// Count the nodes of the tree.
    pub fn size(&self) -> (r: usize)
        requires
            self.num_nodes() <= usize::MAX,
        ensures
            r == self.num_nodes(),
        decreases *self,
    {
        match self {
            Tree::E => 0,
            Tree::N(_k, _v, l, r) => 1 + l.size() + r.size(),
        }
    }
}

impl<V> Dict<V> for Tree<V> {
    open spec fn inv(&self) -> bool {
        self.bst()
    }

    open spec fn model(&self) -> Map<usize, V> {
        self.as_map()
    }

    fn new() -> (d: Self) {
        Tree::E
    }

    fn find(&self, key: &usize) -> (r: Option<&V>)
        decreases *self,
    {
        match self {
            Tree::E => None,
            Tree::N(k, v, l, r) => {
                if *key < *k {
                    proof {
                        assert(!r.as_map().dom().contains(*key));
                    }
                    l.find(key)
                } else if *key > *k {
                    proof {
                        assert(!l.as_map().dom().contains(*key));
                    }
                    r.find(key)
                } else {
                    Some(v)
                }
            },
        }
    }

    fn ins(&mut self, key: usize, value: V)
        decreases *old(self),
    {
        match self {
            Tree::E => {
                *self = Tree::N(key, value, Box::new(Tree::E), Box::new(Tree::E));
            },
            Tree::N(k, v, l, r) => {
                if key < *k {
                    proof {
                        assert(!r.as_map().dom().contains(key));
                    }
                    l.ins(key, value);
                } else if key > *k {
                    proof {
                        assert(!l.as_map().dom().contains(key));
                    }
                    r.ins(key, value);
                } else {
                    proof {
                        assert(!l.as_map().dom().contains(key));
                        assert(!r.as_map().dom().contains(key));
                    }
                    *v = value;
                }
            },
        }
    }

    fn del(&mut self, key: &usize) -> (r: Option<V>) {
        None
    }
}

} // verus!
