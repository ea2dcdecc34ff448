//! Priority queues: a binary min-heap in an array.

use vstd::prelude::*;
use vstd::multiset::Multiset;
use crate::heap_order::{le, heap_ord, heap_from, heap_prefix, heap_prefix_except,
    subtree_ord, subtree_ord_except_root, lemma_heap_from_subtree, on_chain, moves_one_chain,
    in_subtree, lemma_in_subtree_ge, lemma_heap_root_bounds_mset,
    lemma_swap_to_multiset, lemma_drop_last_to_multiset, sorted, lemma_sorted_unique};
use vstd::arithmetic::power2::pow2;

verus! {

broadcast use vstd::seq_lib::group_to_multiset_ensures, vstd::seq_lib::to_multiset_update;

/// A single-ended priority queue: cheap access to the least element.
pub trait PriorityQueue: Sized {
    /// Internal well-formedness.
    spec fn inv(&self) -> bool;

    /// The multiset of elements currently held.
    spec fn mset(&self) -> Multiset<u64>;

    /// Check whether the queue is empty.
    fn is_empty(&self) -> (r: bool)
        requires
            self.inv(),
        ensures
            r == (self.mset().len() == 0),
    ;

    /// Compute the number of elements in the queue.
    fn size(&self) -> (r: usize)
        requires
            self.inv(),
        ensures
            r == self.mset().len(),
    ;

    /// Insert a new element into the queue.
    fn insert(&mut self, item: u64)
        requires
            old(self).inv(),
        ensures
            final(self).inv(),
            final(self).mset() == old(self).mset().insert(item),
    ;

    /// A short alias of `insert`.
    fn ins(&mut self, item: u64)
        requires
            old(self).inv(),
        ensures
            final(self).inv(),
            final(self).mset() == old(self).mset().insert(item),
    ;

    /// Return the least element in the queue, if any.
    fn min(&self) -> (r: Option<u64>)
        requires
            self.inv(),
        ensures
            (r is None) == (self.mset().len() == 0),
            match r {
                Some(m) => self.mset().contains(m) && forall|x: u64|
                    self.mset().contains(x) ==> m <= x,
                None => true,
            },
    ;

    /// Remove the least element from the queue and return it.
    fn del_min(&mut self) -> (r: Option<u64>)
        requires
            old(self).inv(),
        ensures
            final(self).inv(),
            (r is None) == (old(self).mset().len() == 0),
            match r {
                Some(m) => old(self).mset().contains(m) && (forall|x: u64|
                    old(self).mset().contains(x) ==> m <= x) && final(self).mset()
                    == old(self).mset().remove(m),
                None => final(self).mset() == old(self).mset(),
            },
    ;
}

/// A binary min-heap implemented implicitly in a `Vec`.
#[derive(Clone)]
pub struct Heap {
    pub array: Vec<u64>,
}

impl Heap {
    /// The min-heap shape invariant of the backing array.
    pub open spec fn wf(&self) -> bool {
        heap_ord(true, self.array@)
    }

    /// Create an empty priority queue.
    pub fn new() -> (h: Heap)
        ensures
            h.wf(),
            h.array@ =~= Seq::<u64>::empty(),
            h.mset() =~= Multiset::<u64>::empty(),
    {
        let h = Heap { array: Vec::new() };
        proof {
            assert(h.array@.to_multiset() =~= Multiset::<u64>::empty());
        }
        h
    }

    /// Get a reference to the heap's inner array.
    pub fn arr(&self) -> (r: &Vec<u64>)
        ensures
            r@ == self.array@,
    {
        &self.array
    }

    /// Sift the element at index `i` up until all edges with child index
    /// below `hi` are ordered.  `hi` bounds the prefix that is already a
    /// heap (except for the edge into `i`), so the bottom-up heap
    /// construction can grow its heap prefix one index at a time.
    fn fix_heap_property_bottom_up(&mut self, i: usize, Ghost(hi): Ghost<int>)
        requires
            i < old(self).array@.len(),
            i < hi <= old(self).array@.len(),
            heap_prefix_except(true, old(self).array@, hi, i as int),
            i > 0 ==> forall|c: int|
                #![trigger old(self).array@[c]]
                1 <= c < hi && (c - 1) / 2 == i ==> le(
                    true,
                    old(self).array@[(i - 1) as int / 2],
                    old(self).array@[c],
                ),
        ensures
            final(self).array@.len() == old(self).array@.len(),
            final(self).array@.to_multiset() == old(self).array@.to_multiset(),
            heap_prefix(true, final(self).array@, hi),
            forall|k: int|
                hi <= k < old(self).array@.len() ==> final(self).array@[k] == old(self).array@[k],
    {
        let ghost q0 = self.array@;
        let mut current = i;
        while current != 0
            invariant
                current <= i < hi <= self.array@.len(),
                self.array@.len() == q0.len(),
                self.array@.to_multiset() == q0.to_multiset(),
                forall|k: int| hi <= k < q0.len() ==> self.array@[k] == q0[k],
                heap_prefix_except(true, self.array@, hi, current as int),
                current > 0 ==> forall|c: int|
                    #![trigger self.array@[c]]
                    1 <= c < hi && (c - 1) / 2 == current ==> le(
                        true,
                        self.array@[(current - 1) as int / 2],
                        self.array@[c],
                    ),
            ensures
                self.array@.len() == q0.len(),
                self.array@.to_multiset() == q0.to_multiset(),
                forall|k: int| hi <= k < q0.len() ==> self.array@[k] == q0[k],
                heap_prefix(true, self.array@, hi),
            decreases current,
        {
            let parent = (current - 1) / 2;
            let cv = self.array[current];
            let pv = self.array[parent];
            if cv < pv {
                let ghost q = self.array@;
                self.array[current] = pv;
                self.array[parent] = cv;
                proof {
                    lemma_swap_to_multiset(q, current as int, parent as int);
                    assert(self.array@ =~= q.update(current as int, q[parent as int]).update(
                        parent as int,
                        q[current as int],
                    ));
                }
                current = parent;
            } else {
                break;
            }
        }
    }

    /// Sift the element at index `i` down its subtree until every edge
    /// inside that subtree is ordered.  The walk moves values only along
    /// one descending chain of parent-child edges starting at `i`, and
    /// slot `i` ends up holding either its old value or the old value of
    /// one of its children.
    #[verifier::rlimit(100)]
    fn fix_heap_property_top_down(&mut self, i: usize)
        requires
            i < old(self).array@.len(),
            subtree_ord_except_root(true, old(self).array@, i as int),
        ensures
            final(self).array@.len() == old(self).array@.len(),
            final(self).array@.to_multiset() == old(self).array@.to_multiset(),
            subtree_ord(true, final(self).array@, i as int),
            heap_from(true, old(self).array@, i as int + 1) ==> heap_from(
                true,
                final(self).array@,
                i as int,
            ),
            moves_one_chain(i as int, old(self).array@, final(self).array@),
            forall|k: int|
                0 <= k < old(self).array@.len() && !in_subtree(i as int, k) ==> final(self).array@[k] == old(self).array@[k],
            final(self).array@[i as int] == old(self).array@[i as int] || exists|c: int|
                (c == 2 * i + 1 || c == 2 * i + 2) && c < old(self).array@.len() && final(self).array@[i as int] == old(self).array@[c],
    {
        let ghost q0 = self.array@;
        let mut current = i;
        loop
            invariant
                i <= current < self.array@.len(),
                self.array@.len() == q0.len(),
                self.array@.to_multiset() == q0.to_multiset(),
                in_subtree(i as int, current as int),
                current == i ==> self.array@ == q0,
                forall|k: int|
                    0 <= k < q0.len() && !on_chain(i as int, k, current as int)
                        ==> self.array@[k] == q0[k],
                forall|k: int|
                    0 <= k < q0.len() && !in_subtree(i as int, k) ==> self.array@[k] == q0[k],
                self.array@[i as int] == q0[i as int] || exists|c: int|
                    (c == 2 * i + 1 || c == 2 * i + 2) && c < q0.len() && self.array@[i as int]
                        == q0[c],
                forall|c: int|
                    #![trigger self.array@[c]]
                    1 <= c < q0.len() && (c - 1) / 2 != current && in_subtree(
                        i as int,
                        (c - 1) / 2,
                    ) ==> le(true, self.array@[(c - 1) / 2], self.array@[c]),
                current != i ==> forall|c: int|
                    #![trigger self.array@[c]]
                    1 <= c < q0.len() && (c - 1) / 2 == current ==> le(
                        true,
                        self.array@[(current - 1) as int / 2],
                        self.array@[c],
                    ),
            ensures
                self.array@.len() == q0.len(),
                self.array@.to_multiset() == q0.to_multiset(),
                subtree_ord(true, self.array@, i as int),
                in_subtree(i as int, current as int),
                forall|k: int|
                    0 <= k < q0.len() && !on_chain(i as int, k, current as int)
                        ==> self.array@[k] == q0[k],
                forall|k: int|
                    0 <= k < q0.len() && !in_subtree(i as int, k) ==> self.array@[k] == q0[k],
                self.array@[i as int] == q0[i as int] || exists|c: int|
                    (c == 2 * i + 1 || c == 2 * i + 2) && c < q0.len() && self.array@[i as int]
                        == q0[c],
            decreases self.array@.len() - current,
        {
            let n = self.array.len();
            if current >= n / 2 {
                // no children at all
                break ;
            }
            let left = 2 * current + 1;
            let right = left + 1;
            let son = if right < n && self.array[right] < self.array[left] {
                right
            } else {
                left
            };
            let sv = self.array[son];
            let cv = self.array[current];
            if sv < cv {
                let ghost q = self.array@;
                self.array[current] = sv;
                self.array[son] = cv;
                proof {
                    lemma_swap_to_multiset(q, current as int, son as int);
                    assert(self.array@ =~= q.update(current as int, q[son as int]).update(
                        son as int,
                        q[current as int],
                    ));
                    lemma_in_subtree_ge(i as int, current as int);
                    assert(in_subtree(i as int, son as int));
                    if current == i {
                        assert(self.array@[i as int] == q0[son as int]);
                    }
                    assert forall|k: int|
                        0 <= k < q0.len() && !on_chain(i as int, k, son as int)
                        implies self.array@[k] == q0[k] by {
                        assert((son as int - 1) / 2 == current as int);
                        assert(in_subtree(current as int, current as int));
                        assert(in_subtree(current as int, son as int));
                        assert(in_subtree(son as int, son as int));
                        assert(on_chain(i as int, current as int, son as int));
                        assert(on_chain(i as int, son as int, son as int));
                        if on_chain(i as int, k, current as int) {
                            lemma_in_subtree_ge(k, current as int);
                            assert(in_subtree(k, son as int));
                        }
                        assert(q[k] == q0[k]);
                        assert(k != current && k != son);
                    }
                }
                current = son;
            } else {
                break ;
            }
        }
        proof {
            // the end of the walk witnesses the one-descending-chain frame
            assert(moves_one_chain(i as int, q0, self.array@)) by {
                reveal(moves_one_chain);
                assert(in_subtree(i as int, current as int) && (forall|k: int|
                    0 <= k < q0.len() && !on_chain(i as int, k, current as int)
                        ==> self.array@[k] == q0[k]));
            }
            // with order everywhere below `i` at entry, order now holds on
            // every edge from `i` down: edges outside the subtree kept both
            // endpoints
            if heap_from(true, q0, i as int + 1) {
                assert forall|c: int|
                    #![trigger self.array@[c]]
                    1 <= c < q0.len() && (c - 1) / 2 >= i implies le(
                    true,
                    self.array@[(c - 1) / 2],
                    self.array@[c],
                ) by {
                    let p = (c - 1) / 2;
                    if !in_subtree(i as int, p) {
                        assert(!in_subtree(i as int, c)) by {
                            if in_subtree(i as int, c) {
                                assert(c > i);
                                assert(in_subtree(i as int, p));
                            }
                        }
                        assert(self.array@[c] == q0[c]);
                        assert(self.array@[p] == q0[p]);
                    }
                }
            }
        }
    }

    /// Compute the height of the heap: 0 for the empty heap, and for a
    /// heap of size `n >= 1` the least `h` with `2^h >= n`, plus one.
    pub fn height(&self) -> (r: u32)
        ensures
            self.array@.len() == 0 ==> r == 0,
            self.array@.len() >= 1 ==> {
                &&& r >= 1
                &&& pow2((r - 1) as nat) >= self.array@.len()
                &&& (r >= 2 ==> pow2((r - 2) as nat) < self.array@.len())
            },
    {
        let s = self.array.len();
        if s == 0 {
            0
        } else {
            let mut k: u32 = 0;
            let mut p: u128 = 1;
            proof {
                vstd::arithmetic::power2::lemma2_to64();
            }
            while p < s as u128
                invariant
                    s == self.array@.len(),
                    1 <= s,
                    k <= 64,
                    1 <= p,
                    p == pow2(k as nat),
                    k >= 1 ==> pow2((k - 1) as nat) < s,
                decreases 64 - k,
            {
                proof {
                    vstd::arithmetic::power2::lemma2_to64();
                    if k >= 64 {
                        vstd::arithmetic::power2::lemma_pow2_strictly_increases(64, k as nat);
                        assert(false);
                    }
                }
                p = p * 2;
                k = k + 1;
                proof {
                    vstd::arithmetic::power2::lemma_pow2_unfold(k as nat);
                }
            }
            k + 1
        }
    }

    /// Check whether a vector satisfies the heap shape invariant in the
    /// direction given by `asc` (`true` for a min-heap).
    #[verifier::rlimit(50)]
    pub fn is_heap_aux(v: &Vec<u64>, asc: bool) -> (r: bool)
        ensures
            r == heap_ord(asc, v@),
    {
        if v.len() > 0 {
            let last = v.len() - 1;
            let mut i: usize = 0;
            while i < last
                invariant
                    last == v@.len() - 1,
                    i <= last,
                    forall|c: int|
                        #![trigger v@[c]]
                        1 <= c < v@.len() && (c - 1) / 2 < i ==> le(asc, v@[(c - 1) / 2], v@[c]),
                decreases last - i,
            {
                let n = v.len();
                if i < n / 2 {
                    let l = 2 * i + 1;
                    let r = l + 1;

                    if r <= last {
                        let bl = if asc {
                            v[i] > v[l]
                        } else {
                            v[i] < v[l]
                        };
                        let br = if asc {
                            v[i] > v[r]
                        } else {
                            v[i] < v[r]
                        };
                        if bl || br {
                            return false;
                        }
                    } else {
                        let bl = if asc {
                            v[i] > v[l]
                        } else {
                            v[i] < v[l]
                        };
                        if bl {
                            return false;
                        }
                    }
                }
                i = i + 1;
            }
        }
        true
    }

    /// Check whether a vector is a valid min-heap.
    pub fn is_heap(v: &Vec<u64>) -> (r: bool)
        ensures
            r == heap_ord(true, v@),
    {
        Heap::is_heap_aux(v, true)
    }

    /// Create a heap from a vector by sifting each element up in turn.
    pub fn make_heap_bottom_up(v: Vec<u64>) -> (h: Heap)
        ensures
            h.wf(),
            h.mset() == v@.to_multiset(),
            h.array@.len() == v@.len(),
    {
        let mut h = Heap { array: v };
        let s = h.array.len();
        let mut i: usize = 0;
        while i < s
            invariant
                s == h.array@.len(),
                i <= s,
                h.array@.to_multiset() == v@.to_multiset(),
                heap_prefix(true, h.array@, i as int),
            decreases s - i,
        {
            h.fix_heap_property_bottom_up(i, Ghost(i as int + 1));
            i = i + 1;
        }
        h
    }

    /// Create a heap from a vector in linear time by sifting every
    /// position down, from the last one to the root.
    pub fn make_heap_top_down(v: Vec<u64>) -> (h: Heap)
        ensures
            h.wf(),
            h.mset() == v@.to_multiset(),
            h.array@.len() == v@.len(),
    {
        if v.len() == 0 {
            let h = Heap::new();
            proof {
                assert(v@ =~= Seq::<u64>::empty());
                assert(h.array@.to_multiset() =~= v@.to_multiset());
            }
            h
        } else {
            let mut h = Heap { array: v };
            let s = h.array.len();
            let mut i: usize = s - 1;
            while i > 0
                invariant
                    s == h.array@.len(),
                    1 <= s,
                    i < s,
                    h.array@.to_multiset() == v@.to_multiset(),
                    heap_from(true, h.array@, i as int),
                decreases i,
            {
                i = i - 1;
                proof {
                    lemma_heap_from_subtree(true, h.array@, i as int);
                }
                h.fix_heap_property_top_down(i);
            }
            h
        }
    }

    /// Destructive heapsort: drain `v` into a heap, then pull the
    /// elements back out in ascending order.
    pub fn sort(v: &mut Vec<u64>)
        ensures
            sorted(final(v)@),
            final(v)@.to_multiset() == old(v)@.to_multiset(),
            final(v)@.len() == old(v)@.len(),
    {
        let mut h = Heap::new();

        let ghost v0 = v@;
        while v.len() > 0
            invariant
                h.wf(),
                h.mset().add(v@.to_multiset()) =~= v0.to_multiset(),
            decreases v@.len(),
        {
            let ghost before = v@;
            let x = v.pop().unwrap();
            proof {
                lemma_drop_last_to_multiset(before);
            }
            h.insert(x);
            proof {
                assert(h.mset().add(v@.to_multiset()) =~= v0.to_multiset());
            }
        }

        proof {
            assert(v@.to_multiset() =~= Multiset::<u64>::empty());
            assert(h.mset() =~= v0.to_multiset());
            assert(v@ =~= Seq::<u64>::empty());
        }
        loop
            invariant
                h.wf(),
                h.mset().add(v@.to_multiset()) =~= v0.to_multiset(),
                sorted(v@),
                forall|j: int, y: u64|
                    0 <= j < v@.len() && h.mset().contains(y) ==> v@[j] <= y,
            ensures
                v@.to_multiset() == v0.to_multiset(),
                sorted(v@),
                h.mset().len() == 0,
            decreases h.mset().len(),
        {
            let ghost hm0 = h.mset();
            let ghost vprev = v@;
            match h.del_min() {
                Some(x) => {
                    v.push(x);
                    proof {
                        assert forall|j: int, y: u64|
                            0 <= j < v@.len() && h.mset().contains(y) implies v@[j] <= y by {
                            assert(hm0.contains(y));
                            if j < vprev.len() {
                                assert(vprev[j] <= y);
                            } else {
                                assert(v@[j] == x);
                            }
                        };
                        assert forall|j1: int, j2: int|
                            0 <= j1 <= j2 < v@.len() implies v@[j1] <= v@[j2] by {
                            if j2 == vprev.len() && j1 < vprev.len() {
                                assert(hm0.contains(x));
                                assert(vprev[j1] <= x);
                            }
                        };
                        assert(h.mset().add(v@.to_multiset()) =~= v0.to_multiset());
                    }
                },
                None => {
                    proof {
                        assert(v@.to_multiset() =~= v0.to_multiset());
                    }
                    break ;
                },
            }
        }
        proof {
            assert(v@.to_multiset().len() == v@.len());
            assert(v0.to_multiset().len() == v0.len());
        }
    }

    /// Non-destructive heapsort: returns the elements of `v` in
    /// ascending order.
    pub fn sort2(v: Vec<u64>) -> (r: Vec<u64>)
        ensures
            sorted(r@),
            r@.to_multiset() == v@.to_multiset(),
            r@.len() == v@.len(),
    {
        let mut w = v;
        Heap::sort(&mut w);
        w
    }
}

impl PriorityQueue for Heap {
    open spec fn inv(&self) -> bool {
        self.wf()
    }

    open spec fn mset(&self) -> Multiset<u64> {
        self.array@.to_multiset()
    }

    fn is_empty(&self) -> (r: bool) {
        self.array.len() == 0
    }

    fn size(&self) -> (r: usize) {
        self.array.len()
    }

    fn insert(&mut self, item: u64) {
        self.array.push(item);
        let l = self.array.len() - 1;
        self.fix_heap_property_bottom_up(l, Ghost(self.array@.len() as int));
    }

    fn ins(&mut self, item: u64) {
        self.insert(item);
    }

    fn min(&self) -> (r: Option<u64>) {
        if self.array.len() == 0 {
            None
        } else {
            proof {
                lemma_heap_root_bounds_mset(true, self.array@);
            }
            Some(self.array[0])
        }
    }

    fn del_min(&mut self) -> (r: Option<u64>) {
        if self.array.len() == 0 {
            None
        } else {
            proof {
                lemma_heap_root_bounds_mset(true, self.array@);
            }
            let ghost q0 = self.array@;
            let last_index = self.array.len() - 1;
            let a0 = self.array[0];
            let al = self.array[last_index];
            self.array[0] = al;
            self.array[last_index] = a0;
            proof {
                lemma_swap_to_multiset(q0, 0, last_index as int);
            }
            let result = self.array.pop();
            proof {
                lemma_drop_last_to_multiset(q0.update(0, q0[last_index as int]).update(
                    last_index as int,
                    q0[0],
                ));
            }
            if self.array.len() > 0 {
                proof {
                    assert(heap_from(true, self.array@, 1));
                    lemma_heap_from_subtree(true, self.array@, 0);
                }
                self.fix_heap_property_top_down(0);
            }
            proof {
                assert(self.array@.to_multiset() =~= q0.to_multiset().remove(q0[0]));
            }
            result
        }
    }
}


/// Two `Heap`s are equal if they hold the same elements, whatever the
/// two arrays' internal arrangement.  Checked by sorting both.
impl PartialEq for Heap {
    fn eq(&self, rhs: &Heap) -> (r: bool) {
        let a = Heap::sort2(self.array.clone());
        let b = Heap::sort2(rhs.array.clone());
        let r = a == b;
        proof {
            assert(a@.to_multiset() == self.array@.to_multiset());
            assert(b@.to_multiset() == rhs.array@.to_multiset());
            if r {
                assert(a@ =~= b@);
            } else {
                if self.array@.to_multiset() == rhs.array@.to_multiset() {
                    lemma_sorted_unique(a@, b@);
                    assert(a@ =~= b@);
                }
            }
        }
        r
    }
}

impl vstd::std_specs::cmp::PartialEqSpecImpl for Heap {
    open spec fn obeys_eq_spec() -> bool {
        true
    }

    open spec fn eq_spec(&self, o: &Heap) -> bool {
        self.array@.to_multiset() == o.array@.to_multiset()
    }
}

} // verus!
