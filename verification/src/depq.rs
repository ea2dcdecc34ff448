//! Double-ended priority queues.
//!
//! A `DoubleHeap` gives access to both the minimal and the maximal
//! element in constant time, and removes either in logarithmic time.
//! It keeps every element twice: once in a min-heap and once in a
//! max-heap.  Each slot stores, besides the value, the index of the
//! slot holding the same logical element in the opposite array, and
//! that cross reference is repaired on every swap.

use vstd::prelude::*;
use vstd::multiset::Multiset;
use crate::heap_order::{le, heap_ord, heap_from, heap_prefix, heap_prefix_except,
    subtree_ord, subtree_ord_except_root, lemma_heap_from_subtree, on_chain,
    in_subtree, lemma_in_subtree_ge, lemma_heap_root_extremal, lemma_heap_root_bounds_mset,
    lemma_swap_to_multiset, lemma_drop_last_to_multiset, lemma_sorted_unique};
use crate::pq::Heap;

verus! {

broadcast use vstd::seq_lib::group_to_multiset_ensures, vstd::seq_lib::to_multiset_update;

/// One slot of a heap array: a stored value together with the index of
/// the slot of the same logical element in the opposite array.
#[derive(Clone, Copy, PartialEq, Eq, Structural, Debug)]
pub struct Slot {
    pub val: u64,
    pub mirror: usize,
}

/// The values held by a sequence of slots.
pub open spec fn vals(s: Seq<Slot>) -> Seq<u64> {
    Seq::new(s.len(), |i: int| s[i].val)
}

/// Every slot of `l` points at a slot of `r` that carries the same
/// value and points back.
pub open spec fn mates(l: Seq<Slot>, r: Seq<Slot>) -> bool {
    forall|i: int|
        #![trigger l[i]]
        0 <= i < l.len() ==> {
            &&& (l[i].mirror as int) < r.len()
            &&& r[l[i].mirror as int].mirror == i
            &&& r[l[i].mirror as int].val == l[i].val
        }
}

/// The slots of `l1` that differ from `l0` all lie on one descending
/// chain of parent-child edges starting at index `i`: some chain end
/// `e` bounds them, and every slot off the chain from `i` to `e` is
/// unchanged.
#[verifier::opaque]
pub open spec fn moves_one_chain(i: int, l0: Seq<Slot>, l1: Seq<Slot>) -> bool {
    exists|e: int|
        in_subtree(i, e) && (forall|k: int|
            0 <= k < l0.len() && !on_chain(i, k, e) ==> l1[k] == l0[k])
}

/// The two arrays have equal length and mirror each other slot by slot.
pub open spec fn linked(l: Seq<Slot>, r: Seq<Slot>) -> bool {
    &&& l.len() == r.len()
    &&& mates(l, r)
    &&& mates(r, l)
}

/// A double-ended priority queue.
pub trait DEPQ: Sized {
    /// Internal well-formedness.
    spec fn inv(&self) -> bool;

    /// The multiset of elements currently held.
    spec fn mset(&self) -> Multiset<u64>;

    /// Check if the queue is empty.
    fn is_empty(&self) -> (r: bool)
        requires
            self.inv(),
        ensures
            r == (self.mset().len() == 0),
    ;

    /// Get the number of items in the queue.
    fn size(&self) -> (r: usize)
        requires
            self.inv(),
        ensures
            r == self.mset().len(),
    ;

    /// Insert an item into the queue.
    fn ins(&mut self, item: u64)
        requires
            old(self).inv(),
        ensures
            final(self).inv(),
            final(self).mset() == old(self).mset().insert(item),
            final(self).mset().len() == old(self).mset().len() + 1,
    ;

    /// Insert all elements from the vector, in order.
    fn ins_all(&mut self, v: Vec<u64>)
        requires
            old(self).inv(),
        ensures
            final(self).inv(),
            final(self).mset() == old(self).mset().add(v@.to_multiset()),
    ;

    /// The minimal element of the queue, if any.
    fn min(&self) -> (r: Option<u64>)
        requires
            self.inv(),
        ensures
            (r is None) == (self.mset().len() == 0),
            match r {
                Some(m) => self.mset().contains(m) && forall|x: u64|
                    self.mset().contains(x) ==> m <= x,
                None => true,
            },
    ;

    /// The maximal element of the queue, if any.
    fn max(&self) -> (r: Option<u64>)
        requires
            self.inv(),
        ensures
            (r is None) == (self.mset().len() == 0),
            match r {
                Some(m) => self.mset().contains(m) && forall|x: u64|
                    self.mset().contains(x) ==> m >= x,
                None => true,
            },
    ;

    /// Remove the minimal element from the queue.
    fn del_min(&mut self) -> (r: Option<u64>)
        requires
            old(self).inv(),
        ensures
            final(self).inv(),
            (r is None) == (old(self).mset().len() == 0),
            match r {
                Some(m) => {
                    &&& old(self).mset().contains(m)
                    &&& forall|x: u64| old(self).mset().contains(x) ==> m <= x
                    &&& final(self).mset() == old(self).mset().remove(m)
                    &&& final(self).mset().len() == old(self).mset().len() - 1
                },
                None => final(self).mset() == old(self).mset(),
            },
    ;

    /// Remove the maximal element from the queue.
    fn del_max(&mut self) -> (r: Option<u64>)
        requires
            old(self).inv(),
        ensures
            final(self).inv(),
            (r is None) == (old(self).mset().len() == 0),
            match r {
                Some(m) => {
                    &&& old(self).mset().contains(m)
                    &&& forall|x: u64| old(self).mset().contains(x) ==> m >= x
                    &&& final(self).mset() == old(self).mset().remove(m)
                    &&& final(self).mset().len() == old(self).mset().len() - 1
                },
                None => final(self).mset() == old(self).mset(),
            },
    ;
}

/// A data structure made from a min-heap and a max-heap.
/// Each of the heaps contains all elements in the double heap.
/// Each element in each heap points to its position in the other heap.
#[derive(Clone, Debug)]
pub struct DoubleHeap {
    pub min_array: Vec<Slot>,
    pub max_array: Vec<Slot>,
}

impl DoubleHeap {
    /// The two arrays mirror each other, `min_array` is a min-heap and
    /// `max_array` is a max-heap.
    pub open spec fn wf(&self) -> bool {
        &&& linked(self.min_array@, self.max_array@)
        &&& heap_ord(true, vals(self.min_array@))
        &&& heap_ord(false, vals(self.max_array@))
    }

    /// The multiset of elements held, read off the min side.
    pub open spec fn multiset(&self) -> Multiset<u64> {
        vals(self.min_array@).to_multiset()
    }

    /// Creates a new `DoubleHeap`.
    pub fn new() -> (h: DoubleHeap)
        ensures
            h.wf(),
            h.min_array@.len() == 0,
            h.max_array@.len() == 0,
            h.multiset() =~= Multiset::<u64>::empty(),
    {
        let h = DoubleHeap { min_array: Vec::new(), max_array: Vec::new() };
        proof {
            assert(vals(h.min_array@) =~= Seq::<u64>::empty());
            assert(vals(h.min_array@).to_multiset() =~= Multiset::<u64>::empty());
        }
        h
    }

    /// Swap two elements in the left heap while maintaining pointers in the right heap.
    fn swap(l: &mut Vec<Slot>, r: &mut Vec<Slot>, i: usize, j: usize)
        requires
            linked(old(l)@, old(r)@),
            i < old(l)@.len(),
            j < old(l)@.len(),
            i != j,
        ensures
            linked(final(l)@, final(r)@),
            final(l)@ == old(l)@.update(i as int, old(l)@[j as int]).update(
                j as int,
                old(l)@[i as int],
            ),
            vals(final(l)@) == vals(old(l)@).update(i as int, vals(old(l)@)[j as int]).update(
                j as int,
                vals(old(l)@)[i as int],
            ),
            vals(final(l)@).to_multiset() == vals(old(l)@).to_multiset(),
            vals(final(r)@) == vals(old(r)@),
            final(r)@.len() == old(r)@.len(),
    {
        let ri = l[i].mirror;
        let rj = l[j].mirror;
        proof {
            assert(old(r)@[ri as int].mirror == i as int);
            assert(old(r)@[rj as int].mirror == j as int);
            assert(ri != rj);
        }
        let a = r[ri];
        r[ri] = Slot { val: a.val, mirror: j };
        let b = r[rj];
        r[rj] = Slot { val: b.val, mirror: i };
        let li = l[i];
        let lj = l[j];
        l[i] = lj;
        l[j] = li;
        proof {
            let l0 = old(l)@;
            let r0 = old(r)@;
            let l1 = l@;
            let r1 = r@;
            assert(l1 =~= l0.update(i as int, l0[j as int]).update(j as int, l0[i as int]));
            assert(vals(l1) =~= vals(l0).update(i as int, vals(l0)[j as int]).update(
                j as int,
                vals(l0)[i as int],
            ));
            assert(vals(r1) =~= vals(r0));
            lemma_swap_to_multiset(vals(l0), i as int, j as int);
            assert forall|k: int| 0 <= k < l1.len() implies {
                &&& (l1[k].mirror as int) < r1.len()
                &&& r1[l1[k].mirror as int].mirror == k
                &&& r1[l1[k].mirror as int].val == l1[k].val
            } by {
                if k == i {
                    assert(l1[k] == l0[j as int]);
                } else if k == j {
                    assert(l1[k] == l0[i as int]);
                } else {
                    assert(l0[k].mirror != ri && l0[k].mirror != rj) by {
                        assert(r0[l0[k].mirror as int].mirror == k);
                    }
                }
            }
            assert forall|m: int| 0 <= m < r1.len() implies {
                &&& (r1[m].mirror as int) < l1.len()
                &&& l1[r1[m].mirror as int].mirror == m
                &&& l1[r1[m].mirror as int].val == r1[m].val
            } by {
                if m == ri {
                    assert(l1[j as int] == l0[i as int]);
                } else if m == rj {
                    assert(l1[i as int] == l0[j as int]);
                } else {
                    assert(r0[m].mirror != i && r0[m].mirror != j) by {
                        assert(l0[r0[m].mirror as int].mirror == m);
                    }
                }
            }
        }
    }

    /// Make sure that the heap property is satisfied on the path from the
    /// i-th element of the left heap to the root, all cross references
    /// kept intact.  Only edges with child index below `hi` are claimed,
    /// so a heap can also be built prefix by prefix.
    fn fix_heap_property_bottom_up_aux(
        l: &mut Vec<Slot>,
        r: &mut Vec<Slot>,
        i: usize,
        asc: bool,
        Ghost(hi): Ghost<int>,
    )
        requires
            linked(old(l)@, old(r)@),
            i < old(l)@.len(),
            i < hi <= old(l)@.len(),
            heap_prefix_except(asc, vals(old(l)@), hi, i as int),
            i > 0 ==> forall|c: int|
                #![trigger vals(old(l)@)[c]]
                1 <= c < hi && (c - 1) / 2 == i ==> le(
                    asc,
                    vals(old(l)@)[(i - 1) as int / 2],
                    vals(old(l)@)[c],
                ),
        ensures
            linked(final(l)@, final(r)@),
            final(l)@.len() == old(l)@.len(),
            vals(final(l)@).to_multiset() == vals(old(l)@).to_multiset(),
            vals(final(r)@) == vals(old(r)@),
            final(r)@.len() == old(r)@.len(),
            heap_prefix(asc, vals(final(l)@), hi),
            forall|k: int| hi <= k < old(l)@.len() ==> vals(final(l)@)[k] == vals(old(l)@)[k],
    {
        let ghost l0 = old(l)@;
        let ghost q0 = vals(old(l)@);
        let mut current = i;
        while current != 0
            invariant
                linked(l@, r@),
                current <= i < hi <= l@.len(),
                l@.len() == l0.len(),
                vals(l@).to_multiset() == q0.to_multiset(),
                vals(r@) == vals(old(r)@),
                r@.len() == old(r)@.len(),
                forall|k: int| hi <= k < l0.len() ==> vals(l@)[k] == q0[k],
                heap_prefix_except(asc, vals(l@), hi, current as int),
                current > 0 ==> forall|c: int|
                    #![trigger vals(l@)[c]]
                    1 <= c < hi && (c - 1) / 2 == current ==> le(
                        asc,
                        vals(l@)[(current - 1) as int / 2],
                        vals(l@)[c],
                    ),
            ensures
                linked(l@, r@),
                l@.len() == l0.len(),
                vals(l@).to_multiset() == q0.to_multiset(),
                vals(r@) == vals(old(r)@),
                r@.len() == old(r)@.len(),
                forall|k: int| hi <= k < l0.len() ==> vals(l@)[k] == q0[k],
                heap_prefix(asc, vals(l@), hi),
            decreases current,
        {
            let parent = (current - 1) / 2;
            let cv = l[current].val;
            let pv = l[parent].val;
            let go = if asc {
                cv < pv
            } else {
                cv > pv
            };
            if go {
                Self::swap(l, r, current, parent);
                current = parent;
            } else {
                break ;
            }
        }
    }

    /// Like above, but fix both heaps after an insertion at index `i`.
    fn fix_heap_property_bottom_up(&mut self, min_i: usize, max_i: usize)
        requires
            linked(old(self).min_array@, old(self).max_array@),
            min_i < old(self).min_array@.len(),
            max_i < old(self).max_array@.len(),
            heap_prefix_except(
                true,
                vals(old(self).min_array@),
                old(self).min_array@.len() as int,
                min_i as int,
            ),
            heap_prefix_except(
                false,
                vals(old(self).max_array@),
                old(self).max_array@.len() as int,
                max_i as int,
            ),
            min_i > 0 ==> forall|c: int|
                #![trigger vals(old(self).min_array@)[c]]
                1 <= c < old(self).min_array@.len() && (c - 1) / 2 == min_i ==> le(
                    true,
                    vals(old(self).min_array@)[(min_i - 1) as int / 2],
                    vals(old(self).min_array@)[c],
                ),
            max_i > 0 ==> forall|c: int|
                #![trigger vals(old(self).max_array@)[c]]
                1 <= c < old(self).max_array@.len() && (c - 1) / 2 == max_i ==> le(
                    false,
                    vals(old(self).max_array@)[(max_i - 1) as int / 2],
                    vals(old(self).max_array@)[c],
                ),
        ensures
            final(self).wf(),
            final(self).min_array@.len() == old(self).min_array@.len(),
            final(self).multiset() == vals(old(self).min_array@).to_multiset(),
    {
        let ghost n = self.min_array@.len() as int;
        Self::fix_heap_property_bottom_up_aux(
            &mut self.min_array,
            &mut self.max_array,
            min_i,
            true,
            Ghost(n),
        );
        Self::fix_heap_property_bottom_up_aux(
            &mut self.max_array,
            &mut self.min_array,
            max_i,
            false,
            Ghost(n),
        );
        proof {
            assert(heap_ord(true, vals(self.min_array@)));
            assert(heap_ord(false, vals(self.max_array@)));
        }
    }

    /// Sink the i-th node in the left heap towards the leaves while
    /// maintaining pointers in the right heap.  The walk moves slots
    /// only along one descending chain of parent-child edges starting
    /// at `i`, and slot `i` ends up holding its old value or the old
    /// value of one of its children.  Order within the two subtrees
    /// under `i` suffices to restore order on the whole subtree.
    #[verifier::rlimit(100)]
    fn fix_heap_property_top_down_aux(l: &mut Vec<Slot>, r: &mut Vec<Slot>, i: usize, asc: bool)
        requires
            linked(old(l)@, old(r)@),
            i < old(l)@.len(),
            subtree_ord_except_root(asc, vals(old(l)@), i as int),
        ensures
            linked(final(l)@, final(r)@),
            final(l)@.len() == old(l)@.len(),
            vals(final(l)@).to_multiset() == vals(old(l)@).to_multiset(),
            vals(final(r)@) == vals(old(r)@),
            final(r)@.len() == old(r)@.len(),
            subtree_ord(asc, vals(final(l)@), i as int),
            heap_from(asc, vals(old(l)@), i as int + 1) ==> heap_from(
                asc,
                vals(final(l)@),
                i as int,
            ),
            moves_one_chain(i as int, old(l)@, final(l)@),
            forall|k: int|
                0 <= k < old(l)@.len() && !in_subtree(i as int, k) ==> vals(final(l)@)[k] == vals(
                    old(l)@,
                )[k],
            vals(final(l)@)[i as int] == vals(old(l)@)[i as int] || exists|c: int|
                (c == 2 * i + 1 || c == 2 * i + 2) && c < old(l)@.len() && vals(final(l)@)[i as int]
                    == vals(old(l)@)[c],
    {
        let ghost l0 = old(l)@;
        let ghost q0 = vals(old(l)@);
        let mut current = i;
        loop
            invariant
                linked(l@, r@),
                i <= current < l@.len(),
                l@.len() == l0.len(),
                vals(l@).to_multiset() == q0.to_multiset(),
                vals(r@) == vals(old(r)@),
                r@.len() == old(r)@.len(),
                in_subtree(i as int, current as int),
                current == i ==> vals(l@) == q0,
                forall|k: int|
                    0 <= k < l0.len() && !on_chain(i as int, k, current as int) ==> l@[k] == l0[k],
                forall|k: int|
                    0 <= k < l0.len() && !in_subtree(i as int, k) ==> vals(l@)[k] == q0[k],
                vals(l@)[i as int] == q0[i as int] || exists|c: int|
                    (c == 2 * i + 1 || c == 2 * i + 2) && c < l0.len() && vals(l@)[i as int]
                        == q0[c],
                forall|c: int|
                    #![trigger vals(l@)[c]]
                    1 <= c < l0.len() && (c - 1) / 2 != current && in_subtree(i as int, (c - 1) / 2)
                        ==> le(asc, vals(l@)[(c - 1) / 2], vals(l@)[c]),
                current != i ==> forall|c: int|
                    #![trigger vals(l@)[c]]
                    1 <= c < l0.len() && (c - 1) / 2 == current ==> le(
                        asc,
                        vals(l@)[(current - 1) as int / 2],
                        vals(l@)[c],
                    ),
            ensures
                linked(l@, r@),
                l@.len() == l0.len(),
                vals(l@).to_multiset() == q0.to_multiset(),
                vals(r@) == vals(old(r)@),
                r@.len() == old(r)@.len(),
                subtree_ord(asc, vals(l@), i as int),
                in_subtree(i as int, current as int),
                forall|k: int|
                    0 <= k < l0.len() && !on_chain(i as int, k, current as int) ==> l@[k] == l0[k],
                forall|k: int|
                    0 <= k < l0.len() && !in_subtree(i as int, k) ==> vals(l@)[k] == q0[k],
                vals(l@)[i as int] == q0[i as int] || exists|c: int|
                    (c == 2 * i + 1 || c == 2 * i + 2) && c < l0.len() && vals(l@)[i as int]
                        == q0[c],
            decreases l@.len() - current,
        {
            let n = l.len();
            if current >= n / 2 {
                // no children at all
                break ;
            }
            let left = 2 * current + 1;
            let right = left + 1;
            let pick_right = if right < n {
                let lv = l[left].val;
                let rv = l[right].val;
                if asc {
                    rv < lv
                } else {
                    rv > lv
                }
            } else {
                false
            };
            let son = if pick_right {
                right
            } else {
                left
            };
            let sv = l[son].val;
            let cv = l[current].val;
            let go = if asc {
                sv < cv
            } else {
                sv > cv
            };
            if go {
                let ghost lprev = l@;
                let ghost qprev = vals(l@);
                Self::swap(l, r, current, son);
                proof {
                    lemma_in_subtree_ge(i as int, current as int);
                    assert(in_subtree(i as int, son as int));
                    if current == i {
                        assert(vals(l@)[i as int] == q0[son as int]);
                    }
                    assert forall|k: int|
                        0 <= k < l0.len() && !on_chain(i as int, k, son as int) implies l@[k]
                        == l0[k] by {
                        assert((son as int - 1) / 2 == current as int);
                        assert(in_subtree(current as int, current as int));
                        assert(in_subtree(current as int, son as int));
                        assert(in_subtree(son as int, son as int));
                        assert(on_chain(i as int, current as int, son as int));
                        assert(on_chain(i as int, son as int, son as int));
                        if on_chain(i as int, k, current as int) {
                            lemma_in_subtree_ge(k, current as int);
                            assert(in_subtree(k, son as int));
                        }
                        assert(lprev[k] == l0[k]);
                        assert(k != current && k != son);
                    }
                    assert forall|c: int|
                        #![trigger vals(l@)[c]]
                        1 <= c < l0.len() && (c - 1) / 2 != son && in_subtree(
                            i as int,
                            (c - 1) / 2,
                        ) implies le(asc, vals(l@)[(c - 1) / 2], vals(l@)[c]) by {
                        let p = (c - 1) / 2;
                        if p == current {
                            if c == son {
                                assert(vals(l@)[c] == qprev[current as int]);
                            } else {
                                assert(vals(l@)[c] == qprev[c]);
                            }
                        } else {
                            assert(vals(l@)[c] == qprev[c] || c == current);
                            assert(vals(l@)[p] == qprev[p]);
                            if c == current {
                                // the parent edge of the sifted position:
                                // the value that moved up is the better child
                                assert(vals(l@)[current as int] == qprev[son as int]);
                                if current != i {
                                    assert(le(asc, qprev[p], qprev[son as int]));
                                }
                            }
                        }
                    }
                }
                current = son;
            } else {
                break ;
            }
        }
        proof {
            // the end of the walk witnesses the one-descending-chain frame
            assert(moves_one_chain(i as int, l0, l@)) by {
                reveal(moves_one_chain);
                assert(in_subtree(i as int, current as int) && (forall|k: int|
                    0 <= k < l0.len() && !on_chain(i as int, k, current as int) ==> l@[k]
                        == l0[k]));
            }
            // with order everywhere below `i` at entry, order now holds on
            // every edge from `i` down: edges outside the subtree kept both
            // endpoints
            if heap_from(asc, q0, i as int + 1) {
                assert forall|c: int|
                    #![trigger vals(l@)[c]]
                    1 <= c < l0.len() && (c - 1) / 2 >= i implies le(
                    asc,
                    vals(l@)[(c - 1) / 2],
                    vals(l@)[c],
                ) by {
                    let p = (c - 1) / 2;
                    if !in_subtree(i as int, p) {
                        assert(!in_subtree(i as int, c)) by {
                            if in_subtree(i as int, c) {
                                assert(c > i);
                                assert(in_subtree(i as int, p));
                            }
                        }
                        assert(vals(l@)[c] == q0[c]);
                        assert(vals(l@)[p] == q0[p]);
                    }
                }
            }
        }
    }


    /// Remove the left heap's least (by `asc`) element from both heaps.
    /// This is the subtle part: the removed element usually does not sit
    /// in the last slot of the right array, so the right array's tail is
    /// moved into the vacated slot and then sifted in whichever
    /// direction its new neighbourhood requires.
    #[verifier::rlimit(100)]
    fn del_aux(l: &mut Vec<Slot>, r: &mut Vec<Slot>, asc: bool) -> (res: Option<u64>)
        requires
            linked(old(l)@, old(r)@),
            heap_ord(asc, vals(old(l)@)),
            heap_ord(!asc, vals(old(r)@)),
        ensures
            linked(final(l)@, final(r)@),
            heap_ord(asc, vals(final(l)@)),
            heap_ord(!asc, vals(final(r)@)),
            match res {
                Some(m) => {
                    &&& old(l)@.len() >= 1
                    &&& m == vals(old(l)@)[0]
                    &&& final(l)@.len() == old(l)@.len() - 1
                    &&& vals(final(l)@).to_multiset() == vals(old(l)@).to_multiset().remove(m)
                    &&& vals(final(r)@).to_multiset() == vals(old(r)@).to_multiset().remove(m)
                },
                None => {
                    &&& old(l)@.len() == 0
                    &&& final(l)@ == old(l)@
                    &&& final(r)@ == old(r)@
                },
            },
    {
        if l.len() == 0 {
            None
        } else if l.len() == 1 {
            let s = l.pop().unwrap();
            r.clear();
            proof {
                let ql0 = vals(old(l)@);
                let qr0 = vals(old(r)@);
                assert(old(l)@[0].mirror == 0);
                assert(qr0[0] == s.val);
                assert(vals(l@) =~= ql0.drop_last());
                assert(vals(r@) =~= Seq::<u64>::empty());
                lemma_drop_last_to_multiset(ql0);
                lemma_drop_last_to_multiset(qr0);
                assert(qr0.drop_last() =~= Seq::<u64>::empty());
                assert(vals(r@).to_multiset() =~= qr0.to_multiset().remove(s.val));
            }
            Some(s.val)
        } else {
            let ghost l0 = old(l)@;
            let ghost r0 = old(r)@;
            let ghost ql0 = vals(old(l)@);
            let ghost qr0 = vals(old(r)@);
            let n = l.len();
            let last = n - 1;

            // Swap the first and the last elements in the left heap.
            Self::swap(l, r, 0, last);
            let ghost l1 = l@;
            let ghost r1 = r@;

            // Remove the last (so the old first) element from the left heap.
            let s = l.pop().unwrap();
            let ri = s.mirror;
            let m = s.val;
            proof {
                assert(l1[last as int] == l0[0]);
                assert(m == ql0[0]);
                assert(r1[ri as int].mirror == last as int && r1[ri as int].val == m);
                assert(vals(l@) =~= vals(l1).drop_last());
                lemma_drop_last_to_multiset(vals(l1));
                assert(vals(l@).to_multiset() == ql0.to_multiset().remove(m));
                assert(qr0[ri as int] == m) by {
                    assert(vals(r1) == qr0);
                }
            }

            // Remove the same element from the right heap.  If it is not
            // in the last slot, move the tail there and fix the mirror of
            // the tail's partner in the left heap.
            if ri == last {
                r.pop();
                proof {
                    assert(vals(r@) =~= qr0.drop_last());
                    lemma_drop_last_to_multiset(qr0);
                    assert(vals(r@).to_multiset() == qr0.to_multiset().remove(m));
                    assert forall|idx: int| 0 <= idx < l@.len() implies {
                        &&& (l@[idx].mirror as int) < r@.len()
                        &&& r@[l@[idx].mirror as int].mirror == idx
                        &&& r@[l@[idx].mirror as int].val == l@[idx].val
                    } by {
                        assert(l@[idx] == l1[idx]);
                        assert(r1[l1[idx].mirror as int].mirror == idx);
                        assert(l1[idx].mirror != last);
                    }
                    assert forall|mi: int| 0 <= mi < r@.len() implies {
                        &&& (r@[mi].mirror as int) < l@.len()
                        &&& l@[r@[mi].mirror as int].mirror == mi
                        &&& l@[r@[mi].mirror as int].val == r@[mi].val
                    } by {
                        assert(r@[mi] == r1[mi]);
                        assert(l1[r1[mi].mirror as int].mirror == mi);
                        assert(r1[mi].mirror != last) by {
                            if r1[mi].mirror == last {
                                assert(l1[last as int].mirror == mi);
                            }
                        }
                    }
                    assert(linked(l@, r@));
                }
            } else {
                let tail = r[last];
                let k = tail.mirror;
                proof {
                    assert(l1[k as int].mirror == last as int && l1[k as int].val
                        == r1[last as int].val);
                    assert(k != last) by {
                        if k == last {
                            assert(l1[last as int].mirror == last as int);
                        }
                    }
                    assert(k < l@.len());
                }
                let lk = l[k];
                l[k] = Slot { val: lk.val, mirror: ri };
                r[ri] = tail;
                r.pop();
                proof {
                    let l2 = l@;
                    let r2 = r@;
                    assert(r2 =~= r1.update(ri as int, r1[last as int]).drop_last());
                    assert(vals(l2) =~= vals(l1).drop_last());
                    assert(vals(r2) =~= qr0.update(ri as int, qr0[last as int]).drop_last());
                    // the right multiset loses exactly m
                    let qru = qr0.update(ri as int, qr0[last as int]);
                    lemma_drop_last_to_multiset(qru);
                    assert(qru[last as int] == qr0[last as int]);
                    assert(vals(r2).to_multiset() =~= qr0.to_multiset().remove(m));
                    // the arrays are linked again
                    assert forall|idx: int| 0 <= idx < l2.len() implies {
                        &&& (l2[idx].mirror as int) < r2.len()
                        &&& r2[l2[idx].mirror as int].mirror == idx
                        &&& r2[l2[idx].mirror as int].val == l2[idx].val
                    } by {
                        if idx == k {
                            assert(r2[ri as int] == r1[last as int]);
                        } else {
                            assert(l2[idx] == l1[idx]);
                            assert(r1[l1[idx].mirror as int].mirror == idx);
                            assert(l1[idx].mirror != ri) by {
                                if l1[idx].mirror == ri {
                                    assert(r1[ri as int].mirror == idx);
                                }
                            }
                            assert(l1[idx].mirror != last) by {
                                if l1[idx].mirror == last {
                                    assert(r1[last as int].mirror == idx);
                                }
                            }
                        }
                    }
                    assert forall|mi: int| 0 <= mi < r2.len() implies {
                        &&& (r2[mi].mirror as int) < l2.len()
                        &&& l2[r2[mi].mirror as int].mirror == mi
                        &&& l2[r2[mi].mirror as int].val == r2[mi].val
                    } by {
                        if mi == ri {
                            assert(r2[mi] == r1[last as int]);
                            assert(l2[k as int].mirror == ri as int);
                        } else {
                            assert(r2[mi] == r1[mi]);
                            let idx = r1[mi].mirror as int;
                            assert(l1[idx].mirror == mi);
                            assert(idx != last) by {
                                if idx == last {
                                    assert(l1[last as int].mirror == ri as int);
                                }
                            }
                            assert(idx != k) by {
                                if idx == k {
                                    assert(l1[k as int].mirror == last as int);
                                }
                            }
                            assert(l2[idx] == l1[idx]);
                        }
                    }
                    assert(linked(l2, r2));
                }
            }

            proof {
                // the shortened left array is a heap except at its root
                assert forall|c: int|
                    #![trigger vals(l@)[c]]
                    1 <= c < vals(l@).len() && (c - 1) / 2 >= 1 implies le(
                        asc,
                        vals(l@)[(c - 1) / 2],
                        vals(l@)[c],
                    ) by {
                    assert(vals(l@)[c] == ql0[c]);
                    assert(vals(l@)[(c - 1) / 2] == ql0[(c - 1) / 2]);
                }
                // the shortened right array is a heap except at slot `ri`
                assert forall|c: int|
                    #![trigger vals(r@)[c]]
                    1 <= c < vals(r@).len() && c != ri && (c - 1) / 2 != ri implies le(
                        !asc,
                        vals(r@)[(c - 1) / 2],
                        vals(r@)[c],
                    ) by {
                    assert(vals(r@)[c] == qr0[c]);
                    assert(vals(r@)[(c - 1) / 2] == qr0[(c - 1) / 2]);
                }
            }
            let ghost qrn = vals(r@);

            // Restore the heap property at the root of the left heap.
            proof {
                assert(heap_from(asc, vals(l@), 1));
                lemma_heap_from_subtree(asc, vals(l@), 0);
            }
            Self::fix_heap_property_top_down_aux(l, r, 0, asc);

            // If the vacated slot in the right heap was not the last one,
            // the element moved into it may violate the order in either
            // direction: sift it up or down as needed.
            if ri != last {
                let rasc = !asc;
                let go_up = if ri > 0 {
                    let pv = r[(ri - 1) / 2].val;
                    let rv = r[ri].val;
                    if rasc {
                        rv < pv
                    } else {
                        rv > pv
                    }
                } else {
                    false
                };
                let ghost p = (ri - 1) as int / 2;
                proof {
                    if ri > 0 {
                        // old edges around the removed slot, by transitivity
                        assert(le(!asc, qr0[p], qr0[ri as int]));
                        assert forall|c: int|
                            #![trigger qrn[c]]
                            1 <= c < qrn.len() && (c - 1) / 2 == ri implies le(
                                !asc,
                                qrn[p],
                                qrn[c],
                            ) by {
                            assert(qrn[c] == qr0[c]);
                            assert(le(!asc, qr0[ri as int], qr0[c]));
                            assert(qrn[p] == qr0[p]);
                        }
                    }
                }
                if go_up {
                    proof {
                        assert forall|c: int|
                            #![trigger qrn[c]]
                            1 <= c < qrn.len() && c != ri implies le(
                                !asc,
                                qrn[(c - 1) / 2],
                                qrn[c],
                            ) by {
                            if (c - 1) / 2 == ri {
                                assert(le(!asc, qrn[p], qrn[c]));
                            }
                        }
                    }
                    Self::fix_heap_property_bottom_up_aux(r, l, ri, rasc, Ghost(qrn.len() as int));
                    proof {
                        assert(heap_ord(!asc, vals(r@)));
                    }
                } else {
                    proof {
                        assert forall|c: int|
                            #![trigger qrn[c]]
                            1 <= c < qrn.len() && (c - 1) / 2 >= ri + 1 implies le(
                                !asc,
                                qrn[(c - 1) / 2],
                                qrn[c],
                            ) by {}
                        assert(heap_from(!asc, qrn, ri as int + 1));
                        lemma_heap_from_subtree(!asc, qrn, ri as int);
                    }
                    let ghost qmid = vals(l@);
                    Self::fix_heap_property_top_down_aux(r, l, ri, rasc);
                    proof {
                        let qr2 = vals(r@);
                        assert forall|c: int|
                            #![trigger qr2[c]]
                            1 <= c < qr2.len() && (c - 1) / 2 >= 0 implies le(
                                !asc,
                                qr2[(c - 1) / 2],
                                qr2[c],
                            ) by {
                            let pc = (c - 1) / 2;
                            if pc < ri {
                                assert(!in_subtree(ri as int, pc)) by {
                                    if in_subtree(ri as int, pc) {
                                        lemma_in_subtree_ge(ri as int, pc);
                                    }
                                }
                                assert(qr2[pc] == qrn[pc]);
                                if c == ri {
                                    // slot ri holds its moved-in value or a child's
                                    if qr2[ri as int] == qrn[ri as int] {
                                        assert(le(!asc, qrn[p], qrn[ri as int]));
                                    } else {
                                        let cc = choose|cc: int|
                                            (cc == 2 * ri + 1 || cc == 2 * ri + 2) && cc
                                                < qrn.len() && qr2[ri as int] == qrn[cc];
                                        assert(qrn[cc] == qr0[cc]);
                                        assert(le(!asc, qr0[ri as int], qr0[cc]));
                                        assert(le(!asc, qr0[p], qr0[ri as int]));
                                        assert(qrn[pc] == qr0[pc]);
                                    }
                                } else {
                                    assert(!in_subtree(ri as int, c)) by {
                                        if in_subtree(ri as int, c) {
                                            assert(in_subtree(ri as int, pc));
                                            lemma_in_subtree_ge(ri as int, pc);
                                        }
                                    }
                                    assert(qr2[c] == qrn[c]);
                                }
                            }
                        }
                        assert(heap_ord(!asc, vals(r@)));
                        assert(vals(l@) == qmid);
                    }
                }
            } else {
                proof {
                    assert(heap_ord(!asc, vals(r@)));
                }
            }
            proof {
                assert(heap_ord(asc, vals(l@)));
            }
            Some(m)
        }
    }

    /// Make a `DoubleHeap` from a vector, in linear time: both arrays
    /// start as copies of the input with identity mirrors, then every
    /// index is sifted down, from the last one to the root.
    pub fn make_heap(v: Vec<u64>) -> (h: DoubleHeap)
        ensures
            h.wf(),
            h.multiset() == v@.to_multiset(),
            h.min_array@.len() == v@.len(),
    {
        let mut h = DoubleHeap::new();
        let n = v.len();
        let mut idx: usize = 0;
        while idx < n
            invariant
                n == v@.len(),
                idx <= n,
                h.min_array@.len() == idx,
                h.max_array@.len() == idx,
                forall|j: int|
                    #![trigger h.min_array@[j]]
                    0 <= j < idx ==> h.min_array@[j] == (Slot { val: v@[j], mirror: j as usize }),
                forall|j: int|
                    #![trigger h.max_array@[j]]
                    0 <= j < idx ==> h.max_array@[j] == (Slot { val: v@[j], mirror: j as usize }),
            decreases n - idx,
        {
            h.min_array.push(Slot { val: v[idx], mirror: idx });
            h.max_array.push(Slot { val: v[idx], mirror: idx });
            idx = idx + 1;
        }
        proof {
            assert(linked(h.min_array@, h.max_array@));
            assert(vals(h.min_array@) =~= v@);
            assert(vals(h.max_array@) =~= v@);
        }

        // Fix the heap property from the current node downwards, going
        // from the last node to the first (root).
        let s = h.min_array.len();
        let mut i = s;
        while i > 0
            invariant
                s == h.min_array@.len(),
                s == v@.len(),
                i <= s,
                linked(h.min_array@, h.max_array@),
                vals(h.min_array@).to_multiset() == v@.to_multiset(),
                vals(h.max_array@).to_multiset() == v@.to_multiset(),
                heap_from(true, vals(h.min_array@), i as int),
                heap_from(false, vals(h.max_array@), i as int),
            decreases i,
        {
            i = i - 1;
            proof {
                lemma_heap_from_subtree(true, vals(h.min_array@), i as int);
            }
            Self::fix_heap_property_top_down_aux(&mut h.min_array, &mut h.max_array, i, true);
            proof {
                lemma_heap_from_subtree(false, vals(h.max_array@), i as int);
            }
            Self::fix_heap_property_top_down_aux(&mut h.max_array, &mut h.min_array, i, false);
        }
        h
    }

    /// The values stored in a slot array, in slot order.
    fn slot_values(v: &Vec<Slot>) -> (r: Vec<u64>)
        ensures
            r@ == vals(v@),
    {
        let mut r: Vec<u64> = Vec::new();
        let n = v.len();
        let mut idx: usize = 0;
        while idx < n
            invariant
                n == v@.len(),
                idx <= n,
                r@.len() == idx,
                forall|j: int| #![trigger r@[j]] 0 <= j < idx ==> r@[j] == v@[j].val,
            decreases n - idx,
        {
            r.push(v[idx].val);
            idx = idx + 1;
        }
        proof {
            assert(r@ =~= vals(v@));
        }
        r
    }

    /// Check that this `DoubleHeap`'s components really are a min-heap
    /// and a max-heap.  Used for testing.
    pub fn is_heap(&self) -> (r: bool)
        ensures
            r == (heap_ord(true, vals(self.min_array@)) && heap_ord(false, vals(self.max_array@))),
    {
        let mn = Self::slot_values(&self.min_array);
        let mx = Self::slot_values(&self.max_array);
        Heap::is_heap_aux(&mn, true) && Heap::is_heap_aux(&mx, false)
    }
}

impl DEPQ for DoubleHeap {
    open spec fn inv(&self) -> bool {
        self.wf()
    }

    open spec fn mset(&self) -> Multiset<u64> {
        self.multiset()
    }

    fn is_empty(&self) -> (r: bool) {
        proof {
            assert(vals(self.min_array@).to_multiset().len() == vals(self.min_array@).len());
        }
        self.min_array.len() == 0
    }

    fn size(&self) -> (r: usize) {
        proof {
            assert(vals(self.min_array@).to_multiset().len() == vals(self.min_array@).len());
        }
        self.min_array.len()
    }

    fn ins(&mut self, item: u64) {
        let ghost l0 = self.min_array@;
        let ghost r0 = self.max_array@;
        let i = self.min_array.len();
        self.min_array.push(Slot { val: item, mirror: i });
        self.max_array.push(Slot { val: item, mirror: i });
        proof {
            let l1 = self.min_array@;
            let r1 = self.max_array@;
            assert forall|idx: int| 0 <= idx < l1.len() implies {
                &&& (l1[idx].mirror as int) < r1.len()
                &&& r1[l1[idx].mirror as int].mirror == idx
                &&& r1[l1[idx].mirror as int].val == l1[idx].val
            } by {
                if idx < i {
                    assert(l1[idx] == l0[idx]);
                    assert(r0[l0[idx].mirror as int].mirror == idx);
                }
            }
            assert forall|idx: int| 0 <= idx < r1.len() implies {
                &&& (r1[idx].mirror as int) < l1.len()
                &&& l1[r1[idx].mirror as int].mirror == idx
                &&& l1[r1[idx].mirror as int].val == r1[idx].val
            } by {
                if idx < i {
                    assert(r1[idx] == r0[idx]);
                    assert(l0[r0[idx].mirror as int].mirror == idx);
                }
            }
            assert(linked(l1, r1));
            assert(vals(l1) =~= vals(l0).push(item));
            assert(vals(r1) =~= vals(r0).push(item));
            assert(vals(l1).to_multiset() == vals(l0).to_multiset().insert(item));
        }
        self.fix_heap_property_bottom_up(i, i);
    }

    fn ins_all(&mut self, v: Vec<u64>) {
        let ghost m0 = self.mset();
        let n = v.len();
        let mut idx: usize = 0;
        while idx < n
            invariant
                n == v@.len(),
                idx <= n,
                self.wf(),
                self.multiset() == m0.add(v@.take(idx as int).to_multiset()),
            decreases n - idx,
        {
            let ghost before = self.multiset();
            self.ins(v[idx]);
            proof {
                assert(v@.take(idx as int + 1) =~= v@.take(idx as int).push(v@[idx as int]));
                assert(v@.take(idx as int + 1).to_multiset() == v@.take(
                    idx as int,
                ).to_multiset().insert(v@[idx as int]));
                assert(self.multiset() =~= m0.add(v@.take(idx as int + 1).to_multiset()));
            }
            idx = idx + 1;
        }
        proof {
            assert(v@.take(n as int) =~= v@);
        }
    }

    fn min(&self) -> (r: Option<u64>) {
        proof {
            assert(vals(self.min_array@).to_multiset().len() == vals(self.min_array@).len());
        }
        if self.min_array.len() == 0 {
            None
        } else {
            proof {
                lemma_heap_root_bounds_mset(true, vals(self.min_array@));
                assert(vals(self.min_array@)[0] == self.min_array@[0].val);
                assert(vals(self.min_array@).contains(vals(self.min_array@)[0]));
            }
            Some(self.min_array[0].val)
        }
    }

    fn max(&self) -> (r: Option<u64>) {
        proof {
            assert(vals(self.min_array@).to_multiset().len() == vals(self.min_array@).len());
        }
        if self.max_array.len() == 0 {
            None
        } else {
            proof {
                let l = self.min_array@;
                let r = self.max_array@;
                let top = r[0].val;
                assert(l[r[0].mirror as int].val == top);
                assert(vals(l)[r[0].mirror as int] == top);
                assert(vals(l).contains(top));
                assert forall|x: u64| self.mset().contains(x) implies top >= x by {
                    assert(vals(l).contains(x));
                    let idx = choose|idx: int| 0 <= idx < vals(l).len() && vals(l)[idx] == x;
                    assert(vals(r)[l[idx].mirror as int] == x);
                    lemma_heap_root_extremal(false, vals(r), l[idx].mirror as int);
                }
            }
            Some(self.max_array[0].val)
        }
    }

    fn del_min(&mut self) -> (r: Option<u64>) {
        proof {
            assert(vals(old(self).min_array@).to_multiset().len() == vals(
                old(self).min_array@,
            ).len());
            if old(self).min_array@.len() >= 1 {
                lemma_heap_root_bounds_mset(true, vals(old(self).min_array@));
                assert(vals(old(self).min_array@).contains(vals(old(self).min_array@)[0]));
            }
        }
        let r = Self::del_aux(&mut self.min_array, &mut self.max_array, true);
        proof {
            if r is Some {
                let m = r->0;
                assert(old(self).mset() =~= self.mset().insert(m));
            }
        }
        r
    }

    fn del_max(&mut self) -> (r: Option<u64>) {
        proof {
            assert(vals(old(self).min_array@).to_multiset().len() == vals(
                old(self).min_array@,
            ).len());
            if old(self).max_array@.len() >= 1 {
                let l = old(self).min_array@;
                let rr = old(self).max_array@;
                let top = rr[0].val;
                assert(l[rr[0].mirror as int].val == top);
                assert(vals(l)[rr[0].mirror as int] == top);
                assert(vals(l).contains(top));
                assert forall|x: u64| old(self).mset().contains(x) implies top >= x by {
                    assert(vals(l).contains(x));
                    let idx = choose|idx: int| 0 <= idx < vals(l).len() && vals(l)[idx] == x;
                    assert(vals(rr)[l[idx].mirror as int] == x);
                    lemma_heap_root_extremal(false, vals(rr), l[idx].mirror as int);
                }
            }
        }
        let r = Self::del_aux(&mut self.max_array, &mut self.min_array, false);
        proof {
            if r is Some {
                let m = r->0;
                assert(old(self).mset() =~= self.mset().insert(m));
            }
        }
        r
    }
}

/// Shape invariant: a well-formed queue's arrays really are a min-heap
/// and a max-heap.
pub proof fn lemma_shape_invariant(h: DoubleHeap)
    requires
        h.wf(),
    ensures
        heap_ord(true, vals(h.min_array@)),
        heap_ord(false, vals(h.max_array@)),
{
}

/// Mirror invariant: in a well-formed queue, for every index `i` of the
/// min array, the max-array slot it points at carries the same value
/// and points back at `i`; and symmetrically.
pub proof fn lemma_mirror_invariant(h: DoubleHeap)
    requires
        h.wf(),
    ensures
        h.min_array@.len() == h.max_array@.len(),
        forall|i: int|
            #![trigger h.min_array@[i]]
            0 <= i < h.min_array@.len() ==> {
                &&& (h.min_array@[i].mirror as int) < h.max_array@.len()
                &&& h.max_array@[h.min_array@[i].mirror as int].mirror == i
                &&& h.max_array@[h.min_array@[i].mirror as int].val == h.min_array@[i].val
            },
        forall|i: int|
            #![trigger h.max_array@[i]]
            0 <= i < h.max_array@.len() ==> {
                &&& (h.max_array@[i].mirror as int) < h.min_array@.len()
                &&& h.min_array@[h.max_array@[i].mirror as int].mirror == i
                &&& h.min_array@[h.max_array@[i].mirror as int].val == h.max_array@[i].val
            },
{
}

/// Round trip: deleting an element of a queue and inserting it back
/// restores the multiset of elements the queue held before, so a
/// deleted minimum or maximum can always be reinserted losslessly.
pub proof fn lemma_delete_reinsert(before: Multiset<u64>, after: Multiset<u64>, m: u64)
    requires
        before.contains(m),
        after == before.remove(m),
    ensures
        after.insert(m) == before,
{
    assert(after.insert(m) =~= before);
}


/// Two `DoubleHeap`s are equal if they hold the same elements,
/// whatever the arrays' internal arrangement.  Checked by sorting the
/// min sides.
impl PartialEq for DoubleHeap {
    fn eq(&self, rhs: &Self) -> (r: bool) {
        let a = Heap::sort2(Self::slot_values(&self.min_array));
        let b = Heap::sort2(Self::slot_values(&rhs.min_array));
        let r = a == b;
        proof {
            assert(a@.to_multiset() == vals(self.min_array@).to_multiset());
            assert(b@.to_multiset() == vals(rhs.min_array@).to_multiset());
            if r {
                assert(a@ =~= b@);
            } else {
                if vals(self.min_array@).to_multiset() == vals(rhs.min_array@).to_multiset() {
                    lemma_sorted_unique(a@, b@);
                    assert(a@ =~= b@);
                }
            }
        }
        r
    }
}

impl vstd::std_specs::cmp::PartialEqSpecImpl for DoubleHeap {
    open spec fn obeys_eq_spec() -> bool {
        true
    }

    open spec fn eq_spec(&self, o: &DoubleHeap) -> bool {
        vals(self.min_array@).to_multiset() == vals(o.min_array@).to_multiset()
    }
}

} // verus!
