//! Shared specification vocabulary for array-encoded binary heaps.
//!
//! An array `q` encodes a binary tree: the children of index `i` are
//! `2i + 1` and `2i + 2`, so the parent of a child `c >= 1` is
//! `(c - 1) / 2`.  The same definitions serve min-heaps and max-heaps
//! through the direction flag `asc`.

use vstd::prelude::*;

verus! {

broadcast use vstd::seq_lib::group_to_multiset_ensures, vstd::seq_lib::to_multiset_update;

/// Heap order along one edge: for a min-heap (`asc == true`) the parent
/// value is at most the child value, for a max-heap at least.
pub open spec fn le(asc: bool, a: u64, b: u64) -> bool {
    if asc {
        a <= b
    } else {
        a >= b
    }
}

/// Every edge whose parent index is at least `lo` is ordered.
pub open spec fn heap_from(asc: bool, q: Seq<u64>, lo: int) -> bool {
    forall|c: int|
        #![trigger q[c]]
        1 <= c < q.len() && (c - 1) / 2 >= lo ==> le(asc, q[(c - 1) / 2], q[c])
}

/// The whole array is heap-ordered.
pub open spec fn heap_ord(asc: bool, q: Seq<u64>) -> bool {
    heap_from(asc, q, 0)
}

/// Every edge with child index below `hi` is ordered.
pub open spec fn heap_prefix(asc: bool, q: Seq<u64>, hi: int) -> bool {
    forall|c: int|
        #![trigger q[c]]
        1 <= c < hi && c < q.len() ==> le(asc, q[(c - 1) / 2], q[c])
}

/// Every edge with child index below `hi` is ordered, except possibly
/// the edge into `i`: the state right before sifting `i` up.
pub open spec fn heap_prefix_except(asc: bool, q: Seq<u64>, hi: int, i: int) -> bool {
    forall|c: int|
        #![trigger q[c]]
        1 <= c < hi && c < q.len() && c != i ==> le(asc, q[(c - 1) / 2], q[c])
}

/// Index `k` lies in the subtree rooted at index `root`.
pub open spec fn in_subtree(root: int, k: int) -> bool
    decreases k,
{
    if k <= root {
        k == root
    } else if k < 1 {
        false
    } else {
        in_subtree(root, (k - 1) / 2)
    }
}

/// Members of a subtree do not precede its root.
pub proof fn lemma_in_subtree_ge(root: int, k: int)
    requires
        in_subtree(root, k),
    ensures
        k >= root,
    decreases k,
{
    if k > root && k >= 1 {
        lemma_in_subtree_ge(root, (k - 1) / 2);
    }
}

/// In a heap-ordered array the root value bounds the value at any index.
pub proof fn lemma_heap_root_extremal(asc: bool, q: Seq<u64>, i: int)
    requires
        heap_ord(asc, q),
        0 <= i < q.len(),
    ensures
        le(asc, q[0], q[i]),
    decreases i,
{
    if i > 0 {
        lemma_heap_root_extremal(asc, q, (i - 1) / 2);
    }
}

/// In a heap-ordered array the root value bounds every element of the
/// array's multiset.
pub proof fn lemma_heap_root_bounds_mset(asc: bool, q: Seq<u64>)
    requires
        heap_ord(asc, q),
        q.len() >= 1,
    ensures
        forall|x: u64| q.to_multiset().contains(x) ==> le(asc, q[0], x),
{
    assert forall|x: u64| q.to_multiset().contains(x) implies le(asc, q[0], x) by {
        assert(q.contains(x));
        let idx = choose|idx: int| 0 <= idx < q.len() && q[idx] == x;
        lemma_heap_root_extremal(asc, q, idx);
    }
}

/// Swapping two positions of a sequence preserves its multiset.
pub proof fn lemma_swap_to_multiset(q: Seq<u64>, i: int, j: int)
    requires
        0 <= i < q.len(),
        0 <= j < q.len(),
    ensures
        q.update(i, q[j]).update(j, q[i]).to_multiset() == q.to_multiset(),
{
    let u = q.update(i, q[j]);
    assert(u.to_multiset() == q.to_multiset().insert(q[j]).remove(q[i]));
    assert(u.update(j, q[i]).to_multiset() == u.to_multiset().insert(q[i]).remove(u[j]));
    assert(u.update(j, q[i]).to_multiset() =~= q.to_multiset());
}

/// Dropping the last element of a sequence removes exactly that element
/// from its multiset.
pub proof fn lemma_drop_last_to_multiset(q: Seq<u64>)
    requires
        q.len() >= 1,
    ensures
        q.drop_last().to_multiset() == q.to_multiset().remove(q.last()),
{
    assert(q.drop_last() =~= q.remove(q.len() - 1));
    assert(q.remove(q.len() - 1).to_multiset() == q.to_multiset().remove(q.last()));
}

/// The sequence is sorted in ascending order.
pub open spec fn sorted(q: Seq<u64>) -> bool {
    forall|i: int, j: int| #![trigger q[i], q[j]] 0 <= i <= j < q.len() ==> q[i] <= q[j]
}



/// Every edge inside the subtree rooted at `i` is ordered, except
/// possibly the edges out of `i` itself: the two subtrees under `i`
/// are heaps, while `i`'s own value may sit anywhere.
pub open spec fn subtree_ord_except_root(asc: bool, q: Seq<u64>, i: int) -> bool {
    forall|c: int|
        #![trigger q[c]]
        1 <= c < q.len() && (c - 1) / 2 != i && in_subtree(i, (c - 1) / 2) ==> le(
            asc,
            q[(c - 1) / 2],
            q[c],
        )
}

/// Every edge inside the subtree rooted at `i` is ordered.
pub open spec fn subtree_ord(asc: bool, q: Seq<u64>, i: int) -> bool {
    forall|c: int|
        #![trigger q[c]]
        1 <= c < q.len() && in_subtree(i, (c - 1) / 2) ==> le(asc, q[(c - 1) / 2], q[c])
}

/// Order on every edge below `i` gives order inside `i`'s two subtrees.
pub proof fn lemma_heap_from_subtree(asc: bool, q: Seq<u64>, i: int)
    requires
        0 <= i,
        heap_from(asc, q, i + 1),
    ensures
        subtree_ord_except_root(asc, q, i),
{
    assert forall|c: int|
        1 <= c < q.len() && (c - 1) / 2 != i && in_subtree(i, (c - 1) / 2) implies le(
        asc,
        #[trigger] q[(c - 1) / 2],
        q[c],
    ) by {
        lemma_in_subtree_ge(i, (c - 1) / 2);
    }
}

/// `k` lies on the single descending chain of parent-child edges that
/// leads from `root` down to `e`: it is below `root` and above `e`.
pub open spec fn on_chain(root: int, k: int, e: int) -> bool {
    in_subtree(root, k) && in_subtree(k, e)
}

/// The entries of `q1` that differ from `q0` all lie on one descending
/// chain of parent-child edges starting at index `i`: some chain end
/// `e` bounds them, and every entry off the chain from `i` to `e` is
/// unchanged.
#[verifier::opaque]
pub open spec fn moves_one_chain(i: int, q0: Seq<u64>, q1: Seq<u64>) -> bool {
    exists|e: int|
        in_subtree(i, e) && (forall|k: int|
            0 <= k < q0.len() && !on_chain(i, k, e) ==> q1[k] == q0[k])
}

/// Two sorted sequences holding the same multiset are equal, so sorting
/// decides multiset equality.
pub proof fn lemma_sorted_unique(a: Seq<u64>, b: Seq<u64>)
    requires
        sorted(a),
        sorted(b),
        a.to_multiset() == b.to_multiset(),
    ensures
        a == b,
    decreases a.len(),
{
    assert(a.to_multiset().len() == a.len());
    assert(b.to_multiset().len() == b.len());
    if a.len() == 0 {
        assert(a =~= b);
    } else {
        assert(a.contains(a.last()));
        assert(b.to_multiset().contains(a.last()));
        assert(b.contains(a.last()));
        assert(a.to_multiset().contains(b.last()));
        assert(a.contains(b.last()));
        assert(a.last() == b.last()) by {
            let ia = choose|ia: int| 0 <= ia < a.len() && a[ia] == b.last();
            let ib = choose|ib: int| 0 <= ib < b.len() && b[ib] == a.last();
            assert(a[ia] <= a.last());
            assert(b[ib] <= b.last());
        }
        lemma_drop_last_to_multiset(a);
        lemma_drop_last_to_multiset(b);
        lemma_sorted_unique(a.drop_last(), b.drop_last());
        assert forall|i: int| 0 <= i < a.len() implies a[i] == b[i] by {
            if i < a.len() - 1 {
                assert(a.drop_last()[i] == b.drop_last()[i]);
            }
        }
        assert(a =~= b);
    }
}

} // verus!
