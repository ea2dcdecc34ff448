//! The classical data structure for the disjoint-set problem, also
//! known as union-find, where union is weighted by size.  The rank that
//! makes the forest well founded is carried as ghost state; the sizes
//! drive the balancing and always add up to the number of elements.

use vstd::prelude::*;
use crate::union_find::{forest, root_of, same_set, roots,
    lemma_roots_finite, lemma_root_of_is_root, lemma_root_of_step, lemma_root_of_root,
    lemma_halving, lemma_link, lemma_merge_classes};
use vstd::set_lib::set_int_range;

verus! {

/// The total of all stored subtree sizes.
pub open spec fn sum_sizes(s: Seq<usize>) -> int
    decreases s.len(),
{
    if s.len() == 0 {
        0
    } else {
        s.last() + sum_sizes(s.drop_last())
    }
}

/// Sizes are never negative in total.
proof fn lemma_sum_nonneg(s: Seq<usize>)
    ensures
        sum_sizes(s) >= 0,
    decreases s.len(),
{
    if s.len() > 0 {
        lemma_sum_nonneg(s.drop_last());
    }
}

/// Replacing one entry shifts the total by the difference.
proof fn lemma_sum_update(s: Seq<usize>, k: int, v: usize)
    requires
        0 <= k < s.len(),
    ensures
        sum_sizes(s.update(k, v)) == sum_sizes(s) - s[k] + v,
    decreases s.len(),
{
    if k == s.len() - 1 {
        assert(s.update(k, v).drop_last() =~= s.drop_last());
        assert(s.update(k, v).last() == v);
    } else {
        assert(s.update(k, v).drop_last() =~= s.drop_last().update(k, v));
        assert(s.update(k, v).last() == s.last());
        lemma_sum_update(s.drop_last(), k, v);
    }
}

/// Each entry is bounded by the total.
proof fn lemma_sum_ge_elem(s: Seq<usize>, k: int)
    requires
        0 <= k < s.len(),
    ensures
        s[k] <= sum_sizes(s),
    decreases s.len(),
{
    if k == s.len() - 1 {
        lemma_sum_nonneg(s.drop_last());
    } else {
        lemma_sum_ge_elem(s.drop_last(), k);
    }
}

/// Two distinct entries together are bounded by the total.
proof fn lemma_sum_two(s: Seq<usize>, k1: int, k2: int)
    requires
        0 <= k1 < s.len(),
        0 <= k2 < s.len(),
        k1 != k2,
    ensures
        s[k1] + s[k2] <= sum_sizes(s),
{
    lemma_sum_update(s, k1, 0);
    lemma_sum_ge_elem(s.update(k1, 0), k2);
}

/// The classical data structure for the disjoint-set problem.  `find`
/// reports the representative of an element's set, `union` joins two
/// sets, attaching the smaller tree below the larger.
pub struct UnionFind {
    pub parents: Vec<usize>,
    pub sizes: Vec<usize>,
    pub rank: Ghost<Seq<int>>,
}

impl UnionFind {
    /// The parent array and the ghost ranks form a well-founded forest,
    /// and the sizes account for every element exactly once.
    pub open spec fn wf(&self) -> bool {
        &&& self.sizes@.len() == self.parents@.len()
        &&& forest(self.parents@, self.rank@)
        &&& sum_sizes(self.sizes@) == self.parents@.len()
    }

    /// Creates a new `UnionFind` structure of the given `size`, with
    /// every element in a singleton set of its own.
    pub fn new(size: usize) -> (uf: UnionFind)
        ensures
            uf.wf(),
            uf.parents@.len() == size,
            forall|x: int| 0 <= x < size ==> root_of(uf.parents@, x) == x,
    {
        let mut parents: Vec<usize> = Vec::new();
        let mut sizes: Vec<usize> = Vec::new();

        let mut i: usize = 0;
        while i < size
            invariant
                i <= size,
                parents@.len() == i,
                sizes@.len() == i,
                forall|x: int| #![trigger parents@[x]] 0 <= x < i ==> parents@[x] == x as usize,
                sum_sizes(sizes@) == i,
            decreases size - i,
        {
            let ghost sprev = sizes@;
            parents.push(i);
            sizes.push(1);
            proof {
                assert(sizes@.drop_last() =~= sprev);
            }
            i = i + 1;
        }

        let uf = UnionFind { parents, sizes, rank: Ghost(Seq::new(size as nat, |x: int| 0)) };
        proof {
            assert(roots(uf.parents@) =~= set_int_range(0, size as int));
            vstd::set_lib::lemma_int_range(0, size as int);
            assert(uf.wf());
            assert forall|x: int| 0 <= x < size implies root_of(uf.parents@, x) == x by {
                lemma_root_of_root(uf.parents@, x);
            }
        }
        uf
    }

    /// Returns the number of elements of the structure (not the number
    /// of distinct sets!).
    pub fn size(&self) -> (r: usize)
        ensures
            r == self.parents@.len(),
    {
        self.parents.len()
    }

    /// Joins together the sets to which `i` and `j` belong.  Afterwards
    /// two elements share a set exactly if they already did, or one was
    /// with `i` and the other with `j`.
    #[verifier::rlimit(100)]
    pub fn union(&mut self, i: usize, j: usize)
        requires
            old(self).wf(),
        ensures
            final(self).wf(),
            final(self).parents@.len() == old(self).parents@.len(),
            (i < old(self).parents@.len() && j < old(self).parents@.len()) ==> forall|
                x: int,
                y: int,
            |
                0 <= x < old(self).parents@.len() && 0 <= y < old(self).parents@.len() ==> (
                same_set(final(self).parents@, x, y) <==> (same_set(old(self).parents@, x, y) || (
                same_set(old(self).parents@, x, i as int) && same_set(
                    old(self).parents@,
                    y,
                    j as int,
                )) || (same_set(old(self).parents@, x, j as int) && same_set(
                    old(self).parents@,
                    y,
                    i as int,
                )))),
            !(i < old(self).parents@.len() && j < old(self).parents@.len()) ==> forall|x: int|
                0 <= x < old(self).parents@.len() ==> root_of(final(self).parents@, x) == root_of(
                    old(self).parents@,
                    x,
                ),
    {
        let ghost p0 = old(self).parents@;
        let fi = self.find(i);
        let fj = self.find(j);
        let ghost pmid = self.parents@;
        match (fi, fj) {
            (Some(pi), Some(pj)) => {
                if pi != pj {
                    proof {
                        lemma_root_of_is_root(pmid, self.rank@, i as int);
                        lemma_root_of_is_root(pmid, self.rank@, j as int);
                        lemma_roots_finite(pmid);
                        assert(roots(pmid).contains(pi as int));
                        assert(roots(pmid).remove(pi as int).len() == roots(pmid).len() - 1);
                        lemma_sum_two(self.sizes@, pi as int, pj as int);
                    }
                    let ghost rk0 = self.rank@;
                    let ghost s0 = self.sizes@;
                    let si = self.sizes[pi];
                    let sj = self.sizes[pj];
                    if si <= sj {
                        // attach the smaller tree, rooted at pi, below pj
                        self.parents[pi] = pj;
                        self.sizes[pj] = sj + si;
                        self.sizes[pi] = 0;
                        proof {
                            let bump: int = if rk0[pi as int] >= rk0[pj as int] {
                                rk0[pi as int] + 1
                            } else {
                                rk0[pj as int] + 1
                            };
                            self.rank@ = rk0.update(pj as int, bump);
                            lemma_link(pmid, rk0, self.rank@, pi as int, pj as int);
                            assert(self.parents@ =~= pmid.update(pi as int, pj));
                            lemma_merge_classes(p0, pmid, self.parents@, rk0, self.rank@, i as int,
                                j as int, pi as int, pj as int);
                            lemma_sum_update(s0, pj as int, (sj + si) as usize);
                            lemma_sum_update(s0.update(pj as int, (sj + si) as usize), pi as int, 0);
                            assert(self.sizes@ =~= s0.update(pj as int, (sj + si) as usize).update(
                                pi as int,
                                0,
                            ));
                        }
                    } else {
                        self.parents[pj] = pi;
                        self.sizes[pi] = si + sj;
                        self.sizes[pj] = 0;
                        proof {
                            let bump: int = if rk0[pi as int] >= rk0[pj as int] {
                                rk0[pi as int] + 1
                            } else {
                                rk0[pj as int] + 1
                            };
                            self.rank@ = rk0.update(pi as int, bump);
                            lemma_link(pmid, rk0, self.rank@, pj as int, pi as int);
                            assert(self.parents@ =~= pmid.update(pj as int, pi));
                            lemma_merge_classes(p0, pmid, self.parents@, rk0, self.rank@, i as int,
                                j as int, pj as int, pi as int);
                            lemma_sum_update(s0, pi as int, (si + sj) as usize);
                            lemma_sum_update(s0.update(pi as int, (si + sj) as usize), pj as int, 0);
                            assert(self.sizes@ =~= s0.update(pi as int, (si + sj) as usize).update(
                                pj as int,
                                0,
                            ));
                        }
                    }
                }
            },
            _ => {},
        }
    }

    /// Finds the representative of the set to which `i` belongs,
    /// halving the path behind it.  No set membership changes.
    pub fn find(&mut self, i: usize) -> (r: Option<usize>)
        requires
            old(self).wf(),
        ensures
            final(self).wf(),
            final(self).parents@.len() == old(self).parents@.len(),
            final(self).sizes@ == old(self).sizes@,
            final(self).rank@ == old(self).rank@,
            forall|j: int|
                0 <= j < old(self).parents@.len() ==> root_of(final(self).parents@, j) == root_of(
                    old(self).parents@,
                    j,
                ),
            match r {
                Some(root) => i < old(self).parents@.len() && root as int == root_of(
                    old(self).parents@,
                    i as int,
                ),
                None => i >= old(self).parents@.len() && final(self).parents@ == old(
                    self,
                ).parents@,
            },
    {
        if i >= self.parents.len() {
            None
        } else {
            loop
                invariant
                    self.wf(),
                    i < self.parents@.len(),
                    self.parents@.len() == old(self).parents@.len(),
                    self.sizes@ == old(self).sizes@,
                    self.rank@ == old(self).rank@,
                    forall|j: int|
                        0 <= j < old(self).parents@.len() ==> root_of(self.parents@, j) == root_of(
                            old(self).parents@,
                            j,
                        ),
                decreases self.parents@.len() - self.rank@[self.parents@[i as int] as int],
            {
                let pi = self.parents[i];
                let ppi = self.parents[pi];
                if pi == ppi {
                    proof {
                        if self.parents@[i as int] == i {
                            lemma_root_of_root(self.parents@, i as int);
                        } else {
                            lemma_root_of_step(self.parents@, self.rank@, i as int);
                            lemma_root_of_root(self.parents@, pi as int);
                        }
                    }
                    return Some(pi);
                } else {
                    proof {
                        lemma_halving(self.parents@, self.rank@, i as int);
                        assert(self.rank@[pi as int] < self.rank@[ppi as int]);
                    }
                    let ghost pprev = self.parents@;
                    self.parents[i] = ppi;
                    proof {
                        assert(self.parents@ =~= pprev.update(
                            i as int,
                            pprev[pprev[i as int] as int],
                        ));
                    }
                }
            }
        }
    }
}

} // verus!
