//! The classical data structure for the disjoint-set problem, also
//! known as union-find, where union is weighted by rank and `find`
//! shortens paths by halving.

use vstd::prelude::*;
use crate::union_find::{forest, root_of, same_set, roots,
    lemma_roots_finite, lemma_root_of_is_root, lemma_root_of_step, lemma_root_of_root,
    lemma_halving, lemma_link, lemma_merge_classes};
use vstd::set_lib::set_int_range;

verus! {

pub struct UnionFind {
    pub parents: Vec<usize>,
    pub ranks: Vec<usize>,
}

impl UnionFind {
    /// The ranks, as the mathematical rank sequence of the forest.
    pub open spec fn rk(&self) -> Seq<int> {
        Seq::new(self.ranks@.len(), |i: int| self.ranks@[i] as int)
    }

    /// The parent array and the ranks form a well-founded forest.
    pub open spec fn wf(&self) -> bool {
        &&& self.ranks@.len() == self.parents@.len()
        &&& forest(self.parents@, self.rk())
    }

    /// Creates a new `UnionFind` structure of the given `size`, with
    /// every element in a singleton set of its own.
    pub fn new(size: usize) -> (uf: UnionFind)
        ensures
            uf.wf(),
            uf.parents@.len() == size,
            forall|x: int| 0 <= x < size ==> root_of(uf.parents@, x) == x,
    {
        let mut parents: Vec<usize> = Vec::new();
        let mut ranks: Vec<usize> = Vec::new();

        let mut i: usize = 0;
        while i < size
            invariant
                i <= size,
                parents@.len() == i,
                ranks@.len() == i,
                forall|x: int| #![trigger parents@[x]] 0 <= x < i ==> parents@[x] == x as usize,
                forall|x: int| #![trigger ranks@[x]] 0 <= x < i ==> ranks@[x] == 0,
            decreases size - i,
        {
            parents.push(i);
            ranks.push(0);
            i = i + 1;
        }

        let uf = UnionFind { parents, ranks };
        proof {
            assert(roots(uf.parents@) =~= set_int_range(0, size as int));
            vstd::set_lib::lemma_int_range(0, size as int);
            assert(uf.wf());
            assert forall|x: int| 0 <= x < size implies root_of(uf.parents@, x) == x by {
                lemma_root_of_root(uf.parents@, x);
            }
        }
        uf
    }

    /// Returns the number of elements of the structure (not the number
    /// of distinct sets!).
    pub fn size(&self) -> (r: usize)
        ensures
            r == self.parents@.len(),
    {
        self.parents.len()
    }

    /// Joins together the sets to which `i` and `j` belong.  Afterwards
    /// two elements share a set exactly if they already did, or one was
    /// with `i` and the other with `j`.
    #[verifier::rlimit(100)]
    pub fn union(&mut self, i: usize, j: usize)
        requires
            old(self).wf(),
        ensures
            final(self).wf(),
            final(self).parents@.len() == old(self).parents@.len(),
            (i < old(self).parents@.len() && j < old(self).parents@.len()) ==> forall|
                x: int,
                y: int,
            |
                0 <= x < old(self).parents@.len() && 0 <= y < old(self).parents@.len() ==> (
                same_set(final(self).parents@, x, y) <==> (same_set(old(self).parents@, x, y) || (
                same_set(old(self).parents@, x, i as int) && same_set(
                    old(self).parents@,
                    y,
                    j as int,
                )) || (same_set(old(self).parents@, x, j as int) && same_set(
                    old(self).parents@,
                    y,
                    i as int,
                )))),
            !(i < old(self).parents@.len() && j < old(self).parents@.len()) ==> forall|x: int|
                0 <= x < old(self).parents@.len() ==> root_of(final(self).parents@, x) == root_of(
                    old(self).parents@,
                    x,
                ),
    {
        let ghost p0 = old(self).parents@;
        let ghost n = old(self).parents@.len() as int;
        let fi = self.find(i);
        let fj = self.find(j);
        let ghost pmid = self.parents@;
        match (fi, fj) {
            (Some(pi), Some(pj)) => {
                if pi != pj {
                    proof {
                        lemma_root_of_is_root(pmid, self.rk(), i as int);
                        lemma_root_of_is_root(pmid, self.rk(), j as int);
                        lemma_roots_finite(pmid);
                        assert(roots(pmid).contains(pi as int));
                        assert(roots(pmid).remove(pi as int).len() == roots(pmid).len() - 1);
                    }
                    let ghost rk0 = self.rk();
                    let ri = self.ranks[pi];
                    let rj = self.ranks[pj];
                    if ri < rj {
                        proof {
                            lemma_link(pmid, rk0, rk0, pi as int, pj as int);
                        }
                        self.parents[pi] = pj;
                        proof {
                            assert(self.parents@ =~= pmid.update(pi as int, pj));
                            lemma_merge_classes(p0, pmid, self.parents@, rk0, rk0, i as int,
                                j as int, pi as int, pj as int);
                        }
                    } else {
                        self.parents[pj] = pi;
                        if ri == rj {
                            self.ranks[pi] = ri + 1;
                        }
                        proof {
                            let rk2 = self.rk();
                            if ri == rj {
                                assert(rk2 =~= rk0.update(pi as int, ri + 1));
                            } else {
                                assert(rk2 =~= rk0);
                            }
                            lemma_link(pmid, rk0, rk2, pj as int, pi as int);
                            assert(self.parents@ =~= pmid.update(pj as int, pi));
                            lemma_merge_classes(p0, pmid, self.parents@, rk0, rk2, i as int,
                                j as int, pj as int, pi as int);
                        }
                    }
                }
            },
            _ => {},
        }
    }

    /// Finds the representative of the set to which `i` belongs,
    /// halving the path behind it.  No set membership changes.
    pub fn find(&mut self, i: usize) -> (r: Option<usize>)
        requires
            old(self).wf(),
        ensures
            final(self).wf(),
            final(self).parents@.len() == old(self).parents@.len(),
            final(self).ranks@ == old(self).ranks@,
            forall|j: int|
                0 <= j < old(self).parents@.len() ==> root_of(final(self).parents@, j) == root_of(
                    old(self).parents@,
                    j,
                ),
            match r {
                Some(root) => i < old(self).parents@.len() && root as int == root_of(
                    old(self).parents@,
                    i as int,
                ),
                None => i >= old(self).parents@.len() && final(self).parents@ == old(
                    self,
                ).parents@,
            },
    {
        if i >= self.parents.len() {
            None
        } else {
            loop
                invariant
                    self.wf(),
                    i < self.parents@.len(),
                    self.parents@.len() == old(self).parents@.len(),
                    self.ranks@ == old(self).ranks@,
                    forall|j: int|
                        0 <= j < old(self).parents@.len() ==> root_of(self.parents@, j) == root_of(
                            old(self).parents@,
                            j,
                        ),
                decreases self.parents@.len() - self.rk()[self.parents@[i as int] as int],
            {
                let pi = self.parents[i];
                let ppi = self.parents[pi];
                if pi == ppi {
                    proof {
                        if self.parents@[i as int] == i {
                            lemma_root_of_root(self.parents@, i as int);
                        } else {
                            lemma_root_of_step(self.parents@, self.rk(), i as int);
                            lemma_root_of_root(self.parents@, pi as int);
                        }
                    }
                    return Some(pi);
                } else {
                    proof {
                        lemma_halving(self.parents@, self.rk(), i as int);
                        assert(self.rk()[pi as int] < self.rk()[ppi as int]);
                    }
                    let ghost pprev = self.parents@;
                    self.parents[i] = ppi;
                    proof {
                        assert(self.parents@ =~= pprev.update(
                            i as int,
                            pprev[pprev[i as int] as int],
                        ));
                    }
                }
            }
        }
    }
}

} // verus!
