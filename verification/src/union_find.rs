//! The common model for the disjoint-set structures: a parent forest
//! over `0 .. n`, made well-founded by a rank that strictly increases
//! along parent edges.  `union_by_rank` stores its ranks at run time;
//! `union_by_size` balances by subtree size and carries the rank as
//! ghost state.  Both path-halving `find` loops and both `union`s are
//! proved against `root_of`, the representative map of the forest.

use vstd::prelude::*;
use vstd::set_lib::set_int_range;

verus! {

/// Every parent pointer stays inside the structure.
pub open spec fn in_range(p: Seq<usize>) -> bool {
    forall|i: int| #![trigger p[i]] 0 <= i < p.len() ==> (p[i] as int) < p.len()
}

/// The rank strictly increases along parent edges, which rules out
/// cycles.
pub open spec fn rank_ok(p: Seq<usize>, rk: Seq<int>) -> bool {
    &&& rk.len() == p.len()
    &&& forall|i: int| #![trigger p[i]] 0 <= i < p.len() && p[i] != i ==> rk[i] < rk[p[i] as int]
}

/// The roots of the forest: elements that are their own parent.
pub open spec fn roots(p: Seq<usize>) -> Set<int> {
    Set::new(|i: int| 0 <= i < p.len() && p[i] == i as usize)
}

/// Ranks are non-negative and leave room for one increase per union
/// that is still possible: a rank plus the number of remaining roots
/// never exceeds the number of elements.
pub open spec fn rank_bounded(p: Seq<usize>, rk: Seq<int>) -> bool {
    forall|i: int| #![trigger rk[i]] 0 <= i < p.len() ==> 0 <= rk[i] && rk[i] + roots(p).len() <= p.len()
}

/// A well-formed ranked parent forest.
pub open spec fn forest(p: Seq<usize>, rk: Seq<int>) -> bool {
    &&& p.len() <= usize::MAX
    &&& in_range(p)
    &&& rank_ok(p, rk)
    &&& rank_bounded(p, rk)
}

/// Walk parent pointers for at most `fuel` steps.
pub open spec fn root_of_rec(p: Seq<usize>, i: int, fuel: nat) -> int
    decreases fuel,
{
    if fuel == 0 {
        i
    } else if 0 <= i < p.len() && p[i] != i {
        root_of_rec(p, p[i] as int, (fuel - 1) as nat)
    } else {
        i
    }
}

/// The representative of the set `i` belongs to.
pub open spec fn root_of(p: Seq<usize>, i: int) -> int {
    root_of_rec(p, i, p.len() as nat)
}

/// Two elements belong to the same set.
pub open spec fn same_set(p: Seq<usize>, x: int, y: int) -> bool {
    root_of(p, x) == root_of(p, y)
}

/// A representative after linking: `loser` is redirected to `winner`,
/// everything else stays.
pub open spec fn redirect(r: int, loser: int, winner: int) -> int {
    if r == loser {
        winner
    } else {
        r
    }
}

/// The root set is finite and no larger than the structure.
pub proof fn lemma_roots_finite(p: Seq<usize>)
    ensures
        roots(p).finite(),
        roots(p).len() <= p.len(),
{
    let range = set_int_range(0, p.len() as int);
    assert(roots(p).subset_of(range));
    vstd::set_lib::lemma_int_range(0, p.len() as int);
    vstd::set_lib::lemma_len_subset(roots(p), range);
}

/// With enough fuel the walk reaches a root, and any two sufficient
/// fuels agree.
pub proof fn lemma_root_of_rec_agree(p: Seq<usize>, rk: Seq<int>, i: int, f1: nat, f2: nat)
    requires
        forest(p, rk),
        0 <= i < p.len(),
        f1 + rk[i] >= p.len(),
        f2 + rk[i] >= p.len(),
    ensures
        root_of_rec(p, i, f1) == root_of_rec(p, i, f2),
        0 <= root_of_rec(p, i, f1) < p.len(),
        p[root_of_rec(p, i, f1)] == root_of_rec(p, i, f1) as usize,
    decreases f1,
{
    lemma_roots_finite(p);
    if p[i] == i as usize {
        assert(f1 > 0 ==> root_of_rec(p, i, f1) == i);
    } else {
        // the parent's rank is bounded by the structure, so at least one
        // unit of fuel is left
        assert(rk[i] < rk[p[i] as int]);
        assert(rk[p[i] as int] + roots(p).len() <= p.len());
        assert(f1 >= 1 && f2 >= 1);
        lemma_root_of_rec_agree(p, rk, p[i] as int, (f1 - 1) as nat, (f2 - 1) as nat);
    }
}

/// `root_of` lands on a root.
pub proof fn lemma_root_of_is_root(p: Seq<usize>, rk: Seq<int>, i: int)
    requires
        forest(p, rk),
        0 <= i < p.len(),
    ensures
        0 <= root_of(p, i) < p.len(),
        p[root_of(p, i)] == root_of(p, i) as usize,
{
    lemma_root_of_rec_agree(p, rk, i, p.len() as nat, p.len() as nat);
}

/// One step along a parent edge does not change the representative.
pub proof fn lemma_root_of_step(p: Seq<usize>, rk: Seq<int>, i: int)
    requires
        forest(p, rk),
        0 <= i < p.len(),
        p[i] != i,
    ensures
        root_of(p, i) == root_of(p, p[i] as int),
{
    lemma_root_of_rec_agree(p, rk, p[i] as int, (p.len() - 1) as nat, p.len() as nat);
    assert(root_of(p, i) == root_of_rec(p, p[i] as int, (p.len() - 1) as nat));
}

/// A root is its own representative.
pub proof fn lemma_root_of_root(p: Seq<usize>, i: int)
    requires
        p.len() <= usize::MAX,
        0 <= i < p.len(),
        p[i] == i as usize,
    ensures
        root_of(p, i) == i,
{
}

/// Path halving: replacing a non-root's parent by its grandparent keeps
/// the forest well formed, keeps every root a root, and changes no
/// representative.
pub proof fn lemma_halving(p: Seq<usize>, rk: Seq<int>, i: int)
    requires
        forest(p, rk),
        0 <= i < p.len(),
        p[i] != i,
    ensures
        forest(p.update(i, p[p[i] as int]), rk),
        roots(p.update(i, p[p[i] as int])) =~= roots(p),
        forall|j: int|
            0 <= j < p.len() ==> root_of(p.update(i, p[p[i] as int]), j) == root_of(p, j),
{
    let p2 = p.update(i, p[p[i] as int]);
    assert(p2[i] != i) by {
        if p[p[i] as int] == i as usize {
            assert(rk[p[i] as int] < rk[i]);
        }
    }
    assert(rank_ok(p2, rk)) by {
        assert forall|x: int| 0 <= x < p2.len() && p2[x] != x implies rk[x] < rk[p2[x] as int] by {
            if x == i {
                assert(rk[i] < rk[p[i] as int]);
            }
        }
    }
    assert(roots(p2) =~= roots(p));
    assert forall|j: int| 0 <= j < p.len() implies root_of(p2, j) == root_of(p, j) by {
        lemma_halving_root_of(p, rk, i, j);
    }
}

proof fn lemma_halving_root_of(p: Seq<usize>, rk: Seq<int>, i: int, j: int)
    requires
        forest(p, rk),
        0 <= i < p.len(),
        p[i] != i,
        0 <= j < p.len(),
        forest(p.update(i, p[p[i] as int]), rk),
    ensures
        root_of(p.update(i, p[p[i] as int]), j) == root_of(p, j),
    decreases p.len() - rk[j],
{
    let p2 = p.update(i, p[p[i] as int]);
    if p2[j] == j as usize {
        assert(p[j] == j as usize);
        lemma_root_of_root(p, j);
        lemma_root_of_root(p2, j);
    } else {
        lemma_root_of_step(p2, rk, j);
        if j == i {
            lemma_root_of_step(p, rk, i);
            if p[p[i] as int] == p[i] {
                lemma_halving_root_of(p, rk, i, p[i] as int);
            } else {
                lemma_root_of_step(p, rk, p[i] as int);
                assert(rk[p[i] as int] < rk[p[p[i] as int] as int]);
                lemma_halving_root_of(p, rk, i, p[p[i] as int] as int);
            }
        } else {
            assert(p2[j] == p[j]);
            lemma_root_of_step(p, rk, j);
            lemma_halving_root_of(p, rk, i, p[j] as int);
        }
    }
}

/// Linking one root below another merges exactly their two sets.  The
/// new rank sequence may raise the winning root's rank; everything else
/// stays.
pub proof fn lemma_link(p: Seq<usize>, rk: Seq<int>, rk2: Seq<int>, loser: int, winner: int)
    requires
        forest(p, rk),
        0 <= loser < p.len(),
        0 <= winner < p.len(),
        loser != winner,
        p[loser] == loser as usize,
        p[winner] == winner as usize,
        rk2.len() == rk.len(),
        forall|x: int| 0 <= x < rk.len() && x != winner ==> rk2[x] == rk[x],
        rk[winner] <= rk2[winner],
        rk[loser] < rk2[winner],
        rk2[winner] + roots(p).len() - 1 <= p.len(),
    ensures
        forest(p.update(loser, winner as usize), rk2),
        roots(p.update(loser, winner as usize)) =~= roots(p).remove(loser),
        forall|j: int|
            0 <= j < p.len() ==> root_of(p.update(loser, winner as usize), j) == redirect(
                root_of(p, j),
                loser,
                winner,
            ),
{
    let p2 = p.update(loser, winner as usize);
    assert(roots(p2) =~= roots(p).remove(loser));
    lemma_roots_finite(p);
    assert(roots(p).contains(loser));
    assert(roots(p).remove(loser).len() == roots(p).len() - 1);
    assert(rank_ok(p2, rk2)) by {
        assert forall|x: int| 0 <= x < p2.len() && p2[x] != x implies rk2[x] < rk2[p2[x] as int] by {
            if x == loser {
            } else {
                assert(rk[x] < rk[p[x] as int]);
                assert(rk2[p[x] as int] >= rk[p[x] as int]);
            }
        }
    }
    assert(rank_bounded(p2, rk2)) by {
        assert forall|x: int| 0 <= x < p2.len() implies 0 <= rk2[x] && rk2[x] + roots(p2).len()
            <= p2.len() by {
            assert(rk[x] + roots(p).len() <= p.len());
        }
    }
    assert forall|j: int| 0 <= j < p.len() implies root_of(p2, j) == redirect(
        root_of(p, j),
        loser,
        winner,
    ) by {
        lemma_link_root_of(p, rk, rk2, loser, winner, j);
    }
}

proof fn lemma_link_root_of(p: Seq<usize>, rk: Seq<int>, rk2: Seq<int>, loser: int, winner: int, j: int)
    requires
        forest(p, rk),
        0 <= loser < p.len(),
        0 <= winner < p.len(),
        loser != winner,
        p[loser] == loser as usize,
        p[winner] == winner as usize,
        rk2.len() == rk.len(),
        forall|x: int| 0 <= x < rk.len() && x != winner ==> rk2[x] == rk[x],
        rk[winner] <= rk2[winner],
        rk[loser] < rk2[winner],
        forest(p.update(loser, winner as usize), rk2),
        0 <= j < p.len(),
    ensures
        root_of(p.update(loser, winner as usize), j) == redirect(root_of(p, j), loser, winner),
    decreases p.len() + 1 - rk2[j],
{
    let p2 = p.update(loser, winner as usize);
    if p2[j] == j as usize {
        assert(j != loser);
        assert(p[j] == j as usize);
        lemma_root_of_root(p, j);
        lemma_root_of_root(p2, j);
    } else {
        lemma_root_of_step(p2, rk2, j);
        assert(rk2[j] < rk2[p2[j] as int]);
        lemma_link_root_of(p, rk, rk2, loser, winner, p2[j] as int);
        if j == loser {
            assert(p2[j] == winner as usize);
            lemma_root_of_root(p, loser);
            lemma_root_of_root(p, winner);
        } else {
            assert(p2[j] == p[j]);
            lemma_root_of_step(p, rk, j);
        }
    }
}

/// After linking `loser` under `winner`, exactly the classes of `i`
/// and `j` are merged, in terms of the starting parent array `p0`.
pub proof fn lemma_merge_classes(
    p0: Seq<usize>,
    pmid: Seq<usize>,
    p2: Seq<usize>,
    rk0: Seq<int>,
    rk2: Seq<int>,
    i: int,
    j: int,
    loser: int,
    winner: int,
)
    requires
        forest(pmid, rk0),
        p0.len() == pmid.len(),
        p2 == pmid.update(loser, winner as usize),
        0 <= loser < pmid.len(),
        0 <= winner < pmid.len(),
        loser != winner,
        0 <= i < pmid.len(),
        0 <= j < pmid.len(),
        (root_of(pmid, i) == loser && root_of(pmid, j) == winner) || (root_of(pmid, i)
            == winner && root_of(pmid, j) == loser),
        forall|x: int| 0 <= x < pmid.len() ==> root_of(pmid, x) == root_of(p0, x),
        forall|x: int|
            0 <= x < pmid.len() ==> root_of(p2, x) == redirect(
                root_of(pmid, x),
                loser,
                winner,
            ),
    ensures
        forall|x: int, y: int|
            0 <= x < p0.len() && 0 <= y < p0.len() ==> (same_set(p2, x, y) <==> (same_set(
                p0,
                x,
                y,
            ) || (same_set(p0, x, i) && same_set(p0, y, j)) || (same_set(p0, x, j) && same_set(
                p0,
                y,
                i,
            )))),
{
    assert forall|x: int, y: int| 0 <= x < p0.len() && 0 <= y < p0.len() implies (same_set(
        p2,
        x,
        y,
    ) <==> (same_set(p0, x, y) || (same_set(p0, x, i) && same_set(p0, y, j)) || (same_set(
        p0,
        x,
        j,
    ) && same_set(p0, y, i)))) by {
        assert(root_of(p2, x) == redirect(root_of(pmid, x), loser, winner));
        assert(root_of(p2, y) == redirect(root_of(pmid, y), loser, winner));
    }
}

} // verus!
