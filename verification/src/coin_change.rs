//! Greedy algorithms and dynamic programming for the change-making
//! problem.

use vstd::prelude::*;
use std::collections::HashSet;

verus! {

broadcast use vstd::std_specs::hash::group_hash_axioms;

/// The sum of a sequence of coin values.
pub open spec fn sum(s: Seq<u32>) -> int
    decreases s.len(),
{
    if s.len() == 0 {
        0
    } else {
        s.first() + sum(s.drop_first())
    }
}

/// The coins picked by the greedy strategy that repeatedly takes the
/// rearmost coin if it still fits into the remaining amount.  Coins are
/// used at most once each.
pub open spec fn greedy_picks(coins: Seq<u32>, amount: u32) -> Seq<u32>
    decreases coins.len(),
{
    if coins.len() == 0 {
        Seq::empty()
    } else if coins.last() <= amount {
        seq![coins.last()] + greedy_picks(coins.drop_last(), (amount - coins.last()) as u32)
    } else {
        greedy_picks(coins.drop_last(), amount)
    }
}

/// The amount left over by that greedy strategy.
pub open spec fn greedy_rem(coins: Seq<u32>, amount: u32) -> u32
    decreases coins.len(),
{
    if coins.len() == 0 {
        amount
    } else if coins.last() <= amount {
        greedy_rem(coins.drop_last(), (amount - coins.last()) as u32)
    } else {
        greedy_rem(coins.drop_last(), amount)
    }
}

/// `k` copies of the coin `c`.
pub open spec fn repeat_coin(c: u32, k: nat) -> Seq<u32> {
    Seq::new(k, |i: int| c)
}

/// The coins picked by the greedy strategy that walks the coins from
/// the front and takes each as often as it still fits.
pub open spec fn greedy2_picks(coins: Seq<u32>, amount: u32) -> Seq<u32>
    decreases coins.len(),
{
    if coins.len() == 0 {
        Seq::empty()
    } else if coins.first() >= 1 {
        repeat_coin(coins.first(), (amount as int / coins.first() as int) as nat)
            + greedy2_picks(coins.drop_first(), (amount as int % coins.first() as int) as u32)
    } else {
        greedy2_picks(coins.drop_first(), amount)
    }
}

/// The amount left over by that strategy.
pub open spec fn greedy2_rem(coins: Seq<u32>, amount: u32) -> u32
    decreases coins.len(),
{
    if coins.len() == 0 {
        amount
    } else if coins.first() >= 1 {
        greedy2_rem(coins.drop_first(), (amount as int % coins.first() as int) as u32)
    } else {
        greedy2_rem(coins.drop_first(), amount)
    }
}

/// Concatenation adds sums.
proof fn lemma_sum_concat(a: Seq<u32>, b: Seq<u32>)
    ensures
        sum(a + b) == sum(a) + sum(b),
    decreases a.len(),
{
    if a.len() == 0 {
        assert(a + b =~= b);
    } else {
        assert((a + b).first() == a.first());
        assert((a + b).drop_first() =~= a.drop_first() + b);
        lemma_sum_concat(a.drop_first(), b);
    }
}

/// The sum of `k` copies of `c` is `k * c`.
proof fn lemma_sum_repeat(c: u32, k: nat)
    ensures
        sum(repeat_coin(c, k)) == k * c,
    decreases k,
{
    if k == 0 {
        assert(repeat_coin(c, 0) =~= Seq::<u32>::empty());
    } else {
        assert(repeat_coin(c, k).first() == c);
        assert(repeat_coin(c, k).drop_first() =~= repeat_coin(c, (k - 1) as nat));
        lemma_sum_repeat(c, (k - 1) as nat);
        assert((k - 1) * c + c == k * c) by (nonlinear_arith);
    }
}

/// The greedy picks and the leftover always account for the full amount.
pub proof fn lemma_greedy_change_sum(coins: Seq<u32>, amount: u32)
    ensures
        sum(greedy_picks(coins, amount)) + greedy_rem(coins, amount) == amount,
    decreases coins.len(),
{
    if coins.len() > 0 {
        let c = coins.last();
        if c <= amount {
            lemma_greedy_change_sum(coins.drop_last(), (amount - c) as u32);
            lemma_sum_concat(seq![c], greedy_picks(coins.drop_last(), (amount - c) as u32));
            assert(sum(seq![c]) == c) by {
                assert(seq![c].drop_first() =~= Seq::<u32>::empty());
                assert(sum(Seq::<u32>::empty()) == 0);
            }
            assert(greedy_picks(coins, amount) == seq![c] + greedy_picks(
                coins.drop_last(),
                (amount - c) as u32,
            ));
        } else {
            lemma_greedy_change_sum(coins.drop_last(), amount);
        }
    }
}

/// The repeated-coin greedy picks and the leftover account for the full
/// amount, whenever every coin is positive.
pub proof fn lemma_greedy2_change_sum(coins: Seq<u32>, amount: u32)
    requires
        forall|i: int| 0 <= i < coins.len() ==> coins[i] >= 1,
    ensures
        sum(greedy2_picks(coins, amount)) + greedy2_rem(coins, amount) == amount,
    decreases coins.len(),
{
    if coins.len() > 0 {
        let c = coins.first();
        assert(c >= 1);
        let k = (amount as int / c as int) as nat;
        let rem = (amount as int % c as int) as u32;
        vstd::arithmetic::div_mod::lemma_fundamental_div_mod(amount as int, c as int);
        vstd::arithmetic::div_mod::lemma_mod_bound(amount as int, c as int);
        vstd::arithmetic::div_mod::lemma_div_pos_is_pos(amount as int, c as int);
        lemma_sum_repeat(c, k);
        lemma_sum_concat(repeat_coin(c, k), greedy2_picks(coins.drop_first(), rem));
        assert(forall|i: int|
            0 <= i < coins.drop_first().len() ==> #[trigger] coins.drop_first()[i] >= 1);
        lemma_greedy2_change_sum(coins.drop_first(), rem);
        assert(k * c == c * k) by (nonlinear_arith);
    }
}

/// Select coins, each usable once, summing to `amount`, greedily from
/// the rear of the vector (so with coins sorted ascending, the largest
/// first).  Returns the selection in the order taken, or `None` when
/// the greedy strategy does not end at zero.
pub fn make_change(coins: Vec<u32>, amount: u32) -> (r: Option<Vec<u32>>)
    ensures
        match r {
            Some(v) => {
                &&& greedy_rem(coins@, amount) == 0
                &&& v@ == greedy_picks(coins@, amount)
                &&& sum(v@) == amount
            },
            None => greedy_rem(coins@, amount) != 0,
        },
{
    let ghost c0 = coins@;
    let mut coins = coins;
    let mut amt = amount;
    let mut v: Vec<u32> = Vec::new();
    proof {
        assert(v@ + greedy_picks(coins@, amt) =~= greedy_picks(c0, amount));
    }

    while coins.len() > 0
        invariant
            greedy_picks(c0, amount) == v@ + greedy_picks(coins@, amt),
            greedy_rem(c0, amount) == greedy_rem(coins@, amt),
        decreases coins@.len(),
    {
        let ghost cprev = coins@;
        let ghost amt0 = amt;
        let ghost vprev = v@;
        let c = coins.pop().unwrap();
        proof {
            assert(coins@ =~= cprev.drop_last());
            assert(cprev.last() == c);
        }
        if c <= amt {
            v.push(c);
            amt = amt - c;
            proof {
                assert(greedy_picks(cprev, amt0) == seq![c] + greedy_picks(coins@, amt));
                assert(v@ =~= vprev + seq![c]);
                assert((vprev + seq![c]) + greedy_picks(coins@, amt) =~= vprev + (seq![c]
                    + greedy_picks(coins@, amt)));
            }
        }
    }

    proof {
        assert(greedy_picks(coins@, amt) =~= Seq::<u32>::empty());
        assert(v@ + Seq::<u32>::empty() =~= v@);
        lemma_greedy_change_sum(c0, amount);
    }
    if amt == 0 {
        Some(v)
    } else {
        None
    }
}

/// Like `make_change`, but each coin may be used any number of times:
/// the coins are walked from the front and each is taken as often as it
/// still fits.  Every coin must be positive, or the repeated
/// subtraction would not terminate.
pub fn make_change2(coins: Vec<u32>, amount: u32) -> (r: Option<Vec<u32>>)
    requires
        forall|i: int| 0 <= i < coins@.len() ==> coins@[i] >= 1,
    ensures
        match r {
            Some(v) => {
                &&& greedy2_rem(coins@, amount) == 0
                &&& v@ == greedy2_picks(coins@, amount)
                &&& sum(v@) == amount
            },
            None => greedy2_rem(coins@, amount) != 0,
        },
{
    let mut v: Vec<u32> = Vec::new();
    let mut amt = amount;
    let n = coins.len();
    let mut i: usize = 0;
    proof {
        assert(coins@.skip(0) =~= coins@);
        assert(v@ + greedy2_picks(coins@, amt) =~= greedy2_picks(coins@, amount));
    }
    while i < n
        invariant
            n == coins@.len(),
            i <= n,
            forall|ii: int| 0 <= ii < coins@.len() ==> coins@[ii] >= 1,
            greedy2_picks(coins@, amount) == v@ + greedy2_picks(coins@.skip(i as int), amt),
            greedy2_rem(coins@, amount) == greedy2_rem(coins@.skip(i as int), amt),
        decreases n - i,
    {
        let c = coins[i];
        let ghost am0 = amt;
        let ghost vin = v@;
        let ghost mut j: int = 0;
        proof {
            assert(repeat_coin(c, 0) =~= Seq::<u32>::empty());
            assert(vin + repeat_coin(c, 0) =~= vin);
        }
        while c <= amt
            invariant
                c == coins@[i as int],
                c >= 1,
                0 <= j,
                v@ == vin + repeat_coin(c, j as nat),
                am0 == j * c + amt,
            decreases amt,
        {
            v.push(c);
            amt = amt - c;
            proof {
                j = j + 1;
                assert((j - 1) * c + c == j * c) by (nonlinear_arith);
                assert(repeat_coin(c, j as nat) =~= repeat_coin(c, (j - 1) as nat).push(c));
                assert(v@ =~= vin + repeat_coin(c, j as nat));
            }
        }
        proof {
            vstd::arithmetic::div_mod::lemma_fundamental_div_mod_converse(
                am0 as int,
                c as int,
                j,
                amt as int,
            );
            let tailseq = coins@.skip(i as int);
            assert(tailseq.first() == c);
            assert(tailseq.drop_first() =~= coins@.skip(i as int + 1));
            assert(greedy2_picks(tailseq, am0) == repeat_coin(c, j as nat) + greedy2_picks(
                coins@.skip(i as int + 1),
                amt,
            ));
            assert((vin + repeat_coin(c, j as nat)) + greedy2_picks(
                coins@.skip(i as int + 1),
                amt,
            ) =~= vin + (repeat_coin(c, j as nat) + greedy2_picks(coins@.skip(i as int + 1), amt)));
        }
        i = i + 1;
    }
    proof {
        assert(coins@.skip(n as int) =~= Seq::<u32>::empty());
        assert(greedy2_picks(coins@.skip(n as int), amt) =~= Seq::<u32>::empty());
        assert(v@ + Seq::<u32>::empty() =~= v@);
        lemma_greedy2_change_sum(coins@, amount);
    }
    if amt == 0 {
        Some(v)
    } else {
        None
    }
}

/// The amount can be paid with exactly `k` coins from the set, each
/// usable any number of times (only positive coins count).
pub open spec fn can_make(coins: Set<usize>, amount: int, k: nat) -> bool
    decreases k,
{
    if k == 0 {
        amount == 0
    } else {
        exists|c: usize|
            coins.contains(c) && 1 <= c <= amount && can_make(coins, amount - c, (k - 1) as nat)
    }
}

/// Paying an amount takes at least one coin per unit.
pub proof fn lemma_can_make_bound(coins: Set<usize>, amount: int, k: nat)
    requires
        can_make(coins, amount, k),
    ensures
        k <= amount,
    decreases k,
{
    if k > 0 {
        let c = choose|c: usize|
            coins.contains(c) && 1 <= c <= amount && can_make(coins, amount - c, (k - 1) as nat);
        lemma_can_make_bound(coins, amount - c, (k - 1) as nat);
    }
}

/// An entry of the dynamic program is correct for the amount `a`: it is
/// the least number of coins that pays `a` exactly, or `None` when no
/// number of coins does.
pub open spec fn dp_ok(coins: Set<usize>, a: int, e: Option<usize>) -> bool {
    match e {
        Some(v) => can_make(coins, a, v as nat) && forall|w: nat|
            w < v ==> !can_make(coins, a, w),
        None => forall|w: nat| !can_make(coins, a, w),
    }
}

/// Computes the least number of coins from the given set that sum up to
/// the given amount, by dynamic programming over all smaller amounts.
#[verifier::rlimit(100)]
pub fn make_change_count(coins: &HashSet<usize>, amount: usize) -> (r: Option<usize>)
    requires
        amount <= usize::MAX - 2,
    ensures
        dp_ok(coins@, amount as int, r),
{
    let mut dp: Vec<Option<usize>> = Vec::new();
    dp.push(Some(0));
    proof {
        assert(dp_ok(coins@, 0, dp@[0]));
    }

    let mut i: usize = 1;
    while i < amount + 2
        invariant
            amount <= usize::MAX - 2,
            1 <= i <= amount + 2,
            dp@.len() == i,
            forall|a: int| 0 <= a < i ==> dp_ok(coins@, a, #[trigger] dp@[a]),
        decreases amount + 2 - i,
    {
        if coins.contains(&i) {
            dp.push(Some(1));
            proof {
                assert(can_make(coins@, (i - i) as int, 0));
                assert(can_make(coins@, i as int, 1));
                assert forall|w: nat| w < 1 implies !can_make(coins@, i as int, w) by {}
                assert(dp_ok(coins@, i as int, dp@[i as int]));
            }
        } else {
            dp.push(None);
            let mut j: usize = 0;
            while j < i
                invariant
                    amount <= usize::MAX - 2,
                    1 <= i <= amount + 1,
                    j <= i,
                    dp@.len() == i + 1,
                    forall|a: int| 0 <= a < i ==> dp_ok(coins@, a, #[trigger] dp@[a]),
                    !coins@.contains(i),
                    match dp@[i as int] {
                        Some(v) => can_make(coins@, i as int, v as nat),
                        None => true,
                    },
                    forall|w1: nat, rem: int, c: usize|
                        #![trigger can_make(coins@, rem, w1), coins@.contains(c)]
                        coins@.contains(c) && 1 <= c <= i && rem == i - c && rem < j && can_make(
                            coins@,
                            rem,
                            w1,
                        ) ==> dp@[i as int] is Some && dp@[i as int]->0 <= w1 + 1,
                decreases i - j,
            {
                let e = dp[j];
                let ghost dpprev = dp@;
                match e {
                    Some(vj) => {
                        if coins.contains(&(i - j)) {
                            proof {
                                lemma_can_make_bound(coins@, j as int, vj as nat);
                            }
                            let cand = vj + 1;
                            let cur = dp[i];
                            let better = match cur {
                                Some(vi) => cand < vi,
                                None => true,
                            };
                            if better {
                                dp[i] = Some(cand);
                            }
                            proof {
                                assert(can_make(coins@, i as int, cand as nat)) by {
                                    let c = (i - j) as usize;
                                    assert(coins@.contains(c) && 1 <= c <= i as int && can_make(
                                        coins@,
                                        i - c,
                                        vj as nat,
                                    ));
                                }
                            }
                        }
                    },
                    None => {},
                }
                proof {
                    assert forall|w1: nat, rem: int, c: usize|
                        coins@.contains(c) && 1 <= c <= i && rem == i - c && rem < j + 1
                            && #[trigger] can_make(coins@, rem, w1) && #[trigger] coins@.contains(
                            c,
                        ) implies dp@[i as int] is Some && dp@[i as int]->0 <= w1 + 1 by {
                        if rem < j {
                            assert(dpprev[i as int] is Some && dpprev[i as int]->0 <= w1 + 1);
                            assert(dp@[i as int] is Some);
                            assert(dp@[i as int]->0 <= dpprev[i as int]->0);
                        } else {
                            assert(rem == j);
                            assert(dp_ok(coins@, j as int, dpprev[j as int]));
                            assert(dpprev[j as int] is Some) by {
                                if dpprev[j as int] is None {
                                    assert(!can_make(coins@, j as int, w1));
                                }
                            }
                            let vj = dpprev[j as int]->0;
                            assert(vj <= w1) by {
                                if w1 < vj {
                                    assert(!can_make(coins@, j as int, w1));
                                }
                            }
                            assert(dp@[i as int] is Some && dp@[i as int]->0 <= vj + 1);
                        }
                    }
                }
                j = j + 1;
            }
            proof {
                assert(dp_ok(coins@, i as int, dp@[i as int])) by {
                    match dp@[i as int] {
                        Some(v) => {
                            assert forall|w: nat| w < v implies !can_make(coins@, i as int, w) by {
                                if can_make(coins@, i as int, w) {
                                    assert(w != 0);
                                    let c = choose|c: usize|
                                        coins@.contains(c) && 1 <= c <= i as int && can_make(
                                            coins@,
                                            i - c,
                                            (w - 1) as nat,
                                        );
                                    assert(dp@[i as int]->0 <= (w - 1) + 1);
                                }
                            }
                        },
                        None => {
                            assert forall|w: nat| true implies !can_make(coins@, i as int, w) by {
                                if can_make(coins@, i as int, w) {
                                    assert(w != 0);
                                    let c = choose|c: usize|
                                        coins@.contains(c) && 1 <= c <= i as int && can_make(
                                            coins@,
                                            i - c,
                                            (w - 1) as nat,
                                        );
                                    assert(dp@[i as int] is Some);
                                }
                            }
                        },
                    }
                }
            }
        }
        i = i + 1;
    }

    dp[amount]
}

} // verus!
