use aisd::coin_change::{make_change, make_change2, make_change_count};
use std::collections::HashSet;

#[test]
fn change_canonical_system() {
    let coins = vec![1, 1, 2, 2, 2, 5, 5, 10, 10, 10];
    assert_eq!(make_change(coins.clone(), 27), Some(vec![10, 10, 5, 2]));
    assert_eq!(make_change(coins, 49), None);
}

#[test]
fn change_coins_are_unique() {
    let coins = vec![10];
    assert_eq!(make_change(coins, 20), None);
}

#[test]
fn change_non_canonical_is_suboptimal() {
    let coins = vec![3, 5, 9, 9, 10];
    // the optimal solution would be [9, 9]
    assert_eq!(make_change(coins, 18), Some(vec![10, 5, 3]));
}

#[test]
fn change_zero_amount() {
    assert_eq!(make_change(vec![2, 3], 0), Some(vec![]));
    assert_eq!(make_change(vec![], 0), Some(vec![]));
    assert_eq!(make_change(vec![], 1), None);
}

#[test]
fn change2_reuses_coins() {
    let coins = vec![10];
    assert_eq!(make_change2(coins, 20), Some(vec![10, 10]));
}

#[test]
fn change2_walks_from_the_front() {
    assert_eq!(make_change2(vec![3, 5], 9), Some(vec![3, 3, 3]));
    assert_eq!(make_change2(vec![4, 7], 6), None);
    // the front coin eats the amount down to a remainder the rest cannot pay
    assert_eq!(make_change2(vec![2, 5], 11), None);
    assert_eq!(make_change2(vec![2, 5], 14), Some(vec![2, 2, 2, 2, 2, 2, 2]));
}

#[test]
fn count_minimal_coins() {
    let mut coins = HashSet::new();
    coins.insert(2);
    coins.insert(5);
    assert_eq!(make_change_count(&coins, 7), Some(2));
    assert_eq!(make_change_count(&coins, 3), None);
}

#[test]
fn count_zero_amount() {
    let mut coins = HashSet::new();
    coins.insert(3);
    assert_eq!(make_change_count(&coins, 0), Some(0));
    let empty: HashSet<usize> = HashSet::new();
    assert_eq!(make_change_count(&empty, 0), Some(0));
    assert_eq!(make_change_count(&empty, 4), None);
}

#[test]
fn count_prefers_fewer_coins() {
    let mut coins = HashSet::new();
    coins.insert(1);
    coins.insert(3);
    coins.insert(4);
    // 6 = 3 + 3 beats 4 + 1 + 1
    assert_eq!(make_change_count(&coins, 6), Some(2));
    assert_eq!(make_change_count(&coins, 1), Some(1));
    assert_eq!(make_change_count(&coins, 2), Some(2));
}
