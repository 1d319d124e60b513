use ordered_tree::DuplicatePolicy;
use ordered_tree::Tree;

fn build(keys: &[u64], policy: DuplicatePolicy) -> Tree {
    let mut tree = Tree::construct(keys[0], policy);
    for &k in &keys[1..] {
        tree.insert(k);
    }
    tree
}

fn is_non_decreasing(keys: &[u64]) -> bool {
    keys.windows(2).all(|w| w[0] <= w[1])
}

#[test]
fn scenario_reject_duplicates() {
    let keys = [20, 1, 4, 21, 6, 21, 23, 24, 3, 13, 5, 17, 4, 9, 32, 5];
    let tree = build(&keys, DuplicatePolicy::Reject);
    assert!(tree.search(23));
    assert!(!tree.search(100));
    let walk = tree.traverse();
    assert_eq!(walk, vec![1, 3, 4, 5, 6, 9, 13, 17, 20, 21, 23, 24, 32]);
    assert!(walk.windows(2).all(|w| w[0] < w[1]));
}

#[test]
fn scenario_left_bias_no_duplicates() {
    let tree = build(&[20, 23, 13, 7, 16], DuplicatePolicy::LeftBias);
    assert_eq!(tree.traverse(), vec![7, 13, 16, 20, 23]);
}

#[test]
fn scenario_single_duplicate() {
    let mut right = Tree::construct(5, DuplicatePolicy::RightBias);
    right.insert(5);
    assert_eq!(right.traverse(), vec![5, 5]);

    let mut reject = Tree::construct(5, DuplicatePolicy::Reject);
    reject.insert(5);
    assert_eq!(reject.traverse(), vec![5]);
}

#[test]
fn traversal_sorted_under_each_policy() {
    let keys = [8, 3, 10, 1, 6, 14, 4, 7, 13, 3, 8, 14, 0, 8];
    for policy in [
        DuplicatePolicy::Reject,
        DuplicatePolicy::LeftBias,
        DuplicatePolicy::RightBias,
    ] {
        let walk = build(&keys, policy).traverse();
        assert!(is_non_decreasing(&walk));
    }
}

#[test]
fn membership_follows_insertions() {
    let keys = [12, 5, 30, 5, 19, 2];
    for policy in [
        DuplicatePolicy::Reject,
        DuplicatePolicy::LeftBias,
        DuplicatePolicy::RightBias,
    ] {
        let tree = build(&keys, policy);
        for &k in &keys {
            assert!(tree.search(k));
        }
        for missing in [0, 1, 3, 11, 13, 31, u64::MAX] {
            assert!(!tree.search(missing));
        }
    }
}

#[test]
fn reject_insert_twice_equals_once() {
    let mut once = Tree::construct(9, DuplicatePolicy::Reject);
    once.insert(4);
    let mut twice = Tree::construct(9, DuplicatePolicy::Reject);
    twice.insert(4);
    twice.insert(4);
    assert_eq!(once.traverse(), twice.traverse());
}

#[test]
fn traversal_length_counts_kept_insertions() {
    let keys = [7, 7, 7, 2, 2, 11];
    let reject = build(&keys, DuplicatePolicy::Reject);
    assert_eq!(reject.traverse().len(), 3);
    let left = build(&keys, DuplicatePolicy::LeftBias);
    assert_eq!(left.traverse().len(), keys.len());
    let right = build(&keys, DuplicatePolicy::RightBias);
    assert_eq!(right.traverse().len(), keys.len());
}

#[test]
fn repeated_equal_keys_line_up() {
    let mut tree = Tree::construct(6, DuplicatePolicy::LeftBias);
    tree.insert(6);
    tree.insert(6);
    assert_eq!(tree.traverse(), vec![6, 6, 6]);
}

#[test]
fn ascending_and_descending_insertions() {
    let ascending = build(&[1, 2, 3, 4, 5], DuplicatePolicy::Reject);
    assert_eq!(ascending.traverse(), vec![1, 2, 3, 4, 5]);
    let descending = build(&[5, 4, 3, 2, 1], DuplicatePolicy::Reject);
    assert_eq!(descending.traverse(), vec![1, 2, 3, 4, 5]);
}

#[test]
fn extreme_keys() {
    let tree = build(&[0, u64::MAX, 1], DuplicatePolicy::Reject);
    assert_eq!(tree.traverse(), vec![0, 1, u64::MAX]);
    assert!(tree.search(u64::MAX));
    assert!(tree.search(0));
}

#[test]
fn single_key_tree() {
    let tree = Tree::construct(42, DuplicatePolicy::LeftBias);
    assert_eq!(tree.traverse(), vec![42]);
    assert!(tree.search(42));
    assert!(!tree.search(41));
}

#[test]
fn policy_is_fixed_at_construction() {
    let tree = Tree::construct(1, DuplicatePolicy::RightBias);
    assert_eq!(tree.duplicate_policy(), DuplicatePolicy::RightBias);
}
