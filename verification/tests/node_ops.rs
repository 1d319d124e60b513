use ordered_tree::DuplicatePolicy;
use ordered_tree::Node;

#[test]
fn node_level_operations() {
    let mut node = Node::Empty;
    for k in [10, 4, 12, 4] {
        node = node.insert(k, DuplicatePolicy::RightBias);
    }
    assert_eq!(node.traverse(), vec![4, 4, 10, 12]);
    assert!(node.search(12, DuplicatePolicy::RightBias));
    assert!(!node.search(5, DuplicatePolicy::RightBias));
}

#[test]
fn empty_node_has_no_keys() {
    let node = Node::Empty;
    assert_eq!(node.traverse(), Vec::<u64>::new());
    assert!(!node.search(0, DuplicatePolicy::Reject));
}

#[test]
fn node_reject_discards_duplicates() {
    let mut node = Node::Empty;
    for k in [3, 1, 3, 2, 1] {
        node = node.insert(k, DuplicatePolicy::Reject);
    }
    assert_eq!(node.traverse(), vec![1, 2, 3]);
}
