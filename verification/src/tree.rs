//! The tree itself: a recursive node structure and the operations that
//! keep it ordered under a fixed duplicate policy.

use vstd::prelude::*;
use crate::order::DuplicatePolicy;
use crate::order::routes_left;
use crate::order::routes_right;
use crate::order::sorted;
use crate::order::policy_insert;
use crate::order::lemma_concat_contains;
use crate::order::lemma_singleton_contains;
use crate::order::lemma_sorted_insert_left;
use crate::order::lemma_sorted_insert_right;
use crate::order::lemma_insert_membership;

verus! {

/// A subtree: either empty, or a branch holding one key and two owned
/// child subtrees.
pub enum Node {
    /// The absence of elements; the base case of the structure.
    Empty,
    /// One key with its left and right subtrees.
    Branch { key: u64, left: Box<Node>, right: Box<Node> },
}

impl Node {
    /// The keys of the subtree in order: left subtree, own key, right
    /// subtree.
    pub open spec fn as_seq(self) -> Seq<u64>
        decreases self,
    {
        match self {
            Node::Empty => Seq::empty(),
            Node::Branch { key, left, right } => left.as_seq() + seq![key] + right.as_seq(),
        }
    }

    /// The ordering invariant under policy `p`: every key of the left
    /// subtree routes left of the branch key, every key of the right
    /// subtree routes right, recursively.
    pub open spec fn well_formed(self, p: DuplicatePolicy) -> bool
        decreases self,
    {
        match self {
            Node::Empty => true,
            Node::Branch { key, left, right } => {
                &&& forall|x: u64| left.as_seq().contains(x) ==> routes_left(p, x, key)
                &&& forall|x: u64| right.as_seq().contains(x) ==> routes_right(p, x, key)
                &&& left.well_formed(p)
                &&& right.well_formed(p)
            },
        }
    }

    /// The subtree after inserting `value` under policy `p`: the single
    /// reachable `Empty` that the value routes to becomes a new branch,
    /// unless `p` is `Reject` and the value is already present.
    pub fn insert(self, value: u64, p: DuplicatePolicy) -> (res: Node)
        requires
            self.well_formed(p),
        ensures
            res.well_formed(p),
            res.as_seq() == policy_insert(self.as_seq(), value, p),
        decreases self,
    {
        match self {
            Node::Empty => {
                let res = Node::Branch {
                    key: value,
                    left: Box::new(Node::Empty),
                    right: Box::new(Node::Empty),
                };
                proof {
                    assert(res.as_seq() =~= seq![value]);
                    assert(res.as_seq() =~= policy_insert(Seq::empty(), value, p));
                    assert forall|x: u64| res.as_seq().contains(x) implies x == value by {
                        lemma_singleton_contains(value, x);
                    }
                }
                res
            },
            Node::Branch { key, left, right } => {
                let ghost l = left.as_seq();
                let ghost r = right.as_seq();
                let ghost s = l + seq![key] + r;
                proof {
                    lemma_concat_contains(l + seq![key], r, value);
                    lemma_concat_contains(l, seq![key], value);
                    lemma_singleton_contains(key, value);
                }
                let go_left: bool = if value < key {
                    true
                } else if value > key {
                    false
                } else {
                    match p {
                        DuplicatePolicy::Reject => {
                            return Node::Branch { key, left, right };
                        },
                        DuplicatePolicy::LeftBias => true,
                        DuplicatePolicy::RightBias => false,
                    }
                };
                if go_left {
                    let grown = (*left).insert(value, p);
                    let res = Node::Branch { key, left: Box::new(grown), right };
                    proof {
                        assert(routes_left(p, value, key));
                        if p == DuplicatePolicy::Reject && l.contains(value) {
                            assert(s.contains(value));
                            assert(res.as_seq() =~= s);
                        } else {
                            lemma_sorted_insert_left(l, key, r, value, p);
                            if p == DuplicatePolicy::Reject {
                                assert(!r.contains(value));
                                assert(!s.contains(value));
                            }
                        }
                        assert forall|x: u64| grown.as_seq().contains(x) implies
                            routes_left(p, x, key) by {
                            lemma_insert_membership(l, value, p, x);
                        }
                    }
                    res
                } else {
                    let grown = (*right).insert(value, p);
                    let res = Node::Branch { key, left, right: Box::new(grown) };
                    proof {
                        assert(routes_right(p, value, key));
                        if p == DuplicatePolicy::Reject && r.contains(value) {
                            assert(s.contains(value));
                            assert(res.as_seq() =~= s);
                        } else {
                            lemma_sorted_insert_right(l, key, r, value, p);
                            if p == DuplicatePolicy::Reject {
                                assert(!l.contains(value));
                                assert(!s.contains(value));
                            }
                        }
                        assert forall|x: u64| grown.as_seq().contains(x) implies
                            routes_right(p, x, key) by {
                            lemma_insert_membership(r, value, p, x);
                        }
                    }
                    res
                }
            },
        }
    }

    /// Whether `key` is among the keys of the subtree, found by ordered
    /// descent along a single path.
    pub fn search(&self, key: u64, p: DuplicatePolicy) -> (found: bool)
        requires
            self.well_formed(p),
        ensures
            found == self.as_seq().contains(key),
        decreases *self,
    {
        match self {
            Node::Empty => false,
            Node::Branch { key: k, left, right } => {
                proof {
                    lemma_concat_contains(left.as_seq() + seq![*k], right.as_seq(), key);
                    lemma_concat_contains(left.as_seq(), seq![*k], key);
                    lemma_singleton_contains(*k, key);
                }
                if key == *k {
                    true
                } else if key < *k {
                    left.search(key, p)
                } else {
                    right.search(key, p)
                }
            },
        }
    }

    /// The keys of the subtree in order, fully materialized.
    pub fn traverse(&self) -> (keys: Vec<u64>)
        ensures
            keys@ == self.as_seq(),
        decreases *self,
    {
        match self {
            Node::Empty => Vec::new(),
            Node::Branch { key, left, right } => {
                let mut keys = left.traverse();
                keys.push(*key);
                let mut rest = right.traverse();
                keys.append(&mut rest);
                proof {
                    assert(keys@ =~= self.as_seq());
                }
                keys
            },
        }
    }
}

/// A well-formed subtree enumerates its keys in non-decreasing order.
pub proof fn lemma_node_sorted(n: Node, p: DuplicatePolicy)
    requires
        n.well_formed(p),
    ensures
        sorted(n.as_seq()),
    decreases n,
{
    match n {
        Node::Empty => {},
        Node::Branch { key, left, right } => {
            lemma_node_sorted(*left, p);
            lemma_node_sorted(*right, p);
            let l = left.as_seq();
            let r = right.as_seq();
            let s = l + seq![key] + r;
            assert forall|i: int| 0 <= i < l.len() implies l[i] <= key by {
                assert(l.contains(l[i]));
            }
            assert forall|i: int| 0 <= i < r.len() implies key <= r[i] by {
                assert(r.contains(r[i]));
            }
            assert forall|i: int, j: int| 0 <= i <= j < s.len() implies s[i] <= s[j] by {
                let ll = l.len() as int;
                if j < ll {
                    assert(l[i] <= l[j]);
                } else if i < ll {
                    if j == ll {
                        assert(l[i] <= key);
                    } else {
                        assert(l[i] <= key && key <= r[j - ll - 1]);
                    }
                } else if i == ll {
                    if j > ll {
                        assert(key <= r[j - ll - 1]);
                    }
                } else {
                    assert(r[i - ll - 1] <= r[j - ll - 1]);
                }
            }
        },
    }
}

/// An ordered tree: a root node and the duplicate policy fixed at
/// construction.
pub struct Tree {
    root: Node,
    policy: DuplicatePolicy,
}

impl View for Tree {
    type V = Seq<u64>;

    /// The ordered contents of the tree.
    closed spec fn view(&self) -> Seq<u64> {
        self.root.as_seq()
    }
}

impl Tree {
    /// The duplicate policy the tree was constructed with.
    pub closed spec fn policy(&self) -> DuplicatePolicy {
        self.policy
    }

    /// The tree's structural invariant: its root is well formed under its
    /// policy.
    pub closed spec fn well_formed(&self) -> bool {
        self.root.well_formed(self.policy)
    }

    /// A tree holding exactly `root_key`, resolving later insertions of
    /// a key already present by `policy`.
    pub fn construct(root_key: u64, policy: DuplicatePolicy) -> (tree: Tree)
        ensures
            tree.well_formed(),
            tree@ == seq![root_key],
            tree.policy() == policy,
    {
        let root = Node::Branch {
            key: root_key,
            left: Box::new(Node::Empty),
            right: Box::new(Node::Empty),
        };
        proof {
            reveal_with_fuel(Node::as_seq, 2);
            reveal_with_fuel(Node::well_formed, 2);
            assert(root.as_seq() =~= seq![root_key]);
            assert(root.well_formed(policy));
        }
        Tree { root, policy }
    }

    /// Insert `value`; an insertion equal to a key already present is
    /// resolved by the tree's policy.
    pub fn insert(&mut self, value: u64)
        requires
            old(self).well_formed(),
        ensures
            final(self).well_formed(),
            final(self).policy() == old(self).policy(),
            final(self)@ == policy_insert(old(self)@, value, old(self).policy()),
    {
        let mut root = Node::Empty;
        core::mem::swap(&mut root, &mut self.root);
        let p = self.policy;
        self.root = root.insert(value, p);
    }

    /// Whether `key` is present: inserted and not discarded by `Reject`.
    pub fn search(&self, key: u64) -> (found: bool)
        requires
            self.well_formed(),
        ensures
            found == self@.contains(key),
    {
        self.root.search(key, self.policy)
    }

    /// The keys of the tree in order, sorted whenever the tree is well
    /// formed.
    pub fn traverse(&self) -> (keys: Vec<u64>)
        ensures
            keys@ == self@,
            self.well_formed() ==> sorted(keys@),
    {
        proof {
            if self.well_formed() {
                lemma_node_sorted(self.root, self.policy);
            }
        }
        self.root.traverse()
    }

    /// The duplicate policy the tree was constructed with.
    pub fn duplicate_policy(&self) -> (p: DuplicatePolicy)
        ensures
            p == self.policy(),
    {
        self.policy
    }
}

/// Every well-formed tree — in particular any tree reached from
/// `construct` by a finite sequence of `insert` calls — holds its keys
/// in non-decreasing order.
pub proof fn lemma_tree_sorted(t: &Tree)
    requires
        t.well_formed(),
    ensures
        sorted(t@),
{
    lemma_node_sorted(t.root, t.policy);
}

} // verus!
