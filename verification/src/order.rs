//! The ordering model of the tree: how a key is routed past an equal or
//! unequal branch key, and what one insertion does to the ordered contents.

use vstd::prelude::*;

verus! {

/// How an insertion whose value equals a key already in the tree is
/// resolved. The policy is fixed when the tree is constructed and applies
/// to every insertion for the lifetime of the tree.
#[derive(Clone, Copy, PartialEq, Eq, Structural, Debug)]
pub enum DuplicatePolicy {
    /// Discard the value; the tree is unchanged.
    Reject,
    /// Treat the value as less than the equal key and route it left.
    LeftBias,
    /// Treat the value as greater than or equal to the equal key and
    /// route it right.
    RightBias,
}

/// Whether a key `v` may stand in the left subtree of a branch keyed `k`.
pub open spec fn routes_left(p: DuplicatePolicy, v: u64, k: u64) -> bool {
    match p {
        DuplicatePolicy::LeftBias => v <= k,
        _ => v < k,
    }
}

/// Whether a key `v` may stand in the right subtree of a branch keyed `k`.
pub open spec fn routes_right(p: DuplicatePolicy, v: u64, k: u64) -> bool {
    match p {
        DuplicatePolicy::RightBias => v >= k,
        _ => v > k,
    }
}

/// The sequence is non-decreasing.
pub open spec fn sorted(s: Seq<u64>) -> bool {
    forall|i: int, j: int| 0 <= i <= j < s.len() ==> s[i] <= s[j]
}

/// `v` placed into `s` just before the first element it routes left of;
/// at the end when there is no such element.
pub open spec fn sorted_insert(s: Seq<u64>, v: u64, p: DuplicatePolicy) -> Seq<u64>
    decreases s.len(),
{
    if s.len() == 0 {
        seq![v]
    } else if routes_left(p, v, s[0]) {
        seq![v] + s
    } else {
        seq![s[0]] + sorted_insert(s.drop_first(), v, p)
    }
}

/// What one insertion does to the ordered contents: under `Reject` a value
/// already present is discarded; otherwise it is placed in order.
pub open spec fn policy_insert(s: Seq<u64>, v: u64, p: DuplicatePolicy) -> Seq<u64> {
    if p == DuplicatePolicy::Reject && s.contains(v) {
        s
    } else {
        sorted_insert(s, v, p)
    }
}

/// Membership in a concatenation splits into membership in either part.
pub proof fn lemma_concat_contains(a: Seq<u64>, b: Seq<u64>, x: u64)
    ensures
        (a + b).contains(x) <==> (a.contains(x) || b.contains(x)),
{
    if (a + b).contains(x) {
        let i = choose|i: int| 0 <= i < (a + b).len() && (a + b)[i] == x;
        if i < a.len() {
            assert(a[i] == x);
        } else {
            assert(b[i - a.len()] == x);
        }
    }
    if a.contains(x) {
        let i = choose|i: int| 0 <= i < a.len() && a[i] == x;
        assert((a + b)[i] == x);
    }
    if b.contains(x) {
        let i = choose|i: int| 0 <= i < b.len() && b[i] == x;
        assert((a + b)[a.len() + i] == x);
    }
}

/// A one-element sequence contains exactly its element.
pub proof fn lemma_singleton_contains(k: u64, x: u64)
    ensures
        seq![k].contains(x) <==> x == k,
{
    if seq![k].contains(x) {
        let i = choose|i: int| 0 <= i < seq![k].len() && seq![k][i] == x;
        assert(x == k);
    }
    if x == k {
        assert(seq![k][0] == k);
    }
}

/// Placing a value in order grows the sequence by exactly one element.
pub proof fn lemma_sorted_insert_len(s: Seq<u64>, v: u64, p: DuplicatePolicy)
    ensures
        sorted_insert(s, v, p).len() == s.len() + 1,
    decreases s.len(),
{
    if s.len() == 0 {
    } else if routes_left(p, v, s[0]) {
    } else {
        lemma_sorted_insert_len(s.drop_first(), v, p);
    }
}

/// Placing a value in order adds it to the members and keeps every other
/// member as it was.
pub proof fn lemma_sorted_insert_membership(s: Seq<u64>, v: u64, p: DuplicatePolicy, x: u64)
    ensures
        sorted_insert(s, v, p).contains(x) <==> (x == v || s.contains(x)),
    decreases s.len(),
{
    if s.len() == 0 {
        lemma_singleton_contains(v, x);
    } else if routes_left(p, v, s[0]) {
        lemma_concat_contains(seq![v], s, x);
        lemma_singleton_contains(v, x);
    } else {
        lemma_sorted_insert_membership(s.drop_first(), v, p, x);
        lemma_concat_contains(seq![s[0]], sorted_insert(s.drop_first(), v, p), x);
        lemma_singleton_contains(s[0], x);
        lemma_concat_contains(seq![s[0]], s.drop_first(), x);
        assert(s =~= seq![s[0]] + s.drop_first());
    }
}

/// Placing a value in order preserves sortedness.
pub proof fn lemma_sorted_insert_sorted(s: Seq<u64>, v: u64, p: DuplicatePolicy)
    requires
        sorted(s),
    ensures
        sorted(sorted_insert(s, v, p)),
    decreases s.len(),
{
    if s.len() == 0 {
    } else if routes_left(p, v, s[0]) {
        let t = seq![v] + s;
        assert forall|i: int, j: int| 0 <= i <= j < t.len() implies t[i] <= t[j] by {
            if i == 0 && j > 0 {
                assert(s[0] <= s[j - 1]);
            } else if i > 0 {
                assert(s[i - 1] <= s[j - 1]);
            }
        }
    } else {
        assert forall|i: int, j: int|
            0 <= i <= j < s.drop_first().len() implies s.drop_first()[i] <= s.drop_first()[j] by {
            assert(s[i + 1] <= s[j + 1]);
        }
        lemma_sorted_insert_sorted(s.drop_first(), v, p);
        let t0 = sorted_insert(s.drop_first(), v, p);
        let t = seq![s[0]] + t0;
        assert forall|j: int| 0 <= j < t0.len() implies s[0] <= t0[j] by {
            assert(t0.contains(t0[j]));
            lemma_sorted_insert_membership(s.drop_first(), v, p, t0[j]);
            if t0[j] != v {
                let i = choose|i: int|
                    0 <= i < s.drop_first().len() && s.drop_first()[i] == t0[j];
                assert(s[i + 1] == t0[j]);
                assert(s[0] <= s[i + 1]);
            }
        }
        assert forall|i: int, j: int| 0 <= i <= j < t.len() implies t[i] <= t[j] by {
            if i == 0 && j > 0 {
                assert(s[0] <= t0[j - 1]);
            } else if i > 0 {
                assert(t0[i - 1] <= t0[j - 1]);
            }
        }
    }
}

/// When the value routes left of `k`, placing it in order into a
/// branch-shaped sequence lands it in the left part.
pub proof fn lemma_sorted_insert_left(l: Seq<u64>, k: u64, r: Seq<u64>, v: u64, p: DuplicatePolicy)
    requires
        routes_left(p, v, k),
    ensures
        sorted_insert(l + seq![k] + r, v, p) == sorted_insert(l, v, p) + seq![k] + r,
    decreases l.len(),
{
    let s = l + seq![k] + r;
    if l.len() == 0 {
        assert(s[0] == k);
        assert(seq![v] + s =~= sorted_insert(l, v, p) + seq![k] + r);
    } else {
        assert(s[0] == l[0]);
        if routes_left(p, v, l[0]) {
            assert(seq![v] + s =~= (seq![v] + l) + seq![k] + r);
        } else {
            assert(s.drop_first() =~= l.drop_first() + seq![k] + r);
            lemma_sorted_insert_left(l.drop_first(), k, r, v, p);
            assert(seq![s[0]] + sorted_insert(s.drop_first(), v, p)
                =~= (seq![l[0]] + sorted_insert(l.drop_first(), v, p)) + seq![k] + r);
        }
    }
}

/// When the value routes right of `k` and every member of the left part
/// routes left of `k`, placing it in order lands it in the right part.
pub proof fn lemma_sorted_insert_right(l: Seq<u64>, k: u64, r: Seq<u64>, v: u64, p: DuplicatePolicy)
    requires
        routes_right(p, v, k),
        forall|x: u64| l.contains(x) ==> routes_left(p, x, k),
    ensures
        sorted_insert(l + seq![k] + r, v, p) == l + seq![k] + sorted_insert(r, v, p),
    decreases l.len(),
{
    let s = l + seq![k] + r;
    if l.len() == 0 {
        assert(s[0] == k);
        assert(!routes_left(p, v, k));
        assert(s.drop_first() =~= r);
        assert(seq![k] + sorted_insert(r, v, p) =~= l + seq![k] + sorted_insert(r, v, p));
    } else {
        assert(s[0] == l[0]);
        assert(l.contains(l[0]));
        assert(routes_left(p, l[0], k));
        assert(!routes_left(p, v, l[0]));
        assert forall|x: u64| l.drop_first().contains(x) implies routes_left(p, x, k) by {
            let i = choose|i: int| 0 <= i < l.drop_first().len() && l.drop_first()[i] == x;
            assert(l[i + 1] == x);
            assert(l.contains(x));
        }
        lemma_sorted_insert_right(l.drop_first(), k, r, v, p);
        assert(s.drop_first() =~= l.drop_first() + seq![k] + r);
        assert(seq![l[0]] + (l.drop_first() + seq![k] + sorted_insert(r, v, p))
            =~= l + seq![k] + sorted_insert(r, v, p));
    }
}

/// Membership after an insertion: the inserted key is a member, and every
/// other key is a member exactly when it was before.
pub proof fn lemma_insert_membership(s: Seq<u64>, v: u64, p: DuplicatePolicy, x: u64)
    ensures
        policy_insert(s, v, p).contains(x) <==> (x == v || s.contains(x)),
{
    if !(p == DuplicatePolicy::Reject && s.contains(v)) {
        lemma_sorted_insert_membership(s, v, p, x);
    }
}

/// One insertion grows the contents by one key, unless the policy
/// discards it, in which case the contents are unchanged.
pub proof fn lemma_insert_len(s: Seq<u64>, v: u64, p: DuplicatePolicy)
    ensures
        policy_insert(s, v, p).len() == (if p == DuplicatePolicy::Reject && s.contains(v) {
            s.len()
        } else {
            s.len() + 1
        }),
{
    if !(p == DuplicatePolicy::Reject && s.contains(v)) {
        lemma_sorted_insert_len(s, v, p);
    }
}

/// Under `Reject`, inserting the same key twice leaves the same contents
/// as inserting it once.
pub proof fn lemma_reject_idempotent(s: Seq<u64>, v: u64)
    ensures
        policy_insert(policy_insert(s, v, DuplicatePolicy::Reject), v, DuplicatePolicy::Reject)
            == policy_insert(s, v, DuplicatePolicy::Reject),
{
    lemma_insert_membership(s, v, DuplicatePolicy::Reject, v);
}

/// An insertion under any policy keeps the contents sorted.
pub proof fn lemma_insert_sorted(s: Seq<u64>, v: u64, p: DuplicatePolicy)
    requires
        sorted(s),
    ensures
        sorted(policy_insert(s, v, p)),
{
    if !(p == DuplicatePolicy::Reject && s.contains(v)) {
        lemma_sorted_insert_sorted(s, v, p);
    }
}

} // verus!
