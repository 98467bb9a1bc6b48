//! What holds of every tree that insertions build: balance, order, what a
//! lookup finds, and which digest a hash pass returns.

use crate::encode::Encode;
use crate::node::{Node, Subtree};
use crate::order::{lemma_lt_then_not_lt, lt, total_order};
use vstd::prelude::*;

verus! {

/// Every key of the sequence comes before the keys after it.
pub open spec fn ascending<K: Ord>(keys: Seq<K>) -> bool {
    forall|i: int, j: int| 0 <= i < j < keys.len() ==> lt(keys[i], keys[j])
}

/// The tree that the insertions of `steps` build from the empty tree, in
/// their order. A step is a key, a value and the version that inserts them.
pub open spec fn built<K: Ord, V>(steps: Seq<(K, V, u32)>) -> Subtree<K, V>
    decreases steps.len(),
{
    if steps.len() == 0 {
        None
    } else {
        let last = steps.last();
        Some(Box::new(Node::inserted_opt(built(steps.drop_last()), last.0, last.1, last.2)))
    }
}

/// The entries that the insertions of `steps` leave: for each key the value
/// of its last insertion.
pub open spec fn entries<K, V>(steps: Seq<(K, V, u32)>) -> Map<K, V>
    decreases steps.len(),
{
    if steps.len() == 0 {
        Map::empty()
    } else {
        entries(steps.drop_last()).insert(steps.last().0, steps.last().1)
    }
}

/// The last insertion of `key` among `steps`, if there is one.
pub open spec fn last_inserted<K, V>(steps: Seq<(K, V, u32)>, key: K) -> Option<(K, V)>
    decreases steps.len(),
{
    if steps.len() == 0 {
        None
    } else if steps.last().0 == key {
        Some((key, steps.last().1))
    } else {
        last_inserted(steps.drop_last(), key)
    }
}

impl<K, V> Node<K, V> {
    /// The keys of the leaves from left to right.
    pub open spec fn in_order(self) -> Seq<K>
        decreases self,
    {
        match self {
            Node::Leaf { key, .. } => seq![key],
            Node::Inner { left, right, .. } => Self::in_order_opt(left) + Self::in_order_opt(right),
        }
    }

    /// The keys of the leaves of a subtree from left to right.
    pub open spec fn in_order_opt(t: Subtree<K, V>) -> Seq<K>
        decreases t,
    {
        match t {
            Some(node) => node.in_order(),
            None => Seq::empty(),
        }
    }
}

impl<K: Ord, V> Node<K, V> {
    /// In a search tree the keys of the leaves, read from left to right,
    /// ascend strictly, and they are the keys of the tree's entries.
    pub proof fn lemma_in_order(self)
        requires
            total_order::<K>(),
            self.ordered(),
        ensures
            ascending(self.in_order()),
            forall|k: K| self.in_order().contains(k) <==> self.as_map().dom().contains(k),
        decreases self,
    {
        match self {
            Node::Leaf { key, .. } => {
                assert(self.in_order()[0] == key);
            },
            Node::Inner { left, right, key, .. } => {
                let l = Self::in_order_opt(left);
                let r = Self::in_order_opt(right);
                Self::lemma_in_order_opt(left);
                Self::lemma_in_order_opt(right);
                let all = self.in_order();
                assert forall|k: K| all.contains(k) <==> self.as_map().dom().contains(k) by {
                    if all.contains(k) {
                        let i = choose|i: int| 0 <= i < all.len() && all[i] == k;
                        if i < l.len() {
                            assert(l[i] == k);
                            assert(l.contains(k));
                        } else {
                            assert(r[i - l.len()] == k);
                            assert(r.contains(k));
                        }
                    }
                    if l.contains(k) {
                        let i = choose|i: int| 0 <= i < l.len() && l[i] == k;
                        assert(all[i] == k);
                    }
                    if r.contains(k) {
                        let i = choose|i: int| 0 <= i < r.len() && r[i] == k;
                        assert(all[i + l.len()] == k);
                    }
                }
                assert forall|i: int, j: int| 0 <= i < j < all.len() implies lt(all[i], all[j]) by {
                    if j < l.len() {
                        assert(all[i] == l[i] && all[j] == l[j]);
                    } else if i >= l.len() {
                        assert(all[i] == r[i - l.len()] && all[j] == r[j - l.len()]);
                    } else {
                        assert(all[i] == l[i] && all[j] == r[j - l.len()]);
                        assert(l.contains(l[i]));
                        assert(r.contains(r[j - l.len()]));
                        lemma_lt_then_not_lt(all[i], key, all[j]);
                    }
                }
            },
        }
    }

    /// `lemma_in_order` for a subtree.
    pub proof fn lemma_in_order_opt(t: Subtree<K, V>)
        requires
            total_order::<K>(),
            Self::ordered_opt(t),
        ensures
            ascending(Self::in_order_opt(t)),
            forall|k: K| Self::in_order_opt(t).contains(k) <==> Self::map_opt(t).dom().contains(k),
        decreases t,
    {
        match t {
            Some(node) => node.lemma_in_order(),
            None => {},
        }
    }
}

/// The tree that insertions build from the empty tree meets the invariants
/// of the tree, holds for each key the value of its last insertion, has no
/// more leaves than there were insertions, and is lower than 128.
pub proof fn lemma_built<K: Ord, V>(steps: Seq<(K, V, u32)>)
    requires
        total_order::<K>(),
        steps.len() <= u64::MAX,
    ensures
        Node::wf_opt(built(steps)),
        Node::map_opt(built(steps)) == entries(steps),
        Node::leaves_opt(built(steps)) <= steps.len(),
        Node::height_opt(built(steps)) < 128,
    decreases steps.len(),
{
    if steps.len() > 0 {
        let before = built(steps.drop_last());
        let last = steps.last();
        lemma_built(steps.drop_last());
        Node::lemma_inserted_opt(before, last.0, last.1, last.2);
        Node::lemma_inserted_opt_leaves(before, last.0, last.1, last.2);
        Node::inserted_opt(before, last.0, last.1, last.2).lemma_height_bound();
    }
}

/// Balance: after every insertion the heights of the two subtrees of every
/// inner node differ by at most one.
pub proof fn lemma_built_balanced<K: Ord, V>(steps: Seq<(K, V, u32)>)
    requires
        total_order::<K>(),
        steps.len() <= u64::MAX,
    ensures
        Node::balanced_opt(built(steps)),
{
    lemma_built(steps);
}

/// Search-tree order: after every insertion the keys of the leaves, read
/// from left to right, ascend strictly.
pub proof fn lemma_built_ascending<K: Ord, V>(steps: Seq<(K, V, u32)>)
    requires
        total_order::<K>(),
        steps.len() <= u64::MAX,
    ensures
        ascending(Node::in_order_opt(built(steps))),
{
    lemma_built(steps);
    Node::lemma_in_order_opt(built(steps));
}

/// The entries that insertions leave hold a key exactly where it was
/// inserted, with the value of its last insertion.
pub proof fn lemma_entries_last<K, V>(steps: Seq<(K, V, u32)>, key: K)
    ensures
        last_inserted(steps, key) == if entries(steps).dom().contains(key) {
            Some((key, entries(steps)[key]))
        } else {
            None
        },
    decreases steps.len(),
{
    if steps.len() > 0 {
        lemma_entries_last(steps.drop_last(), key);
    }
}

/// Lookup: after any insertions the descent for a key finds the value of
/// the key's last insertion, and nothing for a key that was never inserted.
pub proof fn lemma_built_lookup<K: Ord, V>(steps: Seq<(K, V, u32)>, key: K)
    requires
        total_order::<K>(),
        steps.len() <= u64::MAX,
    ensures
        Node::lookup_opt(built(steps), key) == last_inserted(steps, key),
{
    lemma_built(steps);
    lemma_entries_last(steps, key);
    if built(steps) is Some {
        (*built(steps)->0).lemma_lookup(key);
    }
}

/// The tree that the steps of `steps` build from the empty tree. A step is
/// a key, a value, the version that inserts them, and whether a hash pass
/// follows the insertion.
pub open spec fn run<K: Ord + Encode, V: Encode>(steps: Seq<(K, V, u32, bool)>) -> Subtree<K, V>
    decreases steps.len(),
{
    if steps.len() == 0 {
        None
    } else {
        let last = steps.last();
        let grown = Node::inserted_opt(run(steps.drop_last()), last.0, last.1, last.2);
        Some(
            Box::new(
                if last.3 {
                    grown.sealed()
                } else {
                    grown
                },
            ),
        )
    }
}

/// Lazy hashing: whatever insertions and hash passes built the tree, the
/// digests that its nodes hold can be trusted, and the next hash pass
/// returns the digest that a computation in full gives.
pub proof fn lemma_run_lazy<K: Ord + Encode, V: Encode>(steps: Seq<(K, V, u32, bool)>)
    ensures
        Node::cache_ok_opt(run(steps)),
        Node::lazy_digest_opt(run(steps)) == Node::digest_opt(run(steps)),
    decreases steps.len(),
{
    if steps.len() > 0 {
        let last = steps.last();
        lemma_run_lazy(steps.drop_last());
        Node::lemma_inserted_opt_cache_ok(run(steps.drop_last()), last.0, last.1, last.2);
        let grown = Node::inserted_opt(run(steps.drop_last()), last.0, last.1, last.2);
        grown.lemma_sealed();
        (*run(steps)->0).lemma_lazy_digest();
    }
}

/// Trees built by the same insertions are alike, whatever the versions
/// that inserted and wherever hash passes came between.
pub proof fn lemma_run_alike<K: Ord + Encode, V: Encode>(
    steps: Seq<(K, V, u32, bool)>,
    others: Seq<(K, V, u32, bool)>,
)
    requires
        steps.len() == others.len(),
        forall|i: int|
            0 <= i < steps.len() ==> steps[i].0 == others[i].0 && steps[i].1 == others[i].1,
    ensures
        Node::alike_opt(run(steps), run(others)),
    decreases steps.len(),
{
    if steps.len() > 0 {
        let last = steps.last();
        let other_last = others.last();
        lemma_run_alike(steps.drop_last(), others.drop_last());
        Node::lemma_inserted_opt_alike(
            run(steps.drop_last()),
            run(others.drop_last()),
            last.0,
            last.1,
            last.2,
            other_last.2,
        );
        let grown = Node::inserted_opt(run(steps.drop_last()), last.0, last.1, last.2);
        let other_grown = Node::inserted_opt(
            run(others.drop_last()),
            other_last.0,
            other_last.1,
            other_last.2,
        );
        grown.lemma_sealed_alike(other_grown);
    }
}

/// Hash determinism: two trees built by the same insertions have the same
/// digest, and a hash pass returns it for both, whatever the versions that
/// inserted and wherever hash passes came between.
pub proof fn lemma_run_digest<K: Ord + Encode, V: Encode>(
    steps: Seq<(K, V, u32, bool)>,
    others: Seq<(K, V, u32, bool)>,
)
    requires
        steps.len() == others.len(),
        forall|i: int|
            0 <= i < steps.len() ==> steps[i].0 == others[i].0 && steps[i].1 == others[i].1,
    ensures
        Node::digest_opt(run(steps)) == Node::digest_opt(run(others)),
        Node::lazy_digest_opt(run(steps)) == Node::lazy_digest_opt(run(others)),
{
    lemma_run_alike(steps, others);
    lemma_run_lazy(steps);
    lemma_run_lazy(others);
    if run(steps) is Some {
        (*run(steps)->0).lemma_alike_digest(*run(others)->0);
    }
}

} // verus!
