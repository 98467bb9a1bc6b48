//! The number of leaves, and how it bounds the height of a balanced tree.

use crate::node::{Node, Subtree};
use crate::order::lt;
use vstd::arithmetic::power2::{lemma2_to64, lemma_pow2_strictly_increases, lemma_pow2_unfold, pow2};
use vstd::prelude::*;

verus! {

impl<K, V> Node<K, V> {
    /// The number of leaves below the node.
    pub open spec fn leaves(self) -> nat
        decreases self,
    {
        match self {
            Node::Leaf { .. } => 1,
            Node::Inner { left, right, .. } => Self::leaves_opt(left) + Self::leaves_opt(right),
        }
    }

    /// The number of leaves of a subtree.
    pub open spec fn leaves_opt(t: Subtree<K, V>) -> nat
        decreases t,
    {
        match t {
            Some(node) => node.leaves(),
            None => 0,
        }
    }

    /// A balanced tree whose inner nodes have two subtrees has at least
    /// two to the power of half its height leaves.
    pub proof fn lemma_leaves_bound(self)
        requires
            self.full(),
            self.balanced(),
        ensures
            pow2(self.height_of() / 2) <= self.leaves(),
        decreases self,
    {
        lemma2_to64();
        match self {
            Node::Leaf { .. } => {},
            Node::Inner { left, right, .. } => {
                let l = *left->0;
                let r = *right->0;
                l.lemma_leaves_bound();
                r.lemma_leaves_bound();
                let h = self.height_of();
                if h >= 2 {
                    let low = ((h - 2) / 2) as nat;
                    if low < l.height_of() / 2 {
                        lemma_pow2_strictly_increases(low, l.height_of() / 2);
                    }
                    if low < r.height_of() / 2 {
                        lemma_pow2_strictly_increases(low, r.height_of() / 2);
                    }
                    lemma_pow2_unfold(h / 2);
                }
            },
        }
    }

    /// A balanced tree of fewer than 2^64 leaves is lower than 128.
    pub proof fn lemma_height_bound(self)
        requires
            self.full(),
            self.balanced(),
            self.leaves() <= u64::MAX,
        ensures
            self.height_of() < 128,
    {
        lemma2_to64();
        self.lemma_leaves_bound();
        if self.height_of() >= 128 {
            if self.height_of() / 2 > 64 {
                lemma_pow2_strictly_increases(64, self.height_of() / 2);
            }
        }
    }

    /// Refreshing a node does not change its leaves.
    pub proof fn lemma_refreshed_leaves(self)
        ensures
            self.refreshed().leaves() == self.leaves(),
    {
    }

    /// A right rotation keeps the number of leaves.
    pub proof fn lemma_rotated_right_leaves(self)
        ensures
            self.rotated_right().leaves() == self.leaves(),
    {
        if self.left_inner() {
            let l = *self->left->0;
            let low = self.with_left(l->right).refreshed();
            assert(low.leaves() == Self::leaves_opt(l->right) + Self::leaves_opt(self->right));
            assert(l.leaves() == Self::leaves_opt(l->left) + Self::leaves_opt(l->right));
            let top = l.with_right(Some(Box::new(low)));
            assert(top.leaves() == Self::leaves_opt(l->left) + low.leaves());
        }
    }

    /// A left rotation keeps the number of leaves.
    pub proof fn lemma_rotated_left_leaves(self)
        ensures
            self.rotated_left().leaves() == self.leaves(),
    {
        if self.right_inner() {
            let r = *self->right->0;
            let low = self.with_right(r->left).refreshed();
            assert(low.leaves() == Self::leaves_opt(self->left) + Self::leaves_opt(r->left));
            assert(r.leaves() == Self::leaves_opt(r->left) + Self::leaves_opt(r->right));
            let top = r.with_left(Some(Box::new(low)));
            assert(top.leaves() == low.leaves() + Self::leaves_opt(r->right));
        }
    }

    /// Restoring the balance keeps the number of leaves.
    pub proof fn lemma_rebalanced_leaves(self)
        ensures
            self.rebalanced().leaves() == self.leaves(),
    {
        if self.balance_factor() == 2 {
            if self.left_inner() {
                let l = *self->left->0;
                if Self::cached_height(l->right) > Self::cached_height(l->left) {
                    l.lemma_rotated_left_leaves();
                    let plain = self.with_left(Some(Box::new(l.rotated_left())));
                    assert(plain.leaves() == self.leaves());
                    plain.refreshed().lemma_rotated_right_leaves();
                } else {
                    self.lemma_rotated_right_leaves();
                }
            }
        } else if self.balance_factor() == -2 {
            if self.right_inner() {
                let r = *self->right->0;
                if Self::cached_height(r->left) > Self::cached_height(r->right) {
                    r.lemma_rotated_right_leaves();
                    let plain = self.with_right(Some(Box::new(r.rotated_right())));
                    assert(plain.leaves() == self.leaves());
                    plain.refreshed().lemma_rotated_left_leaves();
                } else {
                    self.lemma_rotated_left_leaves();
                }
            }
        }
    }
}

impl<K: Ord, V> Node<K, V> {
    /// An insertion adds one leaf at most.
    pub proof fn lemma_inserted_leaves(self, new_key: K, new_value: V, version: u32)
        ensures
            self.inserted(new_key, new_value, version).leaves() <= self.leaves() + 1,
        decreases self,
    {
        match self {
            Node::Inner { left, right, key, .. } => {
                let child = if lt(new_key, key) {
                    left
                } else {
                    right
                };
                Self::lemma_inserted_opt_leaves(child, new_key, new_value, version);
                let put = Self::inserted_opt(child, new_key, new_value, version);
                let plain = if lt(new_key, key) {
                    self.with_left(Some(Box::new(put)))
                } else {
                    self.with_right(Some(Box::new(put)))
                };
                assert(plain.leaves() <= self.leaves() + 1);
                let grown = plain.refreshed();
                assert(grown.leaves() == plain.leaves());
                grown.lemma_rebalanced_leaves();
                assert(self.inserted(new_key, new_value, version) == grown.rebalanced());
            },
            Node::Leaf { .. } => {
                let fresh = Self::leaf(new_key, new_value, version);
                assert(fresh.leaves() == 1);
                assert(self.leaves() == 1);
                let plain = self.leaf_grown(new_key, new_value, version);
                assert(plain is Inner ==> plain.leaves() == Self::leaves_opt(plain->left)
                    + Self::leaves_opt(plain->right));
                assert(plain.leaves() <= 2);
                let grown = plain.refreshed();
                assert(grown.leaves() == plain.leaves());
                grown.lemma_rebalanced_leaves();
                assert(self.inserted(new_key, new_value, version) == grown.rebalanced());
            },
        }
    }

    /// `lemma_inserted_leaves` for a subtree.
    pub proof fn lemma_inserted_opt_leaves(
        t: Subtree<K, V>,
        new_key: K,
        new_value: V,
        version: u32,
    )
        ensures
            Self::inserted_opt(t, new_key, new_value, version).leaves() <= Self::leaves_opt(t) + 1,
        decreases t,
    {
        match t {
            Some(node) => node.lemma_inserted_leaves(new_key, new_value, version),
            None => {},
        }
    }
}

} // verus!
