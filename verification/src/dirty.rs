//! How the dirty marks follow the changes: whatever an insertion or a
//! rotation touches is marked dirty, so that the digests that the other
//! nodes hold can still be trusted.

use crate::encode::Encode;
use crate::node::{Node, Subtree};
use crate::order::lt;
use vstd::prelude::*;

verus! {

impl<K: Encode, V: Encode> Node<K, V> {
    /// A refreshed node is dirty, and the digests below it can be trusted
    /// as far as they could before.
    pub proof fn lemma_refreshed_cache_ok(self)
        requires
            self is Inner ==> Self::cache_ok_opt(self->left) && Self::cache_ok_opt(self->right),
        ensures
            self.refreshed().is_dirty(),
            self.refreshed().cache_ok(),
    {
    }

    /// A right rotation marks the two nodes that it changes and leaves the
    /// digests trustworthy.
    pub proof fn lemma_rotated_right_cache_ok(self)
        requires
            self.cache_ok(),
        ensures
            self.rotated_right().cache_ok(),
            self.is_dirty() ==> self.rotated_right().is_dirty(),
    {
        if self.left_inner() {
            let l = *self->left->0;
            assert(l.cache_ok());
            let low = self.with_left(l->right);
            low.lemma_refreshed_cache_ok();
            let top = l.with_right(Some(Box::new(low.refreshed())));
            assert(Self::cache_ok_opt(top->right));
            top.lemma_refreshed_cache_ok();
        }
    }

    /// A left rotation marks the two nodes that it changes and leaves the
    /// digests trustworthy.
    pub proof fn lemma_rotated_left_cache_ok(self)
        requires
            self.cache_ok(),
        ensures
            self.rotated_left().cache_ok(),
            self.is_dirty() ==> self.rotated_left().is_dirty(),
    {
        if self.right_inner() {
            let r = *self->right->0;
            assert(r.cache_ok());
            let low = self.with_right(r->left);
            low.lemma_refreshed_cache_ok();
            let top = r.with_left(Some(Box::new(low.refreshed())));
            assert(Self::cache_ok_opt(top->left));
            top.lemma_refreshed_cache_ok();
        }
    }

    /// Restoring the balance leaves the digests trustworthy, and a dirty
    /// node dirty.
    pub proof fn lemma_rebalanced_cache_ok(self)
        requires
            self.cache_ok(),
        ensures
            self.rebalanced().cache_ok(),
            self.is_dirty() ==> self.rebalanced().is_dirty(),
    {
        if self.balance_factor() == 2 {
            if self.left_inner() {
                let l = *self->left->0;
                if Self::cached_height(l->right) > Self::cached_height(l->left) {
                    assert(l.cache_ok());
                    l.lemma_rotated_left_cache_ok();
                    let plain = self.with_left(Some(Box::new(l.rotated_left())));
                    assert(Self::cache_ok_opt(plain->left));
                    plain.lemma_refreshed_cache_ok();
                    plain.refreshed().lemma_rotated_right_cache_ok();
                } else {
                    self.lemma_rotated_right_cache_ok();
                }
            }
        } else if self.balance_factor() == -2 {
            if self.right_inner() {
                let r = *self->right->0;
                if Self::cached_height(r->left) > Self::cached_height(r->right) {
                    assert(r.cache_ok());
                    r.lemma_rotated_right_cache_ok();
                    let plain = self.with_right(Some(Box::new(r.rotated_right())));
                    assert(Self::cache_ok_opt(plain->right));
                    plain.lemma_refreshed_cache_ok();
                    plain.refreshed().lemma_rotated_left_cache_ok();
                } else {
                    self.lemma_rotated_left_cache_ok();
                }
            }
        }
    }
}

impl<K: Ord + Encode, V: Encode> Node<K, V> {
    /// An insertion marks every node from the entry's leaf up to the root,
    /// so that the digests that the tree holds can be trusted after it as
    /// they could before.
    pub proof fn lemma_inserted_cache_ok(self, new_key: K, new_value: V, version: u32)
        requires
            self.cache_ok(),
        ensures
            self.inserted(new_key, new_value, version).cache_ok(),
            self.inserted(new_key, new_value, version).is_dirty(),
        decreases self,
    {
        match self {
            Node::Inner { left, right, key, .. } => {
                let child = if lt(new_key, key) {
                    left
                } else {
                    right
                };
                Self::lemma_inserted_opt_cache_ok(child, new_key, new_value, version);
                let put = Self::inserted_opt(child, new_key, new_value, version);
                let plain = if lt(new_key, key) {
                    self.with_left(Some(Box::new(put)))
                } else {
                    self.with_right(Some(Box::new(put)))
                };
                assert(Self::cache_ok_opt(plain->left) && Self::cache_ok_opt(plain->right));
                plain.lemma_refreshed_cache_ok();
                plain.refreshed().lemma_rebalanced_cache_ok();
            },
            Node::Leaf { .. } => {
                let grown = self.leaf_grown(new_key, new_value, version);
                assert(Self::leaf(new_key, new_value, version).cache_ok());
                if grown is Inner {
                    assert(Self::cache_ok_opt(grown->left) && Self::cache_ok_opt(grown->right));
                }
                grown.lemma_refreshed_cache_ok();
                grown.refreshed().lemma_rebalanced_cache_ok();
            },
        }
    }

    /// `lemma_inserted_cache_ok` for a subtree.
    pub proof fn lemma_inserted_opt_cache_ok(
        t: Subtree<K, V>,
        new_key: K,
        new_value: V,
        version: u32,
    )
        requires
            Self::cache_ok_opt(t),
        ensures
            Self::inserted_opt(t, new_key, new_value, version).cache_ok(),
            Self::inserted_opt(t, new_key, new_value, version).is_dirty(),
        decreases t,
    {
        match t {
            Some(node) => node.lemma_inserted_cache_ok(new_key, new_value, version),
            None => {},
        }
    }

    /// The hash pass keeps the search-tree order, and with it the
    /// invariants of the tree.
    pub proof fn lemma_sealed_wf(self)
        ensures
            self.sealed().ordered() == self.ordered(),
            self.sealed().wf() == self.wf(),
        decreases self,
    {
        self.lemma_sealed_shape();
        match self {
            Node::Leaf { .. } => {
                assert(self.sealed() is Leaf);
                assert(self.sealed().ordered() && self.ordered());
            },
            Node::Inner { left, right, .. } => {
                if left is Some {
                    (*left->0).lemma_sealed_wf();
                    (*left->0).lemma_sealed_shape();
                }
                if right is Some {
                    (*right->0).lemma_sealed_wf();
                    (*right->0).lemma_sealed_shape();
                }
                if self.stale() {
                    let after = self.sealed();
                    assert(after->left == Self::sealed_opt(left));
                    assert(after->right == Self::sealed_opt(right));
                    assert(Self::map_opt(after->left) == Self::map_opt(left));
                    assert(Self::map_opt(after->right) == Self::map_opt(right));
                    assert(Self::ordered_opt(after->left) == Self::ordered_opt(left));
                    assert(Self::ordered_opt(after->right) == Self::ordered_opt(right));
                }
            },
        }
    }
}

} // verus!
