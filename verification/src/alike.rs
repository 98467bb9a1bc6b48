//! Trees that differ only in what the digest does not read: the versions,
//! the dirty marks and the digests that the nodes hold.

use crate::encode::Encode;
use crate::node::{Node, Subtree};
use crate::order::lt;
use vstd::prelude::*;

verus! {

impl<K, V> Node<K, V> {
    /// The two trees have the same shape, the same keys, values and heights;
    /// versions, dirty marks and held digests may differ.
    pub open spec fn alike(self, other: Self) -> bool
        decreases self,
    {
        match self {
            Node::Leaf { key, value, .. } => other matches Node::Leaf {
                key: other_key,
                value: other_value,
                ..
            } && key == other_key && value == other_value,
            Node::Inner { left, right, key, height, .. } => other matches Node::Inner {
                left: other_left,
                right: other_right,
                key: other_key,
                height: other_height,
                ..
            } && key == other_key && height == other_height && Self::alike_opt(left, other_left)
                && Self::alike_opt(right, other_right),
        }
    }

    /// `alike` for subtrees: both empty, or both a node and these alike.
    pub open spec fn alike_opt(t: Subtree<K, V>, other: Subtree<K, V>) -> bool
        decreases t,
    {
        match t {
            Some(node) => other matches Some(other_node) && node.alike(*other_node),
            None => other is None,
        }
    }

    /// Trees that are alike record the same height at the root.
    pub proof fn lemma_alike_height(t: Subtree<K, V>, other: Subtree<K, V>)
        requires
            Self::alike_opt(t, other),
        ensures
            Self::cached_height(t) == Self::cached_height(other),
    {
    }

    /// Refreshing keeps two nodes alike.
    pub proof fn lemma_refreshed_alike(self, other: Self)
        requires
            self matches Node::Inner { left, right, key, .. } ==> other matches Node::Inner {
                left: other_left,
                right: other_right,
                key: other_key,
                ..
            } && key == other_key && Self::alike_opt(left, other_left) && Self::alike_opt(
                right,
                other_right,
            ),
            self is Leaf ==> self.alike(other),
        ensures
            self.refreshed().alike(other.refreshed()),
    {
        if self is Inner {
            Self::lemma_alike_height(self->left, other->left);
            Self::lemma_alike_height(self->right, other->right);
        }
    }

    /// Right rotations keep two nodes alike.
    pub proof fn lemma_rotated_right_alike(self, other: Self)
        requires
            self.alike(other),
        ensures
            self.rotated_right().alike(other.rotated_right()),
    {
        if self.left_inner() {
            let l = *self->left->0;
            let m = *other->left->0;
            assert(l.alike(m));
            self.with_left(l->right).lemma_refreshed_alike(other.with_left(m->right));
            let low = self.with_left(l->right).refreshed();
            let other_low = other.with_left(m->right).refreshed();
            l.with_right(Some(Box::new(low))).lemma_refreshed_alike(
                m.with_right(Some(Box::new(other_low))),
            );
        } else {
            if self is Inner && self->left is Some {
                assert((*self->left->0).alike(*other->left->0));
            }
            assert(!other.left_inner());
        }
    }

    /// Left rotations keep two nodes alike.
    pub proof fn lemma_rotated_left_alike(self, other: Self)
        requires
            self.alike(other),
        ensures
            self.rotated_left().alike(other.rotated_left()),
    {
        if self.right_inner() {
            let r = *self->right->0;
            let m = *other->right->0;
            assert(r.alike(m));
            self.with_right(r->left).lemma_refreshed_alike(other.with_right(m->left));
            let low = self.with_right(r->left).refreshed();
            let other_low = other.with_right(m->left).refreshed();
            r.with_left(Some(Box::new(low))).lemma_refreshed_alike(
                m.with_left(Some(Box::new(other_low))),
            );
        } else {
            if self is Inner && self->right is Some {
                assert((*self->right->0).alike(*other->right->0));
            }
            assert(!other.right_inner());
        }
    }

    /// Restoring the balance keeps two nodes alike.
    pub proof fn lemma_rebalanced_alike(self, other: Self)
        requires
            self.alike(other),
        ensures
            self.rebalanced().alike(other.rebalanced()),
    {
        if self is Inner {
            Self::lemma_alike_height(self->left, other->left);
            Self::lemma_alike_height(self->right, other->right);
            assert(self.balance_factor() == other.balance_factor());
            if self.balance_factor() == 2 {
                if self.left_inner() {
                    let l = *self->left->0;
                    let m = *other->left->0;
                    assert(l.alike(m));
                    Self::lemma_alike_height(l->left, m->left);
                    Self::lemma_alike_height(l->right, m->right);
                    if Self::cached_height(l->right) > Self::cached_height(l->left) {
                        l.lemma_rotated_left_alike(m);
                        let plain = self.with_left(Some(Box::new(l.rotated_left())));
                        let other_plain = other.with_left(Some(Box::new(m.rotated_left())));
                        plain.lemma_refreshed_alike(other_plain);
                        plain.refreshed().lemma_rotated_right_alike(other_plain.refreshed());
                    } else {
                        self.lemma_rotated_right_alike(other);
                    }
                } else {
                    if self->left is Some {
                        assert((*self->left->0).alike(*other->left->0));
                    }
                    assert(!other.left_inner());
                }
            } else if self.balance_factor() == -2 {
                if self.right_inner() {
                    let r = *self->right->0;
                    let m = *other->right->0;
                    assert(r.alike(m));
                    Self::lemma_alike_height(r->left, m->left);
                    Self::lemma_alike_height(r->right, m->right);
                    if Self::cached_height(r->left) > Self::cached_height(r->right) {
                        r.lemma_rotated_right_alike(m);
                        let plain = self.with_right(Some(Box::new(r.rotated_right())));
                        let other_plain = other.with_right(Some(Box::new(m.rotated_right())));
                        plain.lemma_refreshed_alike(other_plain);
                        plain.refreshed().lemma_rotated_left_alike(other_plain.refreshed());
                    } else {
                        self.lemma_rotated_left_alike(other);
                    }
                } else {
                    if self->right is Some {
                        assert((*self->right->0).alike(*other->right->0));
                    }
                    assert(!other.right_inner());
                }
            }
        } else {
            assert(other is Leaf);
        }
    }
}

impl<K: Ord, V> Node<K, V> {
    /// The same insertion into two trees that are alike gives trees that are
    /// alike, whatever the versions that insert.
    pub proof fn lemma_inserted_alike(
        self,
        other: Self,
        new_key: K,
        new_value: V,
        version: u32,
        other_version: u32,
    )
        requires
            self.alike(other),
        ensures
            self.inserted(new_key, new_value, version).alike(
                other.inserted(new_key, new_value, other_version),
            ),
        decreases self,
    {
        match self {
            Node::Inner { left, right, key, .. } => {
                let goes_left = lt(new_key, key);
                let child = if goes_left {
                    left
                } else {
                    right
                };
                let other_child = if goes_left {
                    other->left
                } else {
                    other->right
                };
                Self::lemma_inserted_opt_alike(
                    child,
                    other_child,
                    new_key,
                    new_value,
                    version,
                    other_version,
                );
                let put = Self::inserted_opt(child, new_key, new_value, version);
                let other_put = Self::inserted_opt(other_child, new_key, new_value, other_version);
                let plain = if goes_left {
                    self.with_left(Some(Box::new(put)))
                } else {
                    self.with_right(Some(Box::new(put)))
                };
                let other_plain = if goes_left {
                    other.with_left(Some(Box::new(other_put)))
                } else {
                    other.with_right(Some(Box::new(other_put)))
                };
                plain.lemma_refreshed_alike(other_plain);
                plain.refreshed().lemma_rebalanced_alike(other_plain.refreshed());
            },
            Node::Leaf { .. } => {
                let plain = self.leaf_grown(new_key, new_value, version);
                let other_plain = other.leaf_grown(new_key, new_value, other_version);
                assert(Self::leaf(new_key, new_value, version).alike(
                    Self::leaf(new_key, new_value, other_version),
                ));
                plain.lemma_refreshed_alike(other_plain);
                plain.refreshed().lemma_rebalanced_alike(other_plain.refreshed());
            },
        }
    }

    /// `lemma_inserted_alike` for subtrees.
    pub proof fn lemma_inserted_opt_alike(
        t: Subtree<K, V>,
        other: Subtree<K, V>,
        new_key: K,
        new_value: V,
        version: u32,
        other_version: u32,
    )
        requires
            Self::alike_opt(t, other),
        ensures
            Self::inserted_opt(t, new_key, new_value, version).alike(
                Self::inserted_opt(other, new_key, new_value, other_version),
            ),
        decreases t,
    {
        match t {
            Some(node) => node.lemma_inserted_alike(
                *other->0,
                new_key,
                new_value,
                version,
                other_version,
            ),
            None => {},
        }
    }
}

impl<K: Encode, V: Encode> Node<K, V> {
    /// The digest reads the shape, the keys and the values only: trees that
    /// are alike have the same digest.
    pub proof fn lemma_alike_digest(self, other: Self)
        requires
            self.alike(other),
        ensures
            self.digest() == other.digest(),
        decreases self,
    {
        match self {
            Node::Leaf { .. } => {},
            Node::Inner { left, right, .. } => {
                if left is Some {
                    (*left->0).lemma_alike_digest(*other->left->0);
                }
                if right is Some {
                    (*right->0).lemma_alike_digest(*other->right->0);
                }
            },
        }
    }

    /// The hash pass keeps a tree alike to every tree that it was alike to.
    pub proof fn lemma_sealed_alike(self, other: Self)
        requires
            self.alike(other),
        ensures
            self.sealed().alike(other),
            self.alike(other.sealed()),
            self.sealed().alike(other.sealed()),
        decreases self,
    {
        match self {
            Node::Leaf { .. } => {},
            Node::Inner { left, right, .. } => {
                if left is Some {
                    (*left->0).lemma_sealed_alike(*other->left->0);
                }
                if right is Some {
                    (*right->0).lemma_sealed_alike(*other->right->0);
                }
            },
        }
    }
}

} // verus!
