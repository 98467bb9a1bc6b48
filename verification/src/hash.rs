//! The hash pass: the digest of a subtree, computed anew only where a node
//! is marked dirty or has no digest yet.

use crate::digest::{
    hash_inner, hash_leaf, inner_digest, leaf_digest, sentinel, sentinel_digest,
};
use crate::encode::Encode;
use crate::node::{Node, Subtree};
use vstd::prelude::*;

verus! {

impl<K, V> Node<K, V> {
    /// The digest that the node holds, if it holds one.
    pub open spec fn cached_hash(self) -> Option<[u8; 32]> {
        match self {
            Node::Leaf { hash, .. } => hash,
            Node::Inner { hash, .. } => hash,
        }
    }

    /// Whether the node is marked dirty.
    pub open spec fn is_dirty(self) -> bool {
        match self {
            Node::Leaf { dirty, .. } => dirty,
            Node::Inner { dirty, .. } => dirty,
        }
    }

    /// The hash pass computes the digest of the node anew: the node is
    /// marked dirty, or holds no digest.
    pub open spec fn stale(self) -> bool {
        self.is_dirty() || self.cached_hash() is None
    }
}

impl<K: Encode, V: Encode> Node<K, V> {
    /// The digest of the subtree below the node, computed in full: that of a
    /// leaf from its key and value, that of an inner node from the digests of
    /// its subtrees.
    pub open spec fn digest(self) -> [u8; 32]
        decreases self,
    {
        match self {
            Node::Leaf { key, value, .. } => leaf_digest(key.encoding(), value.encoding()),
            Node::Inner { left, right, .. } => inner_digest(
                Self::digest_opt(left),
                Self::digest_opt(right),
            ),
        }
    }

    /// The digest of a subtree; the sentinel for the empty one.
    pub open spec fn digest_opt(t: Subtree<K, V>) -> [u8; 32]
        decreases t,
    {
        match t {
            Some(node) => node.digest(),
            None => sentinel_digest(),
        }
    }

    /// What the hash pass returns: the digest that the node holds where it
    /// is not stale, and otherwise the digest computed from what the pass
    /// returns for the subtrees.
    pub open spec fn lazy_digest(self) -> [u8; 32]
        decreases self,
    {
        if !self.stale() {
            self.cached_hash()->0
        } else {
            match self {
                Node::Leaf { key, value, .. } => leaf_digest(key.encoding(), value.encoding()),
                Node::Inner { left, right, .. } => inner_digest(
                    Self::lazy_digest_opt(left),
                    Self::lazy_digest_opt(right),
                ),
            }
        }
    }

    /// What the hash pass returns for a subtree.
    pub open spec fn lazy_digest_opt(t: Subtree<K, V>) -> [u8; 32]
        decreases t,
    {
        match t {
            Some(node) => node.lazy_digest(),
            None => sentinel_digest(),
        }
    }

    /// The node after the hash pass: as it was where it is not stale, and
    /// otherwise with the digest that the pass returns, not dirty, over the
    /// subtrees as the pass leaves them.
    pub open spec fn sealed(self) -> Self
        decreases self,
    {
        if !self.stale() {
            self
        } else {
            match self {
                Node::Leaf { key, value, version, hash, dirty } => Node::Leaf {
                    key,
                    value,
                    version,
                    hash: Some(self.lazy_digest()),
                    dirty: false,
                },
                Node::Inner { left, right, key, hash, height, version, dirty } => Node::Inner {
                    left: Self::sealed_opt(left),
                    right: Self::sealed_opt(right),
                    key,
                    hash: Some(self.lazy_digest()),
                    height,
                    version,
                    dirty: false,
                },
            }
        }
    }

    /// A subtree after the hash pass.
    pub open spec fn sealed_opt(t: Subtree<K, V>) -> Subtree<K, V>
        decreases t,
    {
        match t {
            Some(node) => Some(Box::new(node.sealed())),
            None => None,
        }
    }

    /// Whether a subtree has a stale root; the empty subtree has none.
    pub open spec fn stale_opt(t: Subtree<K, V>) -> bool {
        t matches Some(node) && node.stale()
    }

    /// The digests that the nodes hold can be trusted: a node that is not
    /// stale holds the digest of its subtree as computed in full, and has no
    /// stale child.
    pub open spec fn cache_ok(self) -> bool
        decreases self,
    {
        match self {
            Node::Leaf { .. } => !self.stale() ==> self.cached_hash() == Some(self.digest()),
            Node::Inner { left, right, .. } => {
                &&& Self::cache_ok_opt(left)
                &&& Self::cache_ok_opt(right)
                &&& !self.stale() ==> {
                    &&& self.cached_hash() == Some(self.digest())
                    &&& !Self::stale_opt(left)
                    &&& !Self::stale_opt(right)
                }
            },
        }
    }

    pub open spec fn cache_ok_opt(t: Subtree<K, V>) -> bool
        decreases t,
    {
        match t {
            Some(node) => node.cache_ok(),
            None => true,
        }
    }

    /// No node of the subtree is stale.
    pub open spec fn clean(self) -> bool
        decreases self,
    {
        match self {
            Node::Leaf { .. } => !self.stale(),
            Node::Inner { left, right, .. } => {
                &&& !self.stale()
                &&& Self::clean_opt(left)
                &&& Self::clean_opt(right)
            },
        }
    }

    pub open spec fn clean_opt(t: Subtree<K, V>) -> bool
        decreases t,
    {
        match t {
            Some(node) => node.clean(),
            None => true,
        }
    }

    /// Below a node that is not stale no node is stale, where the digests
    /// can be trusted.
    pub proof fn lemma_fresh_is_clean(self)
        requires
            self.cache_ok(),
            !self.stale(),
        ensures
            self.clean(),
        decreases self,
    {
        match self {
            Node::Leaf { .. } => {},
            Node::Inner { left, right, .. } => {
                if left is Some {
                    (*left->0).lemma_fresh_is_clean();
                }
                if right is Some {
                    (*right->0).lemma_fresh_is_clean();
                }
            },
        }
    }

    /// Where the digests can be trusted, the hash pass returns the digest
    /// that a computation in full gives.
    pub proof fn lemma_lazy_digest(self)
        requires
            self.cache_ok(),
        ensures
            self.lazy_digest() == self.digest(),
        decreases self,
    {
        match self {
            Node::Leaf { .. } => {},
            Node::Inner { left, right, .. } => {
                if left is Some {
                    (*left->0).lemma_lazy_digest();
                }
                if right is Some {
                    (*right->0).lemma_lazy_digest();
                }
            },
        }
    }

    /// The hash pass keeps the digest of the subtree and leaves no node
    /// stale, where the digests could be trusted before it.
    pub proof fn lemma_sealed(self)
        requires
            self.cache_ok(),
        ensures
            self.sealed().digest() == self.digest(),
            self.sealed().cache_ok(),
            self.sealed().clean(),
        decreases self,
    {
        if !self.stale() {
            self.lemma_fresh_is_clean();
        } else {
            self.lemma_lazy_digest();
            match self {
                Node::Leaf { .. } => {},
                Node::Inner { left, right, .. } => {
                    if left is Some {
                        (*left->0).lemma_sealed();
                    }
                    if right is Some {
                        (*right->0).lemma_sealed();
                    }
                },
            }
        }
    }

    /// A second hash pass right after the first stops at the root, returns
    /// the same digest and changes nothing.
    pub proof fn lemma_sealed_twice(self)
        ensures
            !self.sealed().stale(),
            self.sealed().lazy_digest() == self.lazy_digest(),
            self.sealed().sealed() == self.sealed(),
    {
    }

    /// The hash pass changes neither the entries nor the heights.
    pub proof fn lemma_sealed_shape(self)
        ensures
            self.sealed().as_map() == self.as_map(),
            self.sealed().height_of() == self.height_of(),
            Self::cached_height(Some(Box::new(self.sealed()))) == Self::cached_height(
                Some(Box::new(self)),
            ),
            self.sealed().full() == self.full(),
            self.sealed().heights_cached() == self.heights_cached(),
            self.sealed().balanced() == self.balanced(),
        decreases self,
    {
        match self {
            Node::Leaf { .. } => {},
            Node::Inner { left, right, .. } => {
                if left is Some {
                    (*left->0).lemma_sealed_shape();
                }
                if right is Some {
                    (*right->0).lemma_sealed_shape();
                }
            },
        }
    }

    /// Runs the hash pass below `root` and returns the digest of the
    /// subtree. A node that is not stale hands out the digest it holds and
    /// nothing below it is visited.
    pub fn update_hash(root: &mut Box<Node<K, V>>) -> (out: [u8; 32])
        ensures
            out == old(root).lazy_digest(),
            **final(root) == old(root).sealed(),
            !final(root).stale(),
            old(root).cache_ok() ==> out == old(root).digest() && final(root).cache_ok()
                && final(root).clean(),
        decreases **old(root),
    {
        proof {
            root.lemma_sealed_twice();
            if root.cache_ok() {
                root.lemma_lazy_digest();
                root.lemma_sealed();
            }
        }
        match &mut **root {
            Node::Leaf { key, value, hash, dirty, .. } => {
                if !*dirty {
                    if let Some(h) = hash {
                        return *h;
                    }
                }
                let key_bytes = key.encode();
                let value_bytes = value.encode();
                let h = hash_leaf(key_bytes.as_slice(), value_bytes.as_slice());
                *hash = Some(h);
                *dirty = false;
                h
            },
            Node::Inner { left, right, hash, dirty, .. } => {
                if !*dirty {
                    if let Some(h) = hash {
                        return *h;
                    }
                }
                let h_left = match left {
                    Some(node) => Node::update_hash(node),
                    None => sentinel(),
                };
                let h_right = match right {
                    Some(node) => Node::update_hash(node),
                    None => sentinel(),
                };
                let h = hash_inner(&h_left, &h_right);
                *hash = Some(h);
                *dirty = false;
                h
            },
        }
    }
}

} // verus!
