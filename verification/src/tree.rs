//! The tree: a root and the version that stamps what is inserted.

use crate::digest::sentinel;
use crate::encode::Encode;
use crate::node::Node;
use crate::order::total_order;
use vstd::prelude::*;

verus! {

/// A balanced search tree of entries, each node of which can hold the digest
/// of its subtree.
pub struct IAVL<K, V> {
    /// The root; nothing while the tree is empty.
    pub root: Option<Box<Node<K, V>>>,
    /// The version that stamps the nodes made by the next insertions.
    pub version: u32,
}

impl<K, V> View for IAVL<K, V> {
    type V = Map<K, V>;

    /// The entries of the tree.
    open spec fn view(&self) -> Map<K, V> {
        Node::map_opt(self.root)
    }
}

impl<K, V> IAVL<K, V> {
    /// The height of the tree; 0 while it holds at most one entry.
    pub open spec fn height(self) -> nat {
        Node::height_opt(self.root)
    }

    /// An empty tree at version 0.
    pub fn new() -> (tree: Self)
        ensures
            tree.root is None,
            tree.version == 0,
            tree@ == Map::<K, V>::empty(),
    {
        return IAVL { root: None, version: 0 };
    }
}

impl<K: Ord, V> IAVL<K, V> {
    /// The invariants of the tree hold below the root.
    pub open spec fn wf(self) -> bool {
        Node::wf_opt(self.root)
    }
}

impl<K: Ord + Copy, V> IAVL<K, V> {
    /// Inserts an entry, stamped with the tree's version. An entry of the
    /// same key is replaced. No digest is computed: the nodes on the way to
    /// the entry are marked dirty.
    pub fn insert(&mut self, new_key: K, new_value: V)
        requires
            total_order::<K>(),
            old(self).wf(),
            old(self).height() < u8::MAX,
        ensures
            final(self).root == Some(
                Box::new(Node::inserted_opt(old(self).root, new_key, new_value, old(self).version)),
            ),
            final(self).version == old(self).version,
            final(self).wf(),
            final(self)@ == old(self)@.insert(new_key, new_value),
            final(self).height() == old(self).height() || final(self).height() == old(
                self,
            ).height() + 1,
    {
        match self.root.take() {
            None => {
                proof {
                    Node::lemma_inserted_opt(None, new_key, new_value, self.version);
                }
                self.root = Some(Box::new(Node::new_leaf(new_key, new_value, self.version)));
            },
            Some(root) => {
                self.root = Some(Node::insert(root, new_key, new_value, self.version));
            },
        }
    }
}

impl<K: Encode, V: Encode> IAVL<K, V> {
    /// The digest that the hash pass returns for the tree: the sentinel
    /// while the tree is empty.
    pub open spec fn root_digest(self) -> [u8; 32] {
        Node::lazy_digest_opt(self.root)
    }

    /// The digest of the tree computed in full, from every entry: the
    /// sentinel while the tree is empty.
    pub open spec fn digest(self) -> [u8; 32] {
        Node::digest_opt(self.root)
    }

    /// The digests that the nodes of the tree hold can be trusted. This
    /// holds of the empty tree, and insertions and hash passes keep it.
    pub open spec fn cache_ok(self) -> bool {
        Node::cache_ok_opt(self.root)
    }

    /// Runs the hash pass on the tree and returns the digest of the root,
    /// the sentinel while the tree is empty. Only stale nodes are hashed
    /// anew. Where the digests that the nodes held could be trusted, the
    /// digest returned is that of the tree computed in full, and no node is
    /// stale afterwards.
    pub fn save_tree(&mut self) -> (out: [u8; 32])
        ensures
            out == old(self).root_digest(),
            final(self).root == Node::sealed_opt(old(self).root),
            final(self).version == old(self).version,
            !Node::stale_opt(final(self).root),
            final(self).root_digest() == out,
            old(self).cache_ok() ==> out == old(self).digest() && final(self).digest() == out
                && final(self).cache_ok() && Node::clean_opt(final(self).root),
    {
        proof {
            if self.root is Some {
                let node = *self.root->0;
                node.lemma_sealed_twice();
                if node.cache_ok() {
                    node.lemma_sealed();
                }
            }
        }
        match &mut self.root {
            None => sentinel(),
            Some(root) => Node::update_hash(root),
        }
    }
}

} // verus!
