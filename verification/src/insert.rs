//! Insertion: the new entry goes to its place among the leaves, and every
//! node on the way back to the root is refreshed and rebalanced.

use crate::node::{Node, Subtree};
use crate::order::{key_eq, key_lt, lemma_lt_irreflexive, lemma_lt_trichotomy, lt, total_order};
use vstd::prelude::*;

verus! {

impl<K: Ord, V> Node<K, V> {
    /// What an insertion puts in the place of a leaf: the leaf with the new
    /// value where the keys are equal, and otherwise an inner node over the
    /// old leaf and a new one, the lesser key on the left and the greater
    /// key as the split key.
    pub open spec fn leaf_grown(self, new_key: K, new_value: V, version: u32) -> Self {
        match self {
            Node::Leaf { key, value, version: written, hash, dirty } => if lt(new_key, key) {
                Self::inner(key, Self::leaf(new_key, new_value, version), self, version)
            } else if new_key == key {
                Node::Leaf { key, value: new_value, version, hash, dirty }
            } else {
                Self::inner(new_key, self, Self::leaf(new_key, new_value, version), version)
            },
            Node::Inner { .. } => self,
        }
    }

    /// The tree after the insertion of an entry by `version`. In an inner
    /// node the entry goes left where its key comes before the split key,
    /// and right otherwise; the node is then refreshed and rebalanced.
    pub open spec fn inserted(self, new_key: K, new_value: V, version: u32) -> Self
        decreases self,
    {
        match self {
            Node::Inner { left, right, key, .. } => {
                let grown = if lt(new_key, key) {
                    self.with_left(
                        Some(Box::new(Self::inserted_opt(left, new_key, new_value, version))),
                    )
                } else {
                    self.with_right(
                        Some(Box::new(Self::inserted_opt(right, new_key, new_value, version))),
                    )
                };
                grown.refreshed().rebalanced()
            },
            Node::Leaf { .. } => self.leaf_grown(new_key, new_value, version).refreshed().rebalanced(),
        }
    }

    /// The subtree after the insertion: a new leaf where it was empty.
    pub open spec fn inserted_opt(t: Subtree<K, V>, new_key: K, new_value: V, version: u32) -> Self
        decreases t,
    {
        match t {
            Some(node) => node.inserted(new_key, new_value, version),
            None => Self::leaf(new_key, new_value, version),
        }
    }

    /// What takes the place of a leaf holds the leaf's entry and the new one,
    /// and meets the invariants of the tree.
    pub proof fn lemma_leaf_grown(self, new_key: K, new_value: V, version: u32)
        requires
            total_order::<K>(),
            self is Leaf,
        ensures
            self.leaf_grown(new_key, new_value, version).refreshed().wf(),
            self.leaf_grown(new_key, new_value, version).refreshed().as_map() == self.as_map().insert(
                new_key,
                new_value,
            ),
            self.leaf_grown(new_key, new_value, version).refreshed().height_of() <= 1,
    {
        let key = self->Leaf_key;
        let fresh = Self::leaf(new_key, new_value, version);
        let grown = self.leaf_grown(new_key, new_value, version);
        let r = grown.refreshed();
        lemma_lt_trichotomy(new_key, key);
        lemma_lt_irreflexive(key);
        lemma_lt_irreflexive(new_key);
        assert(fresh.as_map() =~= Map::empty().insert(new_key, new_value));
        assert(fresh.full() && fresh.heights_cached() && fresh.balanced() && fresh.ordered());
        assert(self.full() && self.heights_cached() && self.balanced() && self.ordered());
        assert(fresh.height_of() == 0 && self.height_of() == 0);
        if lt(new_key, key) {
            assert(Self::map_opt(r->left) =~= fresh.as_map());
            assert(Self::map_opt(r->right) =~= self.as_map());
            assert(r.as_map() =~= self.as_map().insert(new_key, new_value));
        } else if new_key == key {
            assert(r.as_map() =~= self.as_map().insert(new_key, new_value));
        } else {
            assert(Self::map_opt(r->left) =~= self.as_map());
            assert(Self::map_opt(r->right) =~= fresh.as_map());
            assert(r.as_map() =~= self.as_map().insert(new_key, new_value));
        }
    }

    /// An insertion keeps the invariants of the tree, adds the entry to the
    /// entries of the tree, replacing the one of the same key, and makes the
    /// tree higher by one at most.
    pub proof fn lemma_inserted(self, new_key: K, new_value: V, version: u32)
        requires
            total_order::<K>(),
            self.wf(),
            self.height_of() < u8::MAX,
        ensures
            self.inserted(new_key, new_value, version).wf(),
            self.inserted(new_key, new_value, version).as_map() == self.as_map().insert(
                new_key,
                new_value,
            ),
            self.inserted(new_key, new_value, version).height_of() == self.height_of()
                || self.inserted(new_key, new_value, version).height_of() == self.height_of() + 1,
        decreases self,
    {
        match self {
            Node::Inner { left, right, key, .. } => {
                let child = if lt(new_key, key) {
                    left
                } else {
                    right
                };
                Self::lemma_inserted_opt(child, new_key, new_value, version);
                let put = Self::inserted_opt(child, new_key, new_value, version);
                let plain = if lt(new_key, key) {
                    self.with_left(Some(Box::new(put)))
                } else {
                    self.with_right(Some(Box::new(put)))
                };
                let grown = plain.refreshed();
                Self::lemma_cached_height(Some(Box::new(put)));
                Self::lemma_cached_height(left);
                Self::lemma_cached_height(right);
                assert(plain.full());
                assert(plain.ordered());
                if lt(new_key, key) {
                    assert(!Self::map_opt(right).dom().contains(new_key));
                }
                assert(plain.as_map() =~= self.as_map().insert(new_key, new_value));
                assert(grown.full() && grown.ordered() && grown.as_map() == plain.as_map());
                assert(grown.near_balanced());
                grown.lemma_rebalanced_shape();
                grown.lemma_rebalanced_ordered();
            },
            Node::Leaf { .. } => {
                self.lemma_leaf_grown(new_key, new_value, version);
                let grown = self.leaf_grown(new_key, new_value, version).refreshed();
                grown.lemma_rebalanced_shape();
            },
        }
    }

    /// `lemma_inserted` for a subtree.
    pub proof fn lemma_inserted_opt(t: Subtree<K, V>, new_key: K, new_value: V, version: u32)
        requires
            total_order::<K>(),
            Self::wf_opt(t),
            Self::height_opt(t) < u8::MAX,
        ensures
            Self::inserted_opt(t, new_key, new_value, version).wf(),
            Self::inserted_opt(t, new_key, new_value, version).as_map() == Self::map_opt(t).insert(
                new_key,
                new_value,
            ),
            Self::inserted_opt(t, new_key, new_value, version).height_of() == Self::height_opt(t)
                || Self::inserted_opt(t, new_key, new_value, version).height_of()
                == Self::height_opt(t) + 1,
        decreases t,
    {
        match t {
            Some(node) => node.lemma_inserted(new_key, new_value, version),
            None => {},
        }
    }
}

impl<K: Ord + Copy, V> Node<K, V> {
    pub(crate) fn insert_in_child(
        root: Option<Box<Node<K, V>>>,
        new_key: K,
        new_value: V,
        version: u32,
    ) -> (res: Option<Box<Node<K, V>>>)
        requires
            total_order::<K>(),
            Self::wf_opt(root),
            Self::height_opt(root) < u8::MAX,
        ensures
            res == Some(Box::new(Self::inserted_opt(root, new_key, new_value, version))),
        decreases root,
    {
        Some(
            match root {
                Some(node) => Node::insert(node, new_key, new_value, version),
                None => Box::new(Node::new_leaf(new_key, new_value, version)),
            },
        )
    }

    /// Inserts an entry by `version` below `root` and returns the new root.
    /// An entry of the same key is replaced. The nodes from the entry's leaf
    /// up to the root are marked dirty; the other subtrees are moved, not
    /// touched.
    pub fn insert(root: Box<Node<K, V>>, new_key: K, new_value: V, version: u32) -> (res: Box<
        Node<K, V>,
    >)
        requires
            total_order::<K>(),
            root.wf(),
            root.height_of() < u8::MAX,
        ensures
            *res == root.inserted(new_key, new_value, version),
            res.wf(),
            res.as_map() == root.as_map().insert(new_key, new_value),
            res.height_of() == root.height_of() || res.height_of() == root.height_of() + 1,
        decreases root,
    {
        proof {
            root.lemma_inserted(new_key, new_value, version);
        }
        let mut grown = match *root {
            Node::Inner { left, right, key, hash, height, version: made, dirty } => {
                proof {
                    let child = if lt(new_key, key) {
                        left
                    } else {
                        right
                    };
                    Self::lemma_inserted_opt(child, new_key, new_value, version);
                    Self::lemma_cached_height(
                        Some(Box::new(Self::inserted_opt(child, new_key, new_value, version))),
                    );
                    Self::lemma_cached_height(left);
                    Self::lemma_cached_height(right);
                }
                if key_lt(&new_key, &key) {
                    let left = Node::insert_in_child(left, new_key, new_value, version);
                    Box::new(Node::Inner { left, right, key, hash, height, version: made, dirty })
                } else {
                    let right = Node::insert_in_child(right, new_key, new_value, version);
                    Box::new(Node::Inner { left, right, key, hash, height, version: made, dirty })
                }
            },
            Node::Leaf { key, value, version: written, hash, dirty } => {
                proof {
                    root.lemma_leaf_grown(new_key, new_value, version);
                }
                if key_lt(&new_key, &key) {
                    Box::new(
                        Node::new_inner(
                            key,
                            Box::new(Node::new_leaf(new_key, new_value, version)),
                            Box::new(Node::Leaf { key, value, version: written, hash, dirty }),
                            version,
                        ),
                    )
                } else if key_eq(&new_key, &key) {
                    Box::new(Node::Leaf { key, value: new_value, version, hash, dirty })
                } else {
                    Box::new(
                        Node::new_inner(
                            new_key,
                            Box::new(Node::Leaf { key, value, version: written, hash, dirty }),
                            Box::new(Node::new_leaf(new_key, new_value, version)),
                            version,
                        ),
                    )
                }
            },
        };
        Node::update_height(&mut grown);
        Node::balance(grown)
    }
}

} // verus!
