//! Lookup: the descent from the root to the one leaf that may hold a key.

use crate::node::{Node, Subtree};
use crate::order::{key_eq, key_lt, lt, total_order};
use vstd::prelude::*;

verus! {

impl<K: Ord, V> Node<K, V> {
    /// The entry that the descent for `search_key` ends at: at an inner node
    /// it goes left where the key comes before the split key and right
    /// otherwise; at a leaf it finds the entry where the keys are equal.
    pub open spec fn lookup(self, search_key: K) -> Option<(K, V)>
        decreases self,
    {
        match self {
            Node::Leaf { key, value, .. } => if key == search_key {
                Some((key, value))
            } else {
                None
            },
            Node::Inner { key, left, right, .. } => if lt(search_key, key) {
                Self::lookup_opt(left, search_key)
            } else {
                Self::lookup_opt(right, search_key)
            },
        }
    }

    /// The descent in a subtree; it finds nothing in the empty one.
    pub open spec fn lookup_opt(t: Subtree<K, V>, search_key: K) -> Option<(K, V)>
        decreases t,
    {
        match t {
            Some(node) => node.lookup(search_key),
            None => None,
        }
    }

    /// In a search tree the descent finds the entry of a key exactly where
    /// the tree holds one.
    pub proof fn lemma_lookup(self, search_key: K)
        requires
            total_order::<K>(),
            self.ordered(),
        ensures
            self.lookup(search_key) == if self.as_map().dom().contains(search_key) {
                Some((search_key, self.as_map()[search_key]))
            } else {
                None
            },
        decreases self,
    {
        match self {
            Node::Leaf { .. } => {},
            Node::Inner { key, left, right, .. } => {
                if lt(search_key, key) {
                    assert(!Self::map_opt(right).dom().contains(search_key));
                    if left is Some {
                        (*left->0).lemma_lookup(search_key);
                    }
                } else {
                    assert(!Self::map_opt(left).dom().contains(search_key));
                    if right is Some {
                        (*right->0).lemma_lookup(search_key);
                    }
                }
            },
        }
    }

    /// Looks `search_key` up below `root`. The tree is read, not changed.
    pub fn search<'a>(search_key: &K, root: &'a Box<Node<K, V>>) -> (res: Option<(&'a K, &'a V)>)
        requires
            total_order::<K>(),
        ensures
            res matches Some((k, v)) ==> root.lookup(*search_key) == Some((*k, *v)),
            res is None ==> root.lookup(*search_key) is None,
            root.ordered() ==> (res matches Some((k, v)) ==> *k == *search_key
                && root.as_map().dom().contains(*search_key) && root.as_map()[*search_key] == *v),
            root.ordered() ==> (res is None ==> !root.as_map().dom().contains(*search_key)),
        decreases root,
    {
        proof {
            if root.ordered() {
                root.lemma_lookup(*search_key);
            }
        }
        match &**root {
            Node::Leaf { key, value, .. } => {
                if key_eq(key, search_key) {
                    Some((key, value))
                } else {
                    None
                }
            },
            Node::Inner { key, left, right, .. } => {
                if key_lt(search_key, key) {
                    match left {
                        Some(node) => Node::search(search_key, node),
                        None => None,
                    }
                } else {
                    match right {
                        Some(node) => Node::search(search_key, node),
                        None => None,
                    }
                }
            },
        }
    }
}

} // verus!
