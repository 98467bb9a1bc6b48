//! The nodes of the tree and what is said of them: height, contents, and the
//! invariants of a search tree that is balanced by height.

use crate::order::lt;
use vstd::prelude::*;

verus! {

/// A subtree: a node, or nothing where the subtree is empty.
pub type Subtree<K, V> = Option<Box<Node<K, V>>>;

/// A node of the tree. A leaf holds one entry. An inner node holds no entry:
/// its key routes a lookup to one of its two subtrees.
pub enum Node<K, V> {
    Leaf {
        key: K,
        value: V,
        /// The version of the tree that wrote this entry.
        version: u32,
        /// The digest of the entry, once computed.
        hash: Option<[u8; 32]>,
        /// Set while `hash` may not be the digest of the entry.
        dirty: bool,
    },
    Inner {
        left: Option<Box<Node<K, V>>>,
        right: Option<Box<Node<K, V>>>,
        /// The split key: keys before it are on the left, the others on the right.
        key: K,
        /// The digest of the subtree, once computed.
        hash: Option<[u8; 32]>,
        /// One more than the greater height of the two subtrees.
        height: u8,
        /// The version of the tree that made this node.
        version: u32,
        /// Set while `hash` may not be the digest of the subtree.
        dirty: bool,
    },
}

/// The greater of two heights.
pub open spec fn max_height(a: nat, b: nat) -> nat {
    if a >= b {
        a
    } else {
        b
    }
}

impl<K, V> Node<K, V> {
    /// The height that the root of `t` records: 0 for a leaf and for the
    /// empty subtree.
    pub open spec fn cached_height(t: Subtree<K, V>) -> u8 {
        match t {
            Some(node) => match *node {
                Node::Inner { height, .. } => height,
                Node::Leaf { .. } => 0,
            },
            None => 0,
        }
    }

    /// The height of the node as its shape gives it: 0 for a leaf, and for
    /// an inner node one more than the greater height of its subtrees.
    pub open spec fn height_of(self) -> nat
        decreases self,
    {
        match self {
            Node::Leaf { .. } => 0,
            Node::Inner { left, right, .. } => 1 + max_height(
                Self::height_opt(left),
                Self::height_opt(right),
            ),
        }
    }

    /// The height of a subtree; the empty one has height 0.
    pub open spec fn height_opt(t: Subtree<K, V>) -> nat
        decreases t,
    {
        match t {
            Some(node) => node.height_of(),
            None => 0,
        }
    }

    /// The entries below the node: each leaf's key with its value.
    pub open spec fn as_map(self) -> Map<K, V>
        decreases self,
    {
        match self {
            Node::Leaf { key, value, .. } => Map::empty().insert(key, value),
            Node::Inner { left, right, .. } => Self::map_opt(left).union_prefer_right(
                Self::map_opt(right),
            ),
        }
    }

    /// The entries of a subtree.
    pub open spec fn map_opt(t: Subtree<K, V>) -> Map<K, V>
        decreases t,
    {
        match t {
            Some(node) => node.as_map(),
            None => Map::empty(),
        }
    }

    /// Every inner node has both of its subtrees.
    pub open spec fn full(self) -> bool
        decreases self,
    {
        match self {
            Node::Leaf { .. } => true,
            Node::Inner { left, right, .. } => {
                &&& left is Some
                &&& right is Some
                &&& Self::full_opt(left)
                &&& Self::full_opt(right)
            },
        }
    }

    pub open spec fn full_opt(t: Subtree<K, V>) -> bool
        decreases t,
    {
        match t {
            Some(node) => node.full(),
            None => true,
        }
    }

    /// A node whose inner nodes have both subtrees holds an entry.
    pub proof fn lemma_full_has_entry(self) -> (k: K)
        requires
            self.full(),
        ensures
            self.as_map().dom().contains(k),
        decreases self,
    {
        match self {
            Node::Leaf { key, .. } => key,
            Node::Inner { right, .. } => (*right->0).lemma_full_has_entry(),
        }
    }

    /// Every inner node records the height that its shape gives it.
    pub open spec fn heights_cached(self) -> bool
        decreases self,
    {
        match self {
            Node::Leaf { .. } => true,
            Node::Inner { left, right, height, .. } => {
                &&& Self::heights_cached_opt(left)
                &&& Self::heights_cached_opt(right)
                &&& height == 1 + max_height(Self::height_opt(left), Self::height_opt(right))
            },
        }
    }

    pub open spec fn heights_cached_opt(t: Subtree<K, V>) -> bool
        decreases t,
    {
        match t {
            Some(node) => node.heights_cached(),
            None => true,
        }
    }

    /// At every inner node the heights of the two subtrees differ by at most one.
    pub open spec fn balanced(self) -> bool
        decreases self,
    {
        match self {
            Node::Leaf { .. } => true,
            Node::Inner { left, right, .. } => {
                &&& Self::balanced_opt(left)
                &&& Self::balanced_opt(right)
                &&& Self::height_opt(left) <= Self::height_opt(right) + 1
                &&& Self::height_opt(right) <= Self::height_opt(left) + 1
            },
        }
    }

    pub open spec fn balanced_opt(t: Subtree<K, V>) -> bool
        decreases t,
    {
        match t {
            Some(node) => node.balanced(),
            None => true,
        }
    }

    /// The node with `l` as its left subtree; a leaf is left as it is.
    pub open spec fn with_left(self, l: Subtree<K, V>) -> Self {
        match self {
            Node::Inner { left, right, key, hash, height, version, dirty } => Node::Inner {
                left: l,
                right,
                key,
                hash,
                height,
                version,
                dirty,
            },
            Node::Leaf { .. } => self,
        }
    }

    /// The node with `r` as its right subtree; a leaf is left as it is.
    pub open spec fn with_right(self, r: Subtree<K, V>) -> Self {
        match self {
            Node::Inner { left, right, key, hash, height, version, dirty } => Node::Inner {
                left,
                right: r,
                key,
                hash,
                height,
                version,
                dirty,
            },
            Node::Leaf { .. } => self,
        }
    }

    /// The node after its subtrees changed: marked dirty, and an inner node
    /// with its height taken anew from the heights its subtrees record.
    pub open spec fn refreshed(self) -> Self {
        match self {
            Node::Leaf { key, value, version, hash, dirty } => Node::Leaf {
                key,
                value,
                version,
                hash,
                dirty: true,
            },
            Node::Inner { left, right, key, hash, height, version, dirty } => Node::Inner {
                left,
                right,
                key,
                hash,
                height: if Self::cached_height(left) >= Self::cached_height(right) {
                    (Self::cached_height(left) + 1) as u8
                } else {
                    (Self::cached_height(right) + 1) as u8
                },
                version,
                dirty: true,
            },
        }
    }

    /// The height of the left subtree less that of the right one, by the
    /// heights that the subtrees record; 0 for a leaf.
    pub open spec fn balance_factor(self) -> int {
        match self {
            Node::Leaf { .. } => 0,
            Node::Inner { left, right, .. } => Self::cached_height(left) - Self::cached_height(
                right,
            ),
        }
    }

    /// A leaf with the given entry, written by `version`, not yet hashed.
    pub open spec fn leaf(key: K, value: V, version: u32) -> Self {
        Node::Leaf { key, value, version, hash: None, dirty: true }
    }

    /// An inner node of height 1 over two subtrees, made by `version`, not
    /// yet hashed.
    pub open spec fn inner(key: K, left: Self, right: Self, version: u32) -> Self {
        Node::Inner {
            left: Some(Box::new(left)),
            right: Some(Box::new(right)),
            key,
            hash: None,
            height: 1,
            version,
            dirty: true,
        }
    }

    /// A tree of one entry: a leaf written by version 0.
    pub fn new(key: K, value: V) -> (node: Self)
        ensures
            node == Self::leaf(key, value, 0),
    {
        Self::new_leaf(key, value, 0)
    }

    pub(crate) fn new_leaf(key: K, value: V, version: u32) -> (node: Self)
        ensures
            node == Self::leaf(key, value, version),
    {
        Node::Leaf { key: key, value: value, hash: None, version: version, dirty: true }
    }

    pub(crate) fn new_inner(
        key: K,
        left: Box<Node<K, V>>,
        right: Box<Node<K, V>>,
        version: u32,
    ) -> (node: Node<K, V>)
        ensures
            node == Self::inner(key, *left, *right, version),
    {
        Node::Inner {
            key: key,
            left: Some(left),
            right: Some(right),
            hash: None,
            height: 1,
            version: version,
            dirty: true,
        }
    }

    /// The height that the root of a subtree records.
    pub fn height(root: &Option<Box<Node<K, V>>>) -> (h: u8)
        ensures
            h == Self::cached_height(*root),
            Self::heights_cached_opt(*root) ==> h == Self::height_opt(*root),
    {
        match root {
            Some(node) => match &**node {
                Node::Inner { height, .. } => *height,
                Node::Leaf { .. } => 0,
            },
            None => 0,
        }
    }

    pub(crate) fn get_height(root: &Option<Box<Node<K, V>>>) -> (h: u8)
        ensures
            h == Self::cached_height(*root),
    {
        match root.as_ref() {
            None => 0,
            Some(node) => match &**node {
                Node::Leaf { .. } => 0,
                Node::Inner { height, .. } => *height,
            },
        }
    }

    /// Takes the height of an inner node anew from the heights that its
    /// subtrees record, and marks the node dirty.
    pub(crate) fn update_height(root: &mut Box<Node<K, V>>)
        requires
            **old(root) is Inner ==> Self::cached_height((**old(root))->left) < u8::MAX
                && Self::cached_height((**old(root))->right) < u8::MAX,
        ensures
            **final(root) == (**old(root)).refreshed(),
    {
        match &mut **root {
            Node::Inner { left, right, height, dirty, .. } => {
                let l = Self::height(left);
                let r = Self::height(right);
                *height = if l >= r {
                    l + 1
                } else {
                    r + 1
                };
                *dirty = true;
            },
            Node::Leaf { dirty, .. } => {
                *dirty = true;
            },
        }
    }

    /// The height of the left subtree less that of the right one.
    pub(crate) fn height_difference(root: &Box<Node<K, V>>) -> (d: i16)
        ensures
            d == root.balance_factor(),
    {
        match &**root {
            Node::Leaf { .. } => 0,
            Node::Inner { left, right, .. } => {
                let l = Self::get_height(left);
                let r = Self::get_height(right);
                (l as i16) - (r as i16)
            },
        }
    }
}

impl<K: Ord, V> Node<K, V> {
    /// The search-tree order: at every inner node the keys of the entries on
    /// the left come before the split key, and no key of an entry on the
    /// right does.
    pub open spec fn ordered(self) -> bool
        decreases self,
    {
        match self {
            Node::Leaf { .. } => true,
            Node::Inner { left, right, key, .. } => {
                &&& Self::ordered_opt(left)
                &&& Self::ordered_opt(right)
                &&& forall|k: K| #[trigger] Self::map_opt(left).dom().contains(k) ==> lt(k, key)
                &&& forall|k: K| #[trigger] Self::map_opt(right).dom().contains(k) ==> !lt(k, key)
            },
        }
    }

    pub open spec fn ordered_opt(t: Subtree<K, V>) -> bool
        decreases t,
    {
        match t {
            Some(node) => node.ordered(),
            None => true,
        }
    }

    /// The invariants of the tree: every inner node has two subtrees, it is
    /// a search tree, every inner node records its height, and the tree is
    /// balanced by height.
    pub open spec fn wf(self) -> bool {
        &&& self.full()
        &&& self.ordered()
        &&& self.heights_cached()
        &&& self.balanced()
    }

    pub open spec fn wf_opt(t: Subtree<K, V>) -> bool {
        match t {
            Some(node) => node.wf(),
            None => true,
        }
    }
}

} // verus!
