//! Rotations, and the rebalancing of a node whose subtrees differ in height
//! by two.

use crate::node::{max_height, Node, Subtree};
use crate::order::{lemma_lt_transitive, lemma_lt_trichotomy, lt, total_order};
use vstd::pervasive::unreached;
use vstd::prelude::*;

verus! {

impl<K, V> Node<K, V> {
    /// The left child of an inner node, where it has one that is an inner
    /// node itself.
    pub open spec fn left_inner(self) -> bool {
        self matches Node::Inner { left: Some(l), .. } && (*l) is Inner
    }

    /// The right child of an inner node, where it has one that is an inner
    /// node itself.
    pub open spec fn right_inner(self) -> bool {
        self matches Node::Inner { right: Some(r), .. } && (*r) is Inner
    }

    /// The right rotation: the left child becomes the root, the old root its
    /// right child, and the left child's former right subtree the old root's
    /// left subtree. Both nodes are refreshed, the lower one first. A node
    /// without an inner left child is left as it is.
    pub open spec fn rotated_right(self) -> Self {
        match self {
            Node::Inner { left: Some(l), .. } => match *l {
                Node::Inner { right: b, .. } => (*l).with_right(
                    Some(Box::new(self.with_left(b).refreshed())),
                ).refreshed(),
                Node::Leaf { .. } => self,
            },
            _ => self,
        }
    }

    /// The left rotation, the mirror of the right one.
    pub open spec fn rotated_left(self) -> Self {
        match self {
            Node::Inner { right: Some(r), .. } => match *r {
                Node::Inner { left: b, .. } => (*r).with_left(
                    Some(Box::new(self.with_right(b).refreshed())),
                ).refreshed(),
                Node::Leaf { .. } => self,
            },
            _ => self,
        }
    }

    /// What restores the balance of a node whose left subtree is too high:
    /// a right rotation, after a left rotation of the left child where that
    /// child's right subtree is the higher one.
    pub open spec fn rotated_left_right(self) -> Self {
        match self {
            Node::Inner { left: Some(l), .. } => match *l {
                Node::Inner { left: ll, right: lr, .. } => if Self::cached_height(lr)
                    > Self::cached_height(ll) {
                    self.with_left(Some(Box::new(l.rotated_left()))).refreshed().rotated_right()
                } else {
                    self.rotated_right()
                },
                Node::Leaf { .. } => self,
            },
            _ => self,
        }
    }

    /// What restores the balance of a node whose right subtree is too high.
    pub open spec fn rotated_right_left(self) -> Self {
        match self {
            Node::Inner { right: Some(r), .. } => match *r {
                Node::Inner { left: rl, right: rr, .. } => if Self::cached_height(rl)
                    > Self::cached_height(rr) {
                    self.with_right(Some(Box::new(r.rotated_right()))).refreshed().rotated_left()
                } else {
                    self.rotated_left()
                },
                Node::Leaf { .. } => self,
            },
            _ => self,
        }
    }

    /// The node with its balance restored: rotated where the heights of its
    /// subtrees differ by two, and as it is otherwise.
    pub open spec fn rebalanced(self) -> Self {
        if self.balance_factor() == 2 {
            self.rotated_left_right()
        } else if self.balance_factor() == -2 {
            self.rotated_right_left()
        } else {
            self
        }
    }

    /// No subtree of the children of the node's left child, nor its own right
    /// subtree, records a height so great that a rotation would overflow.
    pub open spec fn right_rotation_fits(self) -> bool {
        self matches Node::Inner { left: Some(l), right: c, .. } && (*l) matches Node::Inner {
            left: a,
            right: b,
            ..
        } && Self::cached_height(a) < 254 && Self::cached_height(b) < 254 && Self::cached_height(c)
            < 254
    }

    /// The mirror of `right_rotation_fits`.
    pub open spec fn left_rotation_fits(self) -> bool {
        self matches Node::Inner { left: a, right: Some(r), .. } && (*r) matches Node::Inner {
            left: b,
            right: c,
            ..
        } && Self::cached_height(a) < 254 && Self::cached_height(b) < 254 && Self::cached_height(c)
            < 254
    }

    /// Every inner node records its height, the subtrees of the node are
    /// balanced, and their heights differ by at most two: the state of a
    /// node after an insertion below it, before its balance is restored.
    pub open spec fn near_balanced(self) -> bool {
        &&& self.heights_cached()
        &&& self matches Node::Inner { left, right, .. } ==> {
            &&& Self::balanced_opt(left)
            &&& Self::balanced_opt(right)
            &&& Self::height_opt(left) <= Self::height_opt(right) + 2
            &&& Self::height_opt(right) <= Self::height_opt(left) + 2
        }
    }

    /// A subtree whose inner nodes record their heights records its own.
    pub proof fn lemma_cached_height(t: Subtree<K, V>)
        requires
            Self::heights_cached_opt(t),
        ensures
            Self::cached_height(t) == Self::height_opt(t),
    {
    }

    /// What a right rotation makes of a node whose parts record their
    /// heights: the shape of the result and the heights in it.
    pub proof fn lemma_rotated_right_shape(self)
        requires
            self.right_rotation_fits(),
            Self::heights_cached_opt((*self->left->0)->left),
            Self::heights_cached_opt((*self->left->0)->right),
            Self::heights_cached_opt(self->right),
        ensures
            ({
                let a = (*self->left->0)->left;
                let b = (*self->left->0)->right;
                let c = self->right;
                let r = self.rotated_right();
                &&& r is Inner
                &&& r->left == a
                &&& r->right is Some
                &&& r->Inner_key == (*self->left->0)->Inner_key
                &&& (*r->right->0) is Inner
                &&& (*r->right->0)->left == b
                &&& (*r->right->0)->right == c
                &&& (*r->right->0)->Inner_key == self->Inner_key
                &&& r.heights_cached()
                &&& Self::height_opt(r->right) == 1 + max_height(
                    Self::height_opt(b),
                    Self::height_opt(c),
                )
                &&& r.height_of() == 1 + max_height(
                    Self::height_opt(a),
                    Self::height_opt(r->right),
                )
                &&& Self::balanced_opt(r->right) == (Self::balanced_opt(b) && Self::balanced_opt(c)
                    && Self::height_opt(b) <= Self::height_opt(c) + 1 && Self::height_opt(c)
                    <= Self::height_opt(b) + 1)
                &&& r.balanced() == (Self::balanced_opt(a) && Self::balanced_opt(r->right)
                    && Self::height_opt(a) <= Self::height_opt(r->right) + 1 && Self::height_opt(
                    r->right,
                ) <= Self::height_opt(a) + 1)
            }),
    {
        let a = (*self->left->0)->left;
        let b = (*self->left->0)->right;
        let c = self->right;
        Self::lemma_cached_height(a);
        Self::lemma_cached_height(b);
        Self::lemma_cached_height(c);
        let low = self.with_left(b).refreshed();
        assert(low.heights_cached());
        assert(low.height_of() == 1 + max_height(Self::height_opt(b), Self::height_opt(c)));
        Self::lemma_cached_height(Some(Box::new(low)));
    }

    /// What a left rotation makes of a node whose parts record their heights.
    pub proof fn lemma_rotated_left_shape(self)
        requires
            self.left_rotation_fits(),
            Self::heights_cached_opt(self->left),
            Self::heights_cached_opt((*self->right->0)->left),
            Self::heights_cached_opt((*self->right->0)->right),
        ensures
            ({
                let a = self->left;
                let b = (*self->right->0)->left;
                let c = (*self->right->0)->right;
                let r = self.rotated_left();
                &&& r is Inner
                &&& r->right == c
                &&& r->left is Some
                &&& r->Inner_key == (*self->right->0)->Inner_key
                &&& (*r->left->0) is Inner
                &&& (*r->left->0)->left == a
                &&& (*r->left->0)->right == b
                &&& (*r->left->0)->Inner_key == self->Inner_key
                &&& r.heights_cached()
                &&& Self::height_opt(r->left) == 1 + max_height(
                    Self::height_opt(a),
                    Self::height_opt(b),
                )
                &&& r.height_of() == 1 + max_height(
                    Self::height_opt(r->left),
                    Self::height_opt(c),
                )
                &&& Self::balanced_opt(r->left) == (Self::balanced_opt(a) && Self::balanced_opt(b)
                    && Self::height_opt(a) <= Self::height_opt(b) + 1 && Self::height_opt(b)
                    <= Self::height_opt(a) + 1)
                &&& r.balanced() == (Self::balanced_opt(r->left) && Self::balanced_opt(c)
                    && Self::height_opt(r->left) <= Self::height_opt(c) + 1 && Self::height_opt(c)
                    <= Self::height_opt(r->left) + 1)
            }),
    {
        let a = self->left;
        let b = (*self->right->0)->left;
        let c = (*self->right->0)->right;
        Self::lemma_cached_height(a);
        Self::lemma_cached_height(b);
        Self::lemma_cached_height(c);
        let low = self.with_right(b).refreshed();
        assert(low.heights_cached());
        assert(low.height_of() == 1 + max_height(Self::height_opt(a), Self::height_opt(b)));
        Self::lemma_cached_height(Some(Box::new(low)));
    }

    /// A node whose left subtree is two higher than its right one, with
    /// balanced subtrees, is balanced again after `rotated_left_right`, and
    /// as high as before or one lower. The rotations that this takes fit.
    pub proof fn lemma_rotated_left_right_shape(self)
        requires
            self.near_balanced(),
            self.balance_factor() == 2,
        ensures
            self.left_inner(),
            ({
                let l = *self->left->0;
                if Self::cached_height(l->right) > Self::cached_height(l->left) {
                    let turned = self.with_left(Some(Box::new(l.rotated_left())));
                    &&& l.left_rotation_fits()
                    &&& Self::cached_height(turned->left) < u8::MAX
                    &&& Self::cached_height(turned->right) < u8::MAX
                    &&& turned.refreshed().right_rotation_fits()
                } else {
                    self.right_rotation_fits()
                }
            }),
            self.rotated_left_right().heights_cached(),
            self.rotated_left_right().balanced(),
            self.rotated_left_right().height_of() == self.height_of()
                || self.rotated_left_right().height_of() + 1 == self.height_of(),
    {
        let l = *self->left->0;
        let c = self->right;
        Self::lemma_cached_height(self->left);
        Self::lemma_cached_height(c);
        assert(l is Inner);
        assert(l.heights_cached() && l.balanced());
        let ll = l->left;
        let lr = l->right;
        Self::lemma_cached_height(ll);
        Self::lemma_cached_height(lr);
        if Self::cached_height(lr) > Self::cached_height(ll) {
            let pivot = *lr->0;
            assert(pivot is Inner);
            assert(pivot.heights_cached() && pivot.balanced());
            Self::lemma_cached_height(pivot->left);
            Self::lemma_cached_height(pivot->right);
            l.lemma_rotated_left_shape();
            let turned = self.with_left(Some(Box::new(l.rotated_left())));
            Self::lemma_cached_height(turned->left);
            Self::lemma_cached_height((*turned->left->0)->left);
            turned.refreshed().lemma_rotated_right_shape();
        } else {
            self.lemma_rotated_right_shape();
        }
    }

    /// The mirror of `lemma_rotated_left_right_shape`.
    pub proof fn lemma_rotated_right_left_shape(self)
        requires
            self.near_balanced(),
            self.balance_factor() == -2,
        ensures
            self.right_inner(),
            ({
                let r = *self->right->0;
                if Self::cached_height(r->left) > Self::cached_height(r->right) {
                    let turned = self.with_right(Some(Box::new(r.rotated_right())));
                    &&& r.right_rotation_fits()
                    &&& Self::cached_height(turned->left) < u8::MAX
                    &&& Self::cached_height(turned->right) < u8::MAX
                    &&& turned.refreshed().left_rotation_fits()
                } else {
                    self.left_rotation_fits()
                }
            }),
            self.rotated_right_left().heights_cached(),
            self.rotated_right_left().balanced(),
            self.rotated_right_left().height_of() == self.height_of()
                || self.rotated_right_left().height_of() + 1 == self.height_of(),
    {
        let r = *self->right->0;
        let a = self->left;
        Self::lemma_cached_height(self->right);
        Self::lemma_cached_height(a);
        assert(r is Inner);
        assert(r.heights_cached() && r.balanced());
        let rl = r->left;
        let rr = r->right;
        Self::lemma_cached_height(rl);
        Self::lemma_cached_height(rr);
        if Self::cached_height(rl) > Self::cached_height(rr) {
            let pivot = *rl->0;
            assert(pivot is Inner);
            assert(pivot.heights_cached() && pivot.balanced());
            Self::lemma_cached_height(pivot->left);
            Self::lemma_cached_height(pivot->right);
            r.lemma_rotated_right_shape();
            let turned = self.with_right(Some(Box::new(r.rotated_right())));
            Self::lemma_cached_height(turned->right);
            Self::lemma_cached_height((*turned->right->0)->right);
            turned.refreshed().lemma_rotated_left_shape();
        } else {
            self.lemma_rotated_left_shape();
        }
    }

    /// Rebalancing a node whose subtrees are balanced and differ in height
    /// by at most two gives a balanced node that records its height and is
    /// as high as before or one lower; a balanced node is left as it is.
    pub proof fn lemma_rebalanced_shape(self)
        requires
            self.near_balanced(),
        ensures
            self.rebalanced().heights_cached(),
            self.rebalanced().balanced(),
            self.rebalanced().height_of() == self.height_of() || self.rebalanced().height_of() + 1
                == self.height_of(),
            self.balanced() ==> self.rebalanced() == self,
    {
        if self is Inner {
            Self::lemma_cached_height(self->left);
            Self::lemma_cached_height(self->right);
            if self.balance_factor() == 2 {
                self.lemma_rotated_left_right_shape();
            } else if self.balance_factor() == -2 {
                self.lemma_rotated_right_left_shape();
            }
        }
    }

    pub(crate) fn rotate_right(root: Box<Node<K, V>>) -> (res: Box<Node<K, V>>)
        requires
            root.right_rotation_fits(),
        ensures
            *res == root.rotated_right(),
    {
        match *root {
            Node::Leaf { .. } => unreached(),
            Node::Inner { left: root_left, right, key, hash, height, version, dirty } => {
                match *root_left.unwrap() {
                    Node::Leaf { .. } => unreached(),
                    Node::Inner {
                        left: a,
                        right: b,
                        key: pivot_key,
                        hash: pivot_hash,
                        height: pivot_height,
                        version: pivot_version,
                        dirty: pivot_dirty,
                    } => {
                        let mut low = Box::new(
                            Node::Inner { left: b, right, key, hash, height, version, dirty },
                        );
                        Node::update_height(&mut low);
                        let mut r = Box::new(
                            Node::Inner {
                                left: a,
                                right: Some(low),
                                key: pivot_key,
                                hash: pivot_hash,
                                height: pivot_height,
                                version: pivot_version,
                                dirty: pivot_dirty,
                            },
                        );
                        Node::update_height(&mut r);
                        r
                    },
                }
            },
        }
    }

    pub(crate) fn rotate_left(root: Box<Node<K, V>>) -> (res: Box<Node<K, V>>)
        requires
            root.left_rotation_fits(),
        ensures
            *res == root.rotated_left(),
    {
        match *root {
            Node::Leaf { .. } => unreached(),
            Node::Inner { left, right: root_right, key, hash, height, version, dirty } => {
                match *root_right.unwrap() {
                    Node::Leaf { .. } => unreached(),
                    Node::Inner {
                        left: b,
                        right: c,
                        key: pivot_key,
                        hash: pivot_hash,
                        height: pivot_height,
                        version: pivot_version,
                        dirty: pivot_dirty,
                    } => {
                        let mut low = Box::new(
                            Node::Inner { left, right: b, key, hash, height, version, dirty },
                        );
                        Node::update_height(&mut low);
                        let mut r = Box::new(
                            Node::Inner {
                                left: Some(low),
                                right: c,
                                key: pivot_key,
                                hash: pivot_hash,
                                height: pivot_height,
                                version: pivot_version,
                                dirty: pivot_dirty,
                            },
                        );
                        Node::update_height(&mut r);
                        r
                    },
                }
            },
        }
    }

    pub(crate) fn rotate_left_right(root: Box<Node<K, V>>) -> (res: Box<Node<K, V>>)
        requires
            root.near_balanced(),
            root.balance_factor() == 2,
        ensures
            *res == root.rotated_left_right(),
    {
        proof {
            root.lemma_rotated_left_right_shape();
        }
        match *root {
            Node::Leaf { .. } => unreached(),
            Node::Inner { left: root_left, right, key, hash, height, version, dirty } => {
                let l = root_left.unwrap();
                let lower_first = match &*l {
                    Node::Leaf { .. } => unreached(),
                    Node::Inner { left, right, .. } => Node::get_height(right) > Node::get_height(
                        left,
                    ),
                };
                if lower_first {
                    let rotated_root = Node::rotate_left(l);
                    let mut root = Box::new(
                        Node::Inner {
                            left: Some(rotated_root),
                            right,
                            key,
                            hash,
                            height,
                            version,
                            dirty,
                        },
                    );
                    Node::update_height(&mut root);
                    Node::rotate_right(root)
                } else {
                    Node::rotate_right(
                        Box::new(
                            Node::Inner { left: Some(l), right, key, hash, height, version, dirty },
                        ),
                    )
                }
            },
        }
    }

    pub(crate) fn rotate_right_left(root: Box<Node<K, V>>) -> (res: Box<Node<K, V>>)
        requires
            root.near_balanced(),
            root.balance_factor() == -2,
        ensures
            *res == root.rotated_right_left(),
    {
        proof {
            root.lemma_rotated_right_left_shape();
        }
        match *root {
            Node::Leaf { .. } => unreached(),
            Node::Inner { left, right: root_right, key, hash, height, version, dirty } => {
                let r = root_right.unwrap();
                let lower_first = match &*r {
                    Node::Leaf { .. } => unreached(),
                    Node::Inner { left, right, .. } => Node::get_height(left) > Node::get_height(
                        right,
                    ),
                };
                if lower_first {
                    let rotated_root = Node::rotate_right(r);
                    let mut root = Box::new(
                        Node::Inner {
                            left,
                            right: Some(rotated_root),
                            key,
                            hash,
                            height,
                            version,
                            dirty,
                        },
                    );
                    Node::update_height(&mut root);
                    Node::rotate_left(root)
                } else {
                    Node::rotate_left(
                        Box::new(
                            Node::Inner { left, right: Some(r), key, hash, height, version, dirty },
                        ),
                    )
                }
            },
        }
    }

    /// Restores the balance of a node whose subtrees are balanced and differ
    /// in height by at most two.
    pub(crate) fn balance(root: Box<Node<K, V>>) -> (res: Box<Node<K, V>>)
        requires
            root.near_balanced(),
        ensures
            *res == root.rebalanced(),
    {
        let height_diff = Node::height_difference(&root);
        if height_diff >= -1 && height_diff <= 1 {
            return root;
        }
        proof {
            if *root is Inner {
                Self::lemma_cached_height((*root)->left);
                Self::lemma_cached_height((*root)->right);
            }
        }
        if height_diff == 2 {
            Node::rotate_left_right(root)
        } else {
            Node::rotate_right_left(root)
        }
    }
}

impl<K: Ord, V> Node<K, V> {
    /// A right rotation keeps the search-tree order and the entries, and
    /// leaves every inner node with two subtrees.
    pub proof fn lemma_rotated_right_ordered(self)
        requires
            total_order::<K>(),
            self.full(),
            self.ordered(),
        ensures
            self.rotated_right().full(),
            self.rotated_right().ordered(),
            self.rotated_right().as_map() == self.as_map(),
    {
        if self.left_inner() {
            let l = *self->left->0;
            let a = l->left;
            let b = l->right;
            let c = self->right;
            let root_key = self->Inner_key;
            let pivot_key = l->Inner_key;
            let low = self.with_left(b).refreshed();
            let r = self.rotated_right();
            assert(l.ordered() && l.full());
            let kb = (*b->0).lemma_full_has_entry();
            assert(Self::map_opt(b).dom().contains(kb));
            assert(Self::map_opt(self->left).dom().contains(kb));
            lemma_lt_trichotomy(kb, pivot_key);
            if kb != pivot_key {
                lemma_lt_transitive(pivot_key, kb, root_key);
            }
            assert(lt(pivot_key, root_key));
            assert forall|k: K| #[trigger] Self::map_opt(b).dom().contains(k) implies lt(
                k,
                root_key,
            ) by {
                assert(Self::map_opt(self->left).dom().contains(k));
            }
            assert(low.ordered() && low.full());
            assert(low.as_map() =~= Self::map_opt(b).union_prefer_right(Self::map_opt(c)));
            assert forall|k: K| #[trigger] low.as_map().dom().contains(k) implies !lt(
                k,
                pivot_key,
            ) by {
                if Self::map_opt(c).dom().contains(k) && lt(k, pivot_key) {
                    lemma_lt_transitive(k, pivot_key, root_key);
                }
            }
            assert(r->right == Some(Box::new(low)));
            assert(r->left == a);
            assert(r.ordered());
            assert(r.full());
            assert(r.as_map() =~= self.as_map());
        }
    }

    /// A left rotation keeps the search-tree order and the entries, and
    /// leaves every inner node with two subtrees.
    pub proof fn lemma_rotated_left_ordered(self)
        requires
            total_order::<K>(),
            self.full(),
            self.ordered(),
        ensures
            self.rotated_left().full(),
            self.rotated_left().ordered(),
            self.rotated_left().as_map() == self.as_map(),
    {
        if self.right_inner() {
            let r0 = *self->right->0;
            let a = self->left;
            let b = r0->left;
            let c = r0->right;
            let root_key = self->Inner_key;
            let pivot_key = r0->Inner_key;
            let low = self.with_right(b).refreshed();
            let r = self.rotated_left();
            assert(r0.ordered() && r0.full());
            let kb = (*b->0).lemma_full_has_entry();
            assert(Self::map_opt(b).dom().contains(kb));
            assert(Self::map_opt(self->right).dom().contains(kb));
            lemma_lt_trichotomy(kb, root_key);
            if kb != root_key {
                lemma_lt_transitive(root_key, kb, pivot_key);
            }
            assert(lt(root_key, pivot_key));
            assert forall|k: K| #[trigger] Self::map_opt(b).dom().contains(k) implies !lt(
                k,
                root_key,
            ) by {
                assert(Self::map_opt(self->right).dom().contains(k));
            }
            assert(low.ordered() && low.full());
            assert(low.as_map() =~= Self::map_opt(a).union_prefer_right(Self::map_opt(b)));
            assert forall|k: K| #[trigger] low.as_map().dom().contains(k) implies lt(
                k,
                pivot_key,
            ) by {
                if !Self::map_opt(b).dom().contains(k) {
                    lemma_lt_transitive(k, root_key, pivot_key);
                }
            }
            assert(r->left == Some(Box::new(low)));
            assert(r->right == c);
            assert(r.ordered());
            assert(r.full());
            assert(r.as_map() =~= self.as_map());
        }
    }

    /// Restoring the balance keeps the search-tree order and the entries,
    /// and leaves every inner node with two subtrees.
    pub proof fn lemma_rebalanced_ordered(self)
        requires
            total_order::<K>(),
            self.full(),
            self.ordered(),
        ensures
            self.rebalanced().full(),
            self.rebalanced().ordered(),
            self.rebalanced().as_map() == self.as_map(),
    {
        if self.balance_factor() == 2 {
            if self.left_inner() {
                let l = *self->left->0;
                if Self::cached_height(l->right) > Self::cached_height(l->left) {
                    assert(l.ordered() && l.full());
                    l.lemma_rotated_left_ordered();
                    let plain = self.with_left(Some(Box::new(l.rotated_left())));
                    assert(Self::map_opt(plain->left) == Self::map_opt(self->left));
                    assert(Self::ordered_opt(plain->left) && Self::full_opt(plain->left));
                    assert(plain.ordered() && plain.full());
                    let turned = plain.refreshed();
                    assert(turned.ordered() && turned.full());
                    assert(turned.as_map() == self.as_map());
                    turned.lemma_rotated_right_ordered();
                } else {
                    self.lemma_rotated_right_ordered();
                }
            }
        } else if self.balance_factor() == -2 {
            if self.right_inner() {
                let r = *self->right->0;
                if Self::cached_height(r->left) > Self::cached_height(r->right) {
                    assert(r.ordered() && r.full());
                    r.lemma_rotated_right_ordered();
                    let plain = self.with_right(Some(Box::new(r.rotated_right())));
                    assert(Self::map_opt(plain->right) == Self::map_opt(self->right));
                    assert(Self::ordered_opt(plain->right) && Self::full_opt(plain->right));
                    assert(plain.ordered() && plain.full());
                    let turned = plain.refreshed();
                    assert(turned.ordered() && turned.full());
                    assert(turned.as_map() == self.as_map());
                    turned.lemma_rotated_left_ordered();
                } else {
                    self.lemma_rotated_left_ordered();
                }
            }
        }
    }
}

} // verus!
