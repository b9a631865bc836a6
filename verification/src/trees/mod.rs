//! The records of a leaf-oriented search tree.
//!
//! A record is in one of three states. Blank: it holds nothing. Leaf: it holds a key and
//! owns the value stored under that key. Inner: it holds a routing key and the addresses
//! of two children; keys below the routing key are found on the left, all others on the
//! right.

pub mod top_down;
pub mod search_tree;
pub mod shape;
pub mod walk;

use vstd::prelude::*;
use crate::allocator::{BlockAllocator, Nodable, NodeAddr};

verus! {

/// The left field of a tree record: nothing, the left child, or the value of a leaf.
#[derive(Debug)]
pub enum TreePtr<V> {
    Null,
    Node(NodeAddr),
    Val(Box<V>),
}

impl<V> Default for TreePtr<V> {
    fn default() -> (ptr: Self)
        ensures
            ptr is Null,
    {
        TreePtr::Null
    }
}

impl<V> TreePtr<V> {
    /// Whether the field holds nothing.
    pub fn is_null(&self) -> (r: bool)
        ensures
            r == (self is Null),
    {
        matches!(self, Self::Null)
    }

    /// Whether the field holds the value of a leaf.
    pub fn is_val(&self) -> (r: bool)
        ensures
            r == (self is Val),
    {
        matches!(self, Self::Val(_))
    }

    /// Whether the field holds the address of a left child.
    pub fn is_node(&self) -> (r: bool)
        ensures
            r == (self is Node),
    {
        matches!(self, Self::Node(_))
    }

    /// The address of the left child.
    pub fn as_node(&self) -> (at: NodeAddr)
        requires
            self is Node,
        ensures
            at == self->Node_0,
    {
        match self {
            Self::Node(at) => *at,
            _ => vstd::pervasive::unreached(),
        }
    }

    /// The value of a leaf.
    pub fn as_val(&self) -> (val: &V)
        requires
            self is Val,
        ensures
            *val == *self->Val_0,
    {
        match self {
            Self::Val(val) => &**val,
            _ => vstd::pervasive::unreached(),
        }
    }

    /// The place of a leaf's value, to put another value there.
    pub fn as_val_mut(&mut self) -> (val: &mut Box<V>)
        requires
            *old(self) is Val,
        ensures
            *val == (*old(self))->Val_0,
            *final(self) == TreePtr::Val(*final(val)),
    {
        match self {
            Self::Val(val) => val,
            _ => vstd::pervasive::unreached(),
        }
    }

    /// The value of a leaf, taken out of the tree.
    pub fn into_val(self) -> (val: V)
        requires
            self is Val,
        ensures
            val == *self->Val_0,
    {
        match self {
            Self::Val(val) => *val,
            _ => vstd::pervasive::unreached(),
        }
    }
}

/// A record of the tree.
#[derive(Debug)]
pub struct TreeNode<K, V> {
    pub key: Option<K>,
    pub right: Option<NodeAddr>,
    pub left: TreePtr<V>,
}

impl<K, V> Default for TreeNode<K, V> {
    fn default() -> (node: Self)
        ensures
            node.key is None,
            node.right is None,
            node.left is Null,
    {
        Self { key: None, right: None, left: TreePtr::Null }
    }
}

impl<K, V> Nodable for TreeNode<K, V> {
    open spec fn link(&self) -> Option<NodeAddr> {
        self.right
    }

    fn next(&self) -> (r: Option<NodeAddr>) {
        self.right
    }

    fn next_mut(&mut self) -> (r: &mut Option<NodeAddr>)
        ensures
            final(self).key == old(self).key,
            final(self).left == old(self).left,
    {
        &mut self.right
    }
}

impl<K, V> TreeNode<K, V> {
    /// Neither a value nor children.
    pub open spec fn blank(&self) -> bool {
        self.left is Null && self.right is None
    }

    /// A value and no children.
    pub open spec fn leaf(&self) -> bool {
        self.left is Val && self.right is None
    }

    /// Two children.
    pub open spec fn inner(&self) -> bool {
        self.left is Node && self.right is Some
    }

    /// Whether the record is blank.
    pub fn is_empty(&self) -> (r: bool)
        ensures
            r == self.blank(),
    {
        self.left.is_null() && self.right.is_none()
    }

    /// Whether the record is a leaf.
    pub fn is_leaf(&self) -> (r: bool)
        ensures
            r == self.leaf(),
    {
        self.left.is_val() && self.right.is_none()
    }

    /// Whether the record is a fork.
    pub fn has_subtrees(&self) -> (r: bool)
        ensures
            r == self.inner(),
    {
        self.left.is_node() && self.right.is_some()
    }

    /// Rotates the fork at `at` to the left, in place: the record at `at` takes the key
    /// and the right subtree of its right child, and the right child goes to its left,
    /// with the old key of `at`, over the old left subtree of `at` and its own old left
    /// subtree. See `Shape::rotated_left` for what that does to a tree.
    pub fn left_rotation(pool: &mut BlockAllocator<TreeNode<K, V>>, at: NodeAddr)
        requires
            old(pool).wf(),
            old(pool)@.contains_key(at),
            old(pool)@[at].inner(),
            old(pool)@.contains_key(old(pool)@[at].right->0),
            old(pool)@[old(pool)@[at].right->0].inner(),
            old(pool)@[at].right->0 != at,
        ensures
            final(pool).wf(),
            final(pool).layout() == old(pool).layout(),
            final(pool)@.dom() == old(pool)@.dom(),
            final(pool)@[at].key == old(pool)@[old(pool)@[at].right->0].key,
            final(pool)@[at].left == TreePtr::<V>::Node(old(pool)@[at].right->0),
            final(pool)@[at].right == old(pool)@[old(pool)@[at].right->0].right,
            final(pool)@[old(pool)@[at].right->0].key == old(pool)@[at].key,
            final(pool)@[old(pool)@[at].right->0].left == old(pool)@[at].left,
            final(pool)@[old(pool)@[at].right->0].right == Some(
                old(pool)@[old(pool)@[at].right->0].left->Node_0,
            ),
            forall|x: NodeAddr|
                old(pool)@.contains_key(x) && x != at && x != old(pool)@[at].right->0
                    ==> #[trigger] final(pool)@[x] == old(pool)@[x],
    {
        let node = pool.node_mut(at);
        let down = node.right.unwrap();
        let mut tmp_node = TreePtr::Node(down);
        core::mem::swap(&mut tmp_node, &mut node.left);
        let mut tmp_key = None;
        core::mem::swap(&mut tmp_key, &mut node.key);

        let child = pool.node_mut(down);
        core::mem::swap(&mut tmp_key, &mut child.key);
        let passed = child.right;
        child.right = Some(child.left.as_node());
        child.left = tmp_node;

        let node = pool.node_mut(at);
        node.key = tmp_key;
        node.right = passed;
        proof {
            assert(final(pool)@.dom() =~= old(pool)@.dom());
        }
    }

    /// Rotates the fork at `at` to the right, in place: the record at `at` takes the key
    /// and the left subtree of its left child, and the left child goes to its right,
    /// with the old key of `at`, over its own old right subtree and the old right
    /// subtree of `at`. See `Shape::rotated_right` for what that does to a tree.
    pub fn right_rotation(pool: &mut BlockAllocator<TreeNode<K, V>>, at: NodeAddr)
        requires
            old(pool).wf(),
            old(pool)@.contains_key(at),
            old(pool)@[at].inner(),
            old(pool)@.contains_key(old(pool)@[at].left->Node_0),
            old(pool)@[old(pool)@[at].left->Node_0].inner(),
            old(pool)@[at].left->Node_0 != at,
        ensures
            final(pool).wf(),
            final(pool).layout() == old(pool).layout(),
            final(pool)@.dom() == old(pool)@.dom(),
            final(pool)@[at].key == old(pool)@[old(pool)@[at].left->Node_0].key,
            final(pool)@[at].left == old(pool)@[old(pool)@[at].left->Node_0].left,
            final(pool)@[at].right == Some(old(pool)@[at].left->Node_0),
            final(pool)@[old(pool)@[at].left->Node_0].key == old(pool)@[at].key,
            final(pool)@[old(pool)@[at].left->Node_0].left == TreePtr::<V>::Node(
                old(pool)@[old(pool)@[at].left->Node_0].right->0,
            ),
            final(pool)@[old(pool)@[at].left->Node_0].right == old(pool)@[at].right,
            forall|x: NodeAddr|
                old(pool)@.contains_key(x) && x != at && x != old(pool)@[at].left->Node_0
                    ==> #[trigger] final(pool)@[x] == old(pool)@[x],
    {
        let node = pool.node_mut(at);
        let down = node.left.as_node();
        let tmp_node = node.right;
        node.right = Some(down);
        let mut tmp_key = None;
        core::mem::swap(&mut tmp_key, &mut node.key);

        let child = pool.node_mut(down);
        core::mem::swap(&mut tmp_key, &mut child.key);
        let mut passed = TreePtr::Node(child.right.unwrap());
        core::mem::swap(&mut passed, &mut child.left);
        child.right = tmp_node;

        let node = pool.node_mut(at);
        node.key = tmp_key;
        node.left = passed;
        proof {
            assert(final(pool)@.dom() =~= old(pool)@.dom());
        }
    }
}

} // verus!
