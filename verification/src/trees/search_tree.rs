//! An ordered map as a leaf-oriented search tree.
//!
//! All values live at the leaves; the records above them carry routing keys only. The
//! records come from a pool that the tree owns. The view of a tree is the map from its
//! keys to their values.

use vstd::prelude::*;
use core::ops::Range;
use vstd::arithmetic::power2::pow2;
use crate::allocator::{BlockAllocator, NodeAddr, PoolLayout};
use crate::order::{key_clone, key_eq, key_le, key_lt, lemma_order, lt, total_order};
use crate::stacks::{BoundedStack, LinkedListStack};
use crate::trees::top_down::{
    building, ceil_log2, floor_log2, lemma_build_done, lemma_build_fork, lemma_build_leaf,
    lemma_build_start, lemma_frames_apart, lemma_frames_few, lemma_halved_height, mid, reversed,
    TreeBuilder,
};
use crate::trees::shape::{lookup, Shape};
use crate::trees::walk::{
    ascending, bindings, fwd_side, in_range, keep, keep_all, lemma_filter_ascending,
    lemma_fwd_fork, lemma_fwd_leaf, lemma_keep_all, lemma_rev_fork, lemma_rev_leaf,
    lemma_side_empty, lemma_sides_start, pull, rev_side, weight, whole, End,
};
use crate::trees::{TreeNode, TreePtr};

verus! {

/// One change to the bindings of a tree: what `insert` or `remove` does to its view.
pub enum Change<K, V> {
    Insert { key: K, value: V },
    Remove { key: K },
}

impl<K, V> Change<K, V> {
    /// The key that the change is about.
    pub open spec fn key(self) -> K {
        match self {
            Change::Insert { key, .. } => key,
            Change::Remove { key } => key,
        }
    }

    /// The bindings after the change.
    pub open spec fn apply(self, bound: Map<K, V>) -> Map<K, V> {
        match self {
            Change::Insert { key, value } => bound.insert(key, value),
            Change::Remove { key } => bound.remove(key),
        }
    }
}

/// The bindings after the changes of `changes` are made in turn.
pub open spec fn bound_after<K, V>(start: Map<K, V>, changes: Seq<Change<K, V>>) -> Map<K, V>
    decreases changes.len(),
{
    if changes.len() == 0 {
        start
    } else {
        changes.last().apply(bound_after(start, changes.drop_last()))
    }
}

/// The last change of `changes` that is about `key`, if there is one.
pub open spec fn last_change<K, V>(changes: Seq<Change<K, V>>, key: K) -> Option<Change<K, V>>
    decreases changes.len(),
{
    if changes.len() == 0 {
        None
    } else if changes.last().key() == key {
        Some(changes.last())
    } else {
        last_change(changes.drop_last(), key)
    }
}

/// The map law: after any inserts and removes, a key is bound to the value that was
/// inserted for it last, unless it was removed after that; a key that no change was
/// about is bound as it was.
pub proof fn lemma_last_change_decides<K, V>(start: Map<K, V>, changes: Seq<Change<K, V>>, key: K)
    ensures
        lookup(bound_after(start, changes), key) == match last_change(changes, key) {
            None => lookup(start, key),
            Some(Change::Insert { value, .. }) => Some(value),
            Some(Change::Remove { .. }) => None,
        },
    decreases changes.len(),
{
    if changes.len() > 0 {
        lemma_last_change_decides(start, changes.drop_last(), key);
    }
}

/// The tree. The record at `root` belongs to it from the start and stays its top record
/// through every insertion and removal; in an empty tree it is blank.
pub struct SearchTree<K, V> {
    allocator: BlockAllocator<TreeNode<K, V>>,
    root: NodeAddr,
    length: usize,
    shape: Ghost<Option<Shape<K, V>>>,
}

impl<K, V> View for SearchTree<K, V> {
    type V = Map<K, V>;

    closed spec fn view(&self) -> Map<K, V> {
        match self.shape@ {
            None => Map::empty(),
            Some(shape) => shape.as_map(),
        }
    }
}

impl<K, V> SearchTree<K, V> where K: Ord + Clone {
    /// The invariant: keys are totally ordered; the pool holds the records of the tree
    /// and no others; they are linked into a tree in which no record occurs twice, every
    /// fork routes by its key, and there are `length` leaves.
    pub closed spec fn wf(&self) -> bool {
        &&& total_order::<K>()
        &&& self.allocator.wf()
        &&& match self.shape@ {
            None => {
                &&& self.length == 0
                &&& self.allocator@.dom() =~= set![self.root]
                &&& self.allocator@[self.root].key is None
                &&& self.allocator@[self.root].blank()
            },
            Some(shape) => {
                &&& shape.at() == self.root
                &&& shape.distinct()
                &&& shape.ordered()
                &&& shape.held_by(self.allocator@)
                &&& self.allocator@.dom() =~= shape.addrs()
                &&& self.length == shape.leaves()
            },
        }
    }

    /// The number of records on the longest way from the root to a leaf; 0 in an empty
    /// tree.
    pub closed spec fn height(&self) -> nat {
        match self.shape@ {
            None => 0,
            Some(shape) => shape.height(),
        }
    }

    /// The address of the top record.
    pub closed spec fn root(&self) -> NodeAddr {
        self.root
    }

    /// The records as they are linked; `None` for an empty tree.
    pub closed spec fn shape(&self) -> Option<Shape<K, V>> {
        self.shape@
    }

    /// The bookkeeping of the pool that the records come from.
    pub closed spec fn pool(&self) -> PoolLayout {
        self.allocator.layout()
    }

    /// What the view, the bindings in order and the height say, they say of the shape:
    /// an ordered tree with the root at its top, in which no record stands twice.
    pub proof fn lemma_shape(&self)
        requires
            self.wf(),
        ensures
            match self.shape() {
                None => {
                    &&& self@ == Map::<K, V>::empty()
                    &&& self.entries() == Seq::<(K, V)>::empty()
                    &&& self.height() == 0
                },
                Some(shape) => {
                    &&& shape.at() == self.root()
                    &&& shape.ordered()
                    &&& shape.distinct()
                    &&& self@ == shape.as_map()
                    &&& self.entries() == shape.entries()
                    &&& self.height() == shape.height()
                },
            },
    {
    }

    /// The number of records of its pool that the tree has out.
    pub closed spec fn records(&self) -> nat {
        self.allocator@.dom().len()
    }

    /// A tree holds on to no record that it does not need: an empty tree has its root
    /// out and nothing else, and a tree of `n` bindings has `n` leaves and `n - 1` forks
    /// out.
    pub proof fn lemma_records(&self)
        requires
            self.wf(),
        ensures
            self.records() == if self@.len() == 0 {
                1
            } else {
                2 * self@.len() - 1
            },
    {
        match self.shape@ {
            None => {},
            Some(shape) => {
                shape.lemma_size();
                shape.lemma_count();
            },
        }
    }

    /// A tree has finitely many bindings.
    pub proof fn lemma_finite(&self)
        requires
            self.wf(),
        ensures
            self@.dom().finite(),
    {
        if let Some(shape) = self.shape@ {
            shape.lemma_count();
        }
    }

    /// The bindings in the order of their keys.
    pub closed spec fn entries(&self) -> Seq<(K, V)> {
        match self.shape@ {
            None => Seq::empty(),
            Some(shape) => shape.entries(),
        }
    }

    /// The keys of `entries` rise strictly, and there are no more bindings than a
    /// `usize` can count.
    pub proof fn lemma_entries_ascending(&self)
        requires
            self.wf(),
        ensures
            ascending(self.entries()),
            self.entries().len() <= usize::MAX,
    {
        self.lemma_entries();
    }

    /// `entries` lists every binding of the tree once, and the keys rise strictly.
    pub proof fn lemma_entries(&self)
        requires
            self.wf(),
        ensures
            ascending(self.entries()),
            self.entries().len() == self@.len(),
            self.entries().len() <= usize::MAX,
            self@ == bindings(self.entries()),
            forall|i: int|
                0 <= i < self.entries().len() ==> self@.contains_key(
                    #[trigger] self.entries()[i].0,
                ) && self@[self.entries()[i].0] == self.entries()[i].1,
            forall|k: K| #[trigger]
                self@.contains_key(k) ==> exists|i: int|
                    0 <= i < self.entries().len() && #[trigger] self.entries()[i].0 == k,
    {
        match self.shape@ {
            None => {
                assert(bindings(self.entries()) =~= Map::<K, V>::empty());
            },
            Some(shape) => {
                shape.lemma_entries();
                shape.lemma_entries_len();
                shape.lemma_count();
                shape.lemma_entries_bind();
            },
        }
    }

    /// The range law: the bindings that `find` goes through are those of the tree whose
    /// keys are in the range, each once, by rising key.
    pub proof fn lemma_found(&self, start: K, end: K)
        requires
            self.wf(),
        ensures
            ascending(self.entries().filter(keep(start, end))),
            forall|k: K, v: V| #[trigger]
                self.entries().filter(keep(start, end)).contains((k, v)) <==> self@.contains_key(k)
                    && self@[k] == v && in_range(start, end, k),
    {
        let all = self.entries();
        let found = all.filter(keep(start, end));
        self.lemma_entries();
        lemma_filter_ascending(all, keep(start, end));
        assert forall|k: K, v: V| #[trigger] found.contains((k, v)) implies self@.contains_key(k)
            && self@[k] == v && in_range(start, end, k) by {
            let i = found.index_of((k, v));
            assert(all.contains(found[i]));
            let j = all.index_of((k, v));
            assert(self@.contains_key(all[j].0));
        }
        assert forall|k: K, v: V|
            self@.contains_key(k) && self@[k] == v && in_range(start, end, k) implies
            #[trigger] found.contains((k, v)) by {
            let j = choose|j: int| 0 <= j < all.len() && #[trigger] all[j].0 == k;
            assert(self@[all[j].0] == all[j].1);
            assert(all[j] == (k, v));
            all.lemma_filter_contains(keep(start, end), j);
        }
    }

    /// An empty tree whose pool has blocks of `block_size` records and a block directory
    /// with room for `blocks_cap` blocks.
    pub fn new(block_size: usize, blocks_cap: usize) -> (tree: Self)
        requires
            total_order::<K>(),
            block_size > 0,
            blocks_cap > 0,
        ensures
            tree.wf(),
            tree@ == Map::<K, V>::empty(),
            tree.shape() is None,
            tree.root() == (NodeAddr { block: 0, slot: 0 }),
    {
        let mut allocator = BlockAllocator::new(block_size, blocks_cap);
        let root = allocator.get_node();
        proof {
            assert(allocator@.remove(root).dom() =~= Set::empty());
            assert(allocator@.dom() =~= set![root]) by {
                assert forall|at: NodeAddr| allocator@.dom().contains(at) implies at == root by {
                    if at != root {
                        assert(allocator@.remove(root).dom().contains(at));
                    }
                }
            }
        }
        Self { allocator, root, length: 0, shape: Ghost(None) }
    }

    /// Whether the tree binds no key.
    pub fn is_empty(&self) -> (r: bool)
        requires
            self.wf(),
        ensures
            r == (self@.len() == 0),
            r == (self@ == Map::<K, V>::empty()),
    {
        proof {
            if let Some(shape) = self.shape@ {
                shape.lemma_count();
                assert(self@.dom().len() > 0);
                assert(self@.dom() != Map::<K, V>::empty().dom());
            }
        }
        self.length == 0
    }

    /// The number of bindings.
    pub fn len(&self) -> (r: usize)
        requires
            self.wf(),
        ensures
            r == self@.len(),
    {
        proof {
            if let Some(shape) = self.shape@ {
                shape.lemma_count();
            }
        }
        self.length
    }

    /// The value bound to `key`, if there is one.
    pub fn get(&self, key: &K) -> (val: Option<&V>)
        requires
            self.wf(),
        ensures
            match val {
                Some(v) => self@.contains_key(*key) && *v == self@[*key],
                None => !self@.contains_key(*key),
            },
    {
        if self.allocator.node(self.root).is_empty() {
            return None;
        }
        let mut tmp_node = self.root;
        let ghost mut sub = self.shape@->0;
        while self.allocator.node(tmp_node).right.is_some()
            invariant
                self.wf(),
                self.shape@ is Some,
                sub.held_by(self.allocator@),
                sub.ordered(),
                sub.at() == tmp_node,
                lookup(sub.as_map(), *key) == lookup(self@, *key),
            decreases sub.size(),
        {
            let node = self.allocator.node(tmp_node);
            proof {
                sub.lemma_toward(*key);
            }
            if key_lt(key, node.key.as_ref().unwrap()) {
                tmp_node = node.left.as_node();
            } else {
                tmp_node = node.right.unwrap();
            }
            proof {
                sub = sub.toward(*key);
            }
        }
        let node = self.allocator.node(tmp_node);
        if key_eq(key, node.key.as_ref().unwrap()) {
            Some(node.left.as_val())
        } else {
            None
        }
    }

    /// Binds `key` to `value` and gives back the value that `key` was bound to before,
    /// if any. A key that is new takes the place of the leaf at which the search for it
    /// ends: that record becomes a fork over two fresh leaves.
    pub fn insert(&mut self, key: K, value: V) -> (old_val: Option<V>)
        requires
            old(self).wf(),
            !old(self)@.contains_key(key) ==> old(self)@.len() < usize::MAX,
        ensures
            final(self).wf(),
            final(self)@ == old(self)@.insert(key, value),
            final(self)@ == (Change::Insert { key, value }).apply(old(self)@),
            final(self).root() == old(self).root(),
            old_val == lookup(old(self)@, key),
            final(self).shape() == Some(
                match old(self).shape() {
                    None => (Shape::Leaf { at: old(self).root(), key, val: value }),
                    Some(shape) => shape.inserted(
                        key,
                        value,
                        old(self).pool().next_addr(),
                        old(self).pool().after_get().next_addr(),
                    ),
                },
            ),
            final(self).pool() == if old(self)@.contains_key(key) || old(self).shape() is None {
                old(self).pool()
            } else {
                old(self).pool().after_get().after_get()
            },
    {
        proof {
            lemma_order::<K>();
        }
        if self.allocator.node(self.root).is_empty() {
            let root = self.allocator.node_mut(self.root);
            root.left = TreePtr::Val(Box::new(value));
            root.key = Some(key);
            self.length += 1;
            proof {
                self.shape = Ghost(Some(Shape::Leaf { at: self.root, key, val: value }));
                assert(self.allocator@.dom() =~= set![self.root]);
                assert(final(self)@ =~= old(self)@.insert(key, value));
            }
            return None;
        }
        let ghost shape = self.shape@->0;
        let mut tmp_node = self.root;
        let ghost mut sub = shape;
        while self.allocator.node(tmp_node).right.is_some()
            invariant
                self.wf(),
                self.shape@ == Some(shape),
                sub.held_by(self.allocator@),
                sub.ordered(),
                sub.at() == tmp_node,
                sub.landing(key) == shape.landing(key),
            decreases sub.size(),
        {
            let node = self.allocator.node(tmp_node);
            if key_lt(&key, node.key.as_ref().unwrap()) {
                tmp_node = node.left.as_node();
            } else {
                tmp_node = node.right.unwrap();
            }
            proof {
                sub = sub.toward(key);
            }
        }
        let ghost heap = self.allocator@;
        proof {
            shape.lemma_landing(key);
            shape.lemma_count();
            shape.lemma_held_addrs(heap);
            assert(sub == shape.landing(key));
        }
        let ghost leaf_key = sub->Leaf_key;
        let ghost leaf_val = sub->Leaf_val;

        if key_eq(&key, self.allocator.node(tmp_node).key.as_ref().unwrap()) {
            let mut boxed = Box::new(value);
            core::mem::swap(&mut boxed, self.allocator.node_mut(tmp_node).left.as_val_mut());
            proof {
                let new = Shape::Leaf { at: tmp_node, key, val: value };
                shape.lemma_graft_held(key, new, heap, self.allocator@);
                shape.lemma_graft_map(key, new);
                self.shape = Ghost(Some(shape.graft(key, new)));
                assert(final(self)@ =~= old(self)@.insert(key, value));
            }
            return Some(*boxed);
        }
        let old_leaf = self.allocator.get_node();
        let new_leaf = self.allocator.get_node();
        if key_lt(self.allocator.node(tmp_node).key.as_ref().unwrap(), &key) {
            let node = self.allocator.node_mut(tmp_node);
            let mut moved = TreePtr::Node(old_leaf);
            core::mem::swap(&mut moved, &mut node.left);
            let mut moved_key = Some(key_clone(&key));
            core::mem::swap(&mut moved_key, &mut node.key);
            node.right = Some(new_leaf);

            let node = self.allocator.node_mut(old_leaf);
            node.left = moved;
            node.key = moved_key;

            let node = self.allocator.node_mut(new_leaf);
            node.left = TreePtr::Val(Box::new(value));
            node.key = Some(key);
        } else {
            let node = self.allocator.node_mut(tmp_node);
            let mut moved = TreePtr::Node(new_leaf);
            core::mem::swap(&mut moved, &mut node.left);
            let moved_key = key_clone(node.key.as_ref().unwrap());
            node.right = Some(old_leaf);

            let node = self.allocator.node_mut(old_leaf);
            node.left = moved;
            node.key = Some(moved_key);

            let node = self.allocator.node_mut(new_leaf);
            node.left = TreePtr::Val(Box::new(value));
            node.key = Some(key);
        }
        self.length += 1;
        proof {
            let kept = Shape::Leaf { at: old_leaf, key: leaf_key, val: leaf_val };
            let added = Shape::Leaf { at: new_leaf, key, val: value };
            let new = if lt(leaf_key, key) {
                Shape::Fork { at: tmp_node, key, left: Box::new(kept), right: Box::new(added) }
            } else {
                Shape::Fork {
                    at: tmp_node,
                    key: leaf_key,
                    left: Box::new(added),
                    right: Box::new(kept),
                }
            };
            assert(kept.as_map() =~= Map::<K, V>::empty().insert(leaf_key, leaf_val));
            assert(added.as_map() =~= Map::<K, V>::empty().insert(key, value));
            assert(kept.addrs() =~= set![old_leaf] && added.addrs() =~= set![new_leaf]);
            assert(kept.distinct() && added.distinct());
            assert(kept.ordered() && added.ordered());
            assert(kept.held_by(self.allocator@) && added.held_by(self.allocator@));
            assert(new.as_map() =~= Map::<K, V>::empty().insert(leaf_key, leaf_val).insert(
                key,
                value,
            ));
            assert(new.distinct());
            assert(new.ordered());
            assert(new.held_by(self.allocator@));
            assert forall|k: K| #[trigger] new.as_map().contains_key(k) implies shape.routes_like(
                key,
                k,
            ) by {
                shape.lemma_routes_like_self(key);
            }
            shape.lemma_graft_held(key, new, heap, self.allocator@);
            shape.lemma_graft_map(key, new);
            self.shape = Ghost(Some(shape.graft(key, new)));
            assert(new.addrs() =~= set![tmp_node, old_leaf, new_leaf]);
            assert(kept.leaves() == 1 && added.leaves() == 1);
            assert(new.leaves() == 2);
            assert(self.allocator@.dom() =~= heap.dom().insert(old_leaf).insert(new_leaf));
            assert(self.allocator@.dom() =~= shape.graft(key, new).addrs());
            assert(final(self)@ =~= old(self)@.insert(key, value));
        }
        None
    }

    /// Takes the binding of `key` away and gives back its value, if there was one. The
    /// fork above the leaf takes over what the leaf's sibling held; the records of the
    /// leaf and of the sibling go back to the pool.
    pub fn remove(&mut self, key: &K) -> (old_val: Option<V>)
        requires
            old(self).wf(),
        ensures
            final(self).wf(),
            final(self)@ == old(self)@.remove(*key),
            final(self)@ == (Change::<K, V>::Remove { key: *key }).apply(old(self)@),
            final(self).root() == old(self).root(),
            old_val == lookup(old(self)@, *key),
            final(self).shape() == match old(self).shape() {
                None => None,
                Some(shape) => shape.removed(*key),
            },
            final(self).pool() == match old(self).shape() {
                Some(shape) if shape is Fork && old(self)@.contains_key(*key) => old(
                    self,
                ).pool().after_return(shape.landing(*key).at()).after_return(
                    shape.last_fork(*key).away(*key).at(),
                ),
                _ => old(self).pool(),
            },
    {
        proof {
            lemma_order::<K>();
        }
        if self.allocator.node(self.root).is_empty() {
            proof {
                assert(final(self)@ =~= old(self)@.remove(*key));
            }
            return None;
        }
        let ghost shape = self.shape@->0;
        let ghost heap = self.allocator@;
        proof {
            shape.lemma_landing(*key);
            shape.lemma_count();
        }
        if self.allocator.node(self.root).is_leaf() {
            if key_eq(key, self.allocator.node(self.root).key.as_ref().unwrap()) {
                let root = self.allocator.node_mut(self.root);
                root.key = None;
                let mut taken = TreePtr::Null;
                core::mem::swap(&mut taken, &mut root.left);
                self.length -= 1;
                proof {
                    self.shape = Ghost(None);
                    assert(shape.addrs() =~= set![self.root]);
                    assert(self.allocator@.dom() =~= set![self.root]);
                    assert(final(self)@ =~= old(self)@.remove(*key));
                }
                return Some(taken.into_val());
            } else {
                proof {
                    assert(final(self)@ =~= old(self)@.remove(*key));
                }
                return None;
            }
        }
        let mut upper_node = self.root;
        let mut other_node = self.root;
        let mut tmp_node = self.root;
        let ghost mut sub = shape;
        while self.allocator.node(tmp_node).right.is_some()
            invariant
                self.wf(),
                self.shape@ == Some(shape),
                self.allocator@ == heap,
                shape is Fork,
                sub.held_by(heap),
                sub.ordered(),
                sub.at() == tmp_node,
                sub.landing(*key) == shape.landing(*key),
                sub is Fork ==> sub.last_fork(*key) == shape.last_fork(*key),
                sub is Leaf ==> {
                    &&& upper_node == shape.last_fork(*key).at()
                    &&& other_node == shape.last_fork(*key).away(*key).at()
                    &&& shape.last_fork(*key).toward(*key) == sub
                    &&& shape.last_fork(*key) is Fork
                },
            decreases sub.size(),
        {
            upper_node = tmp_node;
            let node = self.allocator.node(upper_node);
            if key_lt(key, node.key.as_ref().unwrap()) {
                tmp_node = node.left.as_node();
                other_node = node.right.unwrap();
            } else {
                tmp_node = node.right.unwrap();
                other_node = node.left.as_node();
            }
            proof {
                sub = sub.toward(*key);
            }
        }
        if !key_eq(key, self.allocator.node(tmp_node).key.as_ref().unwrap()) {
            proof {
                assert(final(self)@ =~= old(self)@.remove(*key));
            }
            return None;
        }
        proof {
            shape.lemma_held_addrs(heap);
            shape.lemma_prune_held(*key, heap, heap.insert(upper_node, heap[other_node]));
        }
        let sibling = self.allocator.node_mut(other_node);
        let mut moved_key = None;
        core::mem::swap(&mut moved_key, &mut sibling.key);
        let mut moved_left = TreePtr::Null;
        core::mem::swap(&mut moved_left, &mut sibling.left);
        let moved_right = sibling.right;

        let upper = self.allocator.node_mut(upper_node);
        upper.key = moved_key;
        upper.left = moved_left;
        upper.right = moved_right;

        let leaf = self.allocator.node_mut(tmp_node);
        leaf.key = None;
        let mut taken = TreePtr::Null;
        core::mem::swap(&mut taken, &mut leaf.left);

        self.allocator.return_node(tmp_node);
        self.allocator.return_node(other_node);
        self.length -= 1;
        proof {
            shape.lemma_prune_held(*key, heap, self.allocator@);
            shape.lemma_prune_map(*key);
            self.shape = Ghost(Some(shape.prune(*key)));
            assert(self.allocator@.dom() =~= shape.prune(*key).addrs());
            assert(final(self)@ =~= old(self)@.remove(*key));
        }
        Some(taken.into_val())
    }

    /// A traversal of the bindings whose keys are in `range`, from both ends.
    pub fn find(&self, range: Range<K>) -> (it: SearchTreeFind<'_, K, V>)
        requires
            self.wf(),
        ensures
            it.wf(),
            it@ == self.entries().filter(keep(range.start, range.end)),
    {
        let mut iter_stack = LinkedListStack::default();
        let mut rev_stack = LinkedListStack::default();
        if !self.allocator.node(self.root).is_empty() {
            iter_stack.push(self.root);
            rev_stack.push(self.root);
        }
        let ghost all = self.entries().filter(keep(range.start, range.end));
        proof {
            self.lemma_entries_ascending();
            lemma_filter_ascending(self.entries(), keep(range.start, range.end));
            lemma_sides_start(
                iter_stack@,
                self.shape@,
                self.allocator@,
                keep(range.start, range.end),
            );
            assert(all.subrange(0, all.len() as int) =~= all);
        }
        SearchTreeFind {
            tree: self,
            iter_stack,
            rev_stack,
            last_iter_key: None,
            last_rev_key: None,
            range,
            fwd: Ghost(whole(self.shape@)),
            rev: Ghost(whole(self.shape@)),
            lo: Ghost(0),
            hi: Ghost(all.len()),
            fwd_pos: Ghost(0),
            rev_pos: Ghost(all.len()),
        }
    }

    /// A traversal of all bindings, from both ends.
    pub fn iter(&self) -> (it: SearchTreeIter<'_, K, V>)
        requires
            self.wf(),
        ensures
            it.wf(),
            it@ == self.entries(),
    {
        let mut iter_stack = LinkedListStack::default();
        let mut rev_stack = LinkedListStack::default();
        if !self.allocator.node(self.root).is_empty() {
            iter_stack.push(self.root);
            rev_stack.push(self.root);
        }
        let ghost all = self.entries();
        proof {
            self.lemma_entries_ascending();
            lemma_keep_all(all);
            lemma_sides_start(iter_stack@, self.shape@, self.allocator@, keep_all());
            assert(all.subrange(0, all.len() as int) =~= all);
        }
        SearchTreeIter {
            tree: self,
            iter_stack,
            rev_stack,
            last_iter_key: None,
            last_rev_key: None,
            fwd: Ghost(whole(self.shape@)),
            rev: Ghost(whole(self.shape@)),
            lo: Ghost(0),
            hi: Ghost(all.len()),
            fwd_pos: Ghost(0),
            rev_pos: Ghost(all.len()),
        }
    }

    /// Whether the keys of `items` rise strictly from each to the next, as `from_sorted`
    /// asks.
    pub fn keys_ascending(items: &Vec<(K, V)>) -> (r: bool)
        requires
            total_order::<K>(),
        ensures
            r == ascending(items@),
    {
        proof {
            lemma_order::<K>();
        }
        let mut i: usize = 1;
        while i < items.len()
            invariant
                total_order::<K>(),
                1 <= i,
                forall|a: int, b: int|
                    0 <= a < b < i && b < items@.len() ==> lt(
                        #[trigger] items@[a].0,
                        #[trigger] items@[b].0,
                    ),
            decreases items.len() - i,
        {
            if !key_lt(&items[i - 1].0, &items[i].0) {
                return false;
            }
            proof {
                lemma_order::<K>();
                assert forall|a: int, b: int| 0 <= a < b < i + 1 && b < items@.len() implies lt(
                    #[trigger] items@[a].0,
                    #[trigger] items@[b].0,
                ) by {
                    if b == i && a < i - 1 {
                        assert(lt(items@[a].0, items@[i - 1].0));
                    }
                }
            }
            i += 1;
        }
        true
    }

    /// The tree of the bindings `items`, which come by rising key, built from the top
    /// down: each record is given half of its items to its left and the rest to its
    /// right, so that the tree is as low as a tree of that many leaves can be.
    pub fn from_sorted(items: Vec<(K, V)>) -> (tree: Self)
        requires
            total_order::<K>(),
            ascending(items@),
        ensures
            tree.wf(),
            tree.entries() == items@,
            tree@ == bindings(items@),
            tree.height() <= ceil_log2(items@.len()) + 1,
            match tree.shape() {
                None => items@.len() == 0,
                Some(shape) => shape.halved() && shape.leaves() == items@.len(),
            },
    {
        let length = items.len();
        let ghost all = items@;
        let mut allocator: BlockAllocator<TreeNode<K, V>> = BlockAllocator::default();
        let root = allocator.get_node();
        proof {
            assert(allocator@.dom() =~= set![root]);
        }
        if length == 0 {
            proof {
                assert(bindings(all) =~= Map::<K, V>::empty());
            }
            return Self { allocator, root, length: 0, shape: Ghost(None) };
        }
        let mut rest = reversed(items);
        let depth = floor_log2(length);
        let mut stack: BoundedStack<TreeBuilder> = BoundedStack::new(depth + 1);
        stack.push(TreeBuilder { node1: root, node2: None, number: length });
        let ghost mut spans = Map::<NodeAddr, (int, int)>::empty().insert(
            root,
            (0int, length as int),
        );
        let ghost mut pos: int = 0;
        proof {
            lemma_build_start(allocator@, all, root);
            assert(stack@ =~= seq![TreeBuilder { node1: root, node2: None, number: length }]);
        }
        while !stack.is_empty()
            invariant
                total_order::<K>(),
                allocator.wf(),
                stack.wf(),
                stack.limit() == depth + 1,
                all.len() == length,
                length < 2 * pow2(depth as nat),
                building(allocator@, spans, stack@, pos, all, root),
                rest@.len() == length - pos,
                forall|i: int| 0 <= i < rest@.len() ==> rest@[i] == all[length - 1 - i],
            decreases 2 * (length - pos) - stack@.len(),
        {
            let ghost heap = allocator@;
            let ghost frames = stack@;
            proof {
                lemma_frames_few(heap, spans, frames, pos, all, root);
                lemma_frames_apart(heap, spans, frames, pos, all, root, frames.len() - 1);
            }
            let current = stack.pop();
            if current.number > 1 {
                let left_node = allocator.get_node();
                let right_node = allocator.get_node();
                let left = TreeBuilder {
                    node1: left_node,
                    node2: current.node2,
                    number: current.number / 2,
                };
                let right = TreeBuilder {
                    node1: right_node,
                    node2: Some(current.node1),
                    number: current.number - left.number,
                };
                let node = allocator.node_mut(current.node1);
                node.left = TreePtr::Node(left.node1);
                node.right = Some(right.node1);
                proof {
                    lemma_build_fork(heap, spans, frames, pos, all, root, left, right, allocator@);
                    if frames.len() - 1 > depth {
                        vstd::arithmetic::power2::lemma_pow2_strictly_increases(
                            depth as nat,
                            (frames.len() - 1) as nat,
                        );
                    }
                    assert(frames.len() - 1 < depth);
                    let lo = spans[current.node1].0;
                    let hi = spans[current.node1].1;
                    spans = spans.insert(left.node1, (lo, mid(lo, hi))).insert(
                        right.node1,
                        (mid(lo, hi), hi),
                    );
                }
                stack.push(right);
                stack.push(left);
            } else {
                let (key, value) = rest.pop().unwrap();
                match current.node2 {
                    Some(node2) => {
                        allocator.node_mut(node2).key = Some(key_clone(&key));
                    },
                    None => {},
                }
                let node = allocator.node_mut(current.node1);
                node.left = TreePtr::Val(Box::new(value));
                node.key = Some(key);
                node.right = None;
                proof {
                    lemma_build_leaf(heap, spans, frames, pos, all, root, allocator@);
                    pos = pos + 1;
                }
            }
        }
        proof {
            assert(stack@ =~= Seq::<TreeBuilder>::empty());
        }
        let ghost shape = lemma_build_done(allocator@, spans, all, root);
        proof {
            shape.lemma_entries_bind();
            lemma_halved_height(shape);
        }
        Self { allocator, root, length, shape: Ghost(Some(shape)) }
    }

    /// The tree of the bindings `items` as `from_sorted` builds it, or nothing where
    /// their keys do not rise strictly.
    pub fn try_from_sorted(items: Vec<(K, V)>) -> (tree: Option<Self>)
        requires
            total_order::<K>(),
        ensures
            tree is Some <==> ascending(items@),
            tree is Some ==> {
                &&& tree->0.wf()
                &&& tree->0.entries() == items@
                &&& tree->0@ == bindings(items@)
                &&& tree->0.height() <= ceil_log2(items@.len()) + 1
            },
    {
        if Self::keys_ascending(&items) {
            Some(Self::from_sorted(items))
        } else {
            None
        }
    }

    /// Empties the tree: every value is dropped, and every record but one goes back to
    /// the pool. The walk needs no stack: at a fork whose left child is a leaf, the leaf
    /// and the fork are given up and the walk goes on to the right; any other fork is
    /// turned to the right first. The record at which the walk ends is the root from
    /// then on.
    pub fn clear(&mut self)
        requires
            old(self).wf(),
        ensures
            final(self).wf(),
            final(self)@ == Map::<K, V>::empty(),
            final(self).shape() is None,
    {
        if self.allocator.node(self.root).is_empty() {
            return ;
        }
        let mut current_node = self.root;
        let ghost mut sub = self.shape@->0;
        while self.allocator.node(current_node).has_subtrees()
            invariant
                total_order::<K>(),
                self.allocator.wf(),
                sub.held_by(self.allocator@),
                sub.distinct(),
                self.allocator@.dom() =~= sub.addrs(),
                sub.at() == current_node,
            decreases sub.size(), sub.left_size(),
        {
            let ghost heap = self.allocator@;
            let left_node = self.allocator.node(current_node).left.as_node();
            let ghost left = *sub->Fork_left;
            let ghost right = *sub->Fork_right;
            proof {
                assert(sub is Fork);
                assert(left.held_by(heap) && right.held_by(heap));
                assert(left.at() == left_node);
                sub.lemma_held_addrs(heap);
                left.lemma_addrs();
                right.lemma_addrs();
                left.lemma_held_addrs(heap);
            }
            if self.allocator.node(left_node).is_leaf() {
                let leaf = self.allocator.node_mut(left_node);
                let mut taken = TreePtr::Null;
                core::mem::swap(&mut taken, &mut leaf.left);
                leaf.key = None;
                self.allocator.return_node(left_node);

                let node = self.allocator.node_mut(current_node);
                let tmp = node.right.unwrap();
                node.key = None;
                self.allocator.return_node(current_node);
                current_node = tmp;
                proof {
                    assert(left is Leaf);
                    assert(left.addrs() =~= set![left_node]);
                    assert forall|x: NodeAddr| #[trigger]
                        right.addrs().contains(x) implies self.allocator@.contains_key(x)
                        && self.allocator@[x] == heap[x] by {
                        assert(sub.addrs().contains(x));
                    }
                    right.lemma_frame(heap, self.allocator@);
                    assert(self.allocator@.dom() =~= right.addrs());
                    sub = right;
                }
            } else {
                proof {
                    assert(left is Fork);
                    assert(left->Fork_left.held_by(heap) && left->Fork_right.held_by(heap));
                }
                let up = self.allocator.node_mut(left_node);
                let mut passed = Some(current_node);
                core::mem::swap(&mut passed, &mut up.right);
                let node = self.allocator.node_mut(current_node);
                node.left = TreePtr::Node(passed.unwrap());
                current_node = left_node;
                proof {
                    sub.lemma_turned_right(heap, self.allocator@);
                    sub = sub.turned_right();
                }
            }
        }
        let node = self.allocator.node_mut(current_node);
        let mut taken = TreePtr::Null;
        core::mem::swap(&mut taken, &mut node.left);
        node.key = None;
        self.root = current_node;
        self.length = 0;
        proof {
            assert(sub.addrs() =~= set![current_node]);
            self.shape = Ghost(None);
        }
    }
}

impl<K, V> Default for SearchTree<K, V> where K: Ord + Clone {
    fn default() -> (tree: Self)
        ensures
            total_order::<K>() ==> tree.wf() && tree@ == Map::<K, V>::empty(),
            tree.shape() is None,
    {
        let mut allocator = BlockAllocator::new(
            BlockAllocator::<TreeNode<K, V>>::DEFAULT_BLOCK_SIZE,
            BlockAllocator::<TreeNode<K, V>>::DEFAULT_BLOCK_CAP,
        );
        let root = allocator.get_node();
        proof {
            assert(allocator@.dom() =~= set![root]);
        }
        Self { allocator, root, length: 0, shape: Ghost(None) }
    }
}

/// A traversal of the bindings of a tree whose keys are in a range. `next` gives them from
/// the least key up, `next_back` from the greatest key down; together they give each
/// binding once. The view is the sequence of bindings not yet given, by rising key.
pub struct SearchTreeFind<'a, K, V> {
    tree: &'a SearchTree<K, V>,
    iter_stack: LinkedListStack<NodeAddr>,
    rev_stack: LinkedListStack<NodeAddr>,
    last_iter_key: Option<&'a K>,
    last_rev_key: Option<&'a K>,
    range: Range<K>,
    fwd: Ghost<Seq<Shape<K, V>>>,
    rev: Ghost<Seq<Shape<K, V>>>,
    lo: Ghost<nat>,
    hi: Ghost<nat>,
    fwd_pos: Ghost<nat>,
    rev_pos: Ghost<nat>,
}

impl<'a, K, V> View for SearchTreeFind<'a, K, V> where K: Ord + Clone {
    type V = Seq<(K, V)>;

    closed spec fn view(&self) -> Seq<(K, V)> {
        self.all().subrange(self.lo@ as int, self.hi@ as int)
    }
}

impl<'a, K, V> SearchTreeFind<'a, K, V> where K: Ord + Clone {
    /// All bindings of the traversal, given or not.
    pub closed spec fn all(&self) -> Seq<(K, V)> {
        self.tree.entries().filter(keep(self.range.start, self.range.end))
    }

    /// The invariant: the forward stack stands for the bindings from `fwd_pos` on, the
    /// backward stack for those before `rev_pos`; neither has gone past the other's
    /// last binding unless nothing is left; and each end remembers the key it gave last.
    pub closed spec fn wf(&self) -> bool {
        &&& self.tree.wf()
        &&& self.iter_stack.wf()
        &&& self.rev_stack.wf()
        &&& self.tree.entries().len() <= usize::MAX
        &&& ascending(self.all())
        &&& self.lo@ <= self.hi@ <= self.all().len()
        &&& self.lo@ <= self.fwd_pos@
        &&& self.rev_pos@ <= self.hi@
        &&& self.lo@ < self.hi@ ==> self.fwd_pos@ == self.lo@ && self.rev_pos@ == self.hi@
        &&& fwd_side(
            self.iter_stack@,
            self.fwd@,
            self.tree.allocator@,
            self.tree.entries().len(),
            keep(self.range.start, self.range.end),
            self.all(),
            self.fwd_pos@,
        )
        &&& rev_side(
            self.rev_stack@,
            self.rev@,
            self.tree.allocator@,
            self.tree.entries().len(),
            keep(self.range.start, self.range.end),
            self.all(),
            self.rev_pos@,
        )
        &&& match self.last_iter_key {
            None => self.lo@ == 0,
            Some(k) => self.lo@ > 0 && *k == self.all()[self.lo@ - 1].0,
        }
        &&& match self.last_rev_key {
            None => self.hi@ == self.all().len(),
            Some(k) => self.hi@ < self.all().len() && *k == self.all()[self.hi@ as int].0,
        }
    }

    /// The order law: the bindings not yet given come by rising key.
    pub proof fn lemma_ascending(&self)
        requires
            self.wf(),
        ensures
            ascending(self@),
    {
    }

    /// The binding with the least key among those not yet given.
    pub fn next(&mut self) -> (item: Option<(&'a K, &'a V)>)
        requires
            old(self).wf(),
        ensures
            final(self).wf(),
            final(self)@ == pull(old(self)@, End::Front).0,
            match item {
                Some((k, v)) => pull(old(self)@, End::Front).1 == Some((*k, *v)),
                None => pull(old(self)@, End::Front).1 is None,
            },
    {
        let tree: &'a SearchTree<K, V> = self.tree;
        let ghost all = self.all();
        let ghost pred = keep::<K, V>(self.range.start, self.range.end);
        let ghost heap = tree.allocator@;
        let ghost total = tree.entries().len();
        while !self.iter_stack.is_empty()
            invariant
                old(self).wf(),
                self.tree == tree,
                self.range == old(self).range,
                self.rev_stack == old(self).rev_stack,
                self.rev == old(self).rev,
                self.lo == old(self).lo,
                self.hi == old(self).hi,
                self.fwd_pos == old(self).fwd_pos,
                self.rev_pos == old(self).rev_pos,
                self.last_iter_key == old(self).last_iter_key,
                self.last_rev_key == old(self).last_rev_key,
                tree == old(self).tree,
                tree.wf(),
                all == old(self).all(),
                all == self.all(),
                ascending(all),
                pred == keep::<K, V>(self.range.start, self.range.end),
                heap == tree.allocator@,
                total == tree.entries().len(),
                total <= usize::MAX,
                self.iter_stack.wf(),
                fwd_side(self.iter_stack@, self.fwd@, heap, total, pred, all, self.fwd_pos@),
            decreases weight(self.fwd@),
        {
            let ghost stack = self.iter_stack@;
            let ghost subs = self.fwd@;
            let ghost top = subs.last();
            let ghost rest = subs.drop_last();
            let at = self.iter_stack.pop();
            let node: &'a TreeNode<K, V> = tree.allocator.node(at);
            let node_key: &'a K = node.key.as_ref().unwrap();
            if node.is_leaf() {
                proof {
                    lemma_order::<K>();
                    lemma_fwd_leaf(stack, subs, heap, total, pred, all, self.fwd_pos@);
                    self.fwd = Ghost(rest);
                }
                if key_le(&self.range.start, node_key) && key_lt(node_key, &self.range.end) {
                    proof {
                        self.fwd_pos = Ghost(self.fwd_pos@ + 1);
                    }
                    let crossed = match self.last_rev_key {
                        Some(last_rev_key) => key_le(last_rev_key, node_key),
                        None => false,
                    };
                    if crossed {
                        return None;
                    } else {
                        self.last_iter_key = Some(node_key);
                        proof {
                            self.lo = Ghost(self.lo@ + 1);
                            assert(final(self)@ =~= old(self)@.drop_first());
                        }
                        return Some((node_key, node.left.as_val()));
                    }
                }
            } else {
                proof {
                    lemma_order::<K>();
                    lemma_fwd_fork(stack, subs, heap, total, pred, all, self.fwd_pos@);
                }
                if key_le(&self.range.end, node_key) {
                    self.iter_stack.push(node.left.as_node());
                    proof {
                        self.fwd = Ghost(rest.push(*top->Fork_left));
                    }
                } else if key_le(node_key, &self.range.start) {
                    self.iter_stack.push(node.right.unwrap());
                    proof {
                        self.fwd = Ghost(rest.push(*top->Fork_right));
                    }
                } else {
                    self.iter_stack.push(node.right.unwrap());
                    self.iter_stack.push(node.left.as_node());
                    proof {
                        self.fwd = Ghost(rest.push(*top->Fork_right).push(*top->Fork_left));
                    }
                }
            }
        }
        proof {
            assert(self.fwd@ =~= Seq::empty());
            lemma_side_empty::<K, V>(pred, all, self.fwd_pos@);
        }
        None
    }

    /// The binding with the greatest key among those not yet given.
    pub fn next_back(&mut self) -> (item: Option<(&'a K, &'a V)>)
        requires
            old(self).wf(),
        ensures
            final(self).wf(),
            final(self)@ == pull(old(self)@, End::Back).0,
            match item {
                Some((k, v)) => pull(old(self)@, End::Back).1 == Some((*k, *v)),
                None => pull(old(self)@, End::Back).1 is None,
            },
    {
        let tree: &'a SearchTree<K, V> = self.tree;
        let ghost all = self.all();
        let ghost pred = keep::<K, V>(self.range.start, self.range.end);
        let ghost heap = tree.allocator@;
        let ghost total = tree.entries().len();
        while !self.rev_stack.is_empty()
            invariant
                old(self).wf(),
                self.tree == tree,
                self.range == old(self).range,
                self.iter_stack == old(self).iter_stack,
                self.fwd == old(self).fwd,
                self.lo == old(self).lo,
                self.hi == old(self).hi,
                self.fwd_pos == old(self).fwd_pos,
                self.rev_pos == old(self).rev_pos,
                self.last_iter_key == old(self).last_iter_key,
                self.last_rev_key == old(self).last_rev_key,
                tree == old(self).tree,
                tree.wf(),
                all == old(self).all(),
                all == self.all(),
                ascending(all),
                pred == keep::<K, V>(self.range.start, self.range.end),
                heap == tree.allocator@,
                total == tree.entries().len(),
                total <= usize::MAX,
                self.rev_stack.wf(),
                rev_side(self.rev_stack@, self.rev@, heap, total, pred, all, self.rev_pos@),
            decreases weight(self.rev@),
        {
            let ghost stack = self.rev_stack@;
            let ghost subs = self.rev@;
            let ghost top = subs.last();
            let ghost rest = subs.drop_last();
            let at = self.rev_stack.pop();
            let node: &'a TreeNode<K, V> = tree.allocator.node(at);
            let node_key: &'a K = node.key.as_ref().unwrap();
            if node.is_leaf() {
                proof {
                    lemma_order::<K>();
                    lemma_rev_leaf(stack, subs, heap, total, pred, all, self.rev_pos@);
                    self.rev = Ghost(rest);
                }
                if key_le(&self.range.start, node_key) && key_lt(node_key, &self.range.end) {
                    proof {
                        self.rev_pos = Ghost((self.rev_pos@ - 1) as nat);
                    }
                    let crossed = match self.last_iter_key {
                        Some(last_iter_key) => key_le(node_key, last_iter_key),
                        None => false,
                    };
                    if crossed {
                        return None;
                    } else {
                        self.last_rev_key = Some(node_key);
                        proof {
                            self.hi = Ghost((self.hi@ - 1) as nat);
                            assert(final(self)@ =~= old(self)@.drop_last());
                        }
                        return Some((node_key, node.left.as_val()));
                    }
                }
            } else {
                proof {
                    lemma_order::<K>();
                    lemma_rev_fork(stack, subs, heap, total, pred, all, self.rev_pos@);
                }
                if key_le(&self.range.end, node_key) {
                    self.rev_stack.push(node.left.as_node());
                    proof {
                        self.rev = Ghost(rest.push(*top->Fork_left));
                    }
                } else if key_le(node_key, &self.range.start) {
                    self.rev_stack.push(node.right.unwrap());
                    proof {
                        self.rev = Ghost(rest.push(*top->Fork_right));
                    }
                } else {
                    self.rev_stack.push(node.left.as_node());
                    self.rev_stack.push(node.right.unwrap());
                    proof {
                        self.rev = Ghost(rest.push(*top->Fork_left).push(*top->Fork_right));
                    }
                }
            }
        }
        proof {
            assert(self.rev@ =~= Seq::empty());
            lemma_side_empty::<K, V>(pred, all, self.rev_pos@);
        }
        None
    }
}

/// A traversal of all bindings of a tree. `next` gives them from the least key up,
/// `next_back` from the greatest key down; together they give each binding once. The
/// view is the sequence of bindings not yet given, by rising key.
pub struct SearchTreeIter<'a, K, V> {
    tree: &'a SearchTree<K, V>,
    iter_stack: LinkedListStack<NodeAddr>,
    rev_stack: LinkedListStack<NodeAddr>,
    last_iter_key: Option<&'a K>,
    last_rev_key: Option<&'a K>,
    fwd: Ghost<Seq<Shape<K, V>>>,
    rev: Ghost<Seq<Shape<K, V>>>,
    lo: Ghost<nat>,
    hi: Ghost<nat>,
    fwd_pos: Ghost<nat>,
    rev_pos: Ghost<nat>,
}

impl<'a, K, V> View for SearchTreeIter<'a, K, V> where K: Ord + Clone {
    type V = Seq<(K, V)>;

    closed spec fn view(&self) -> Seq<(K, V)> {
        self.tree.entries().subrange(self.lo@ as int, self.hi@ as int)
    }
}

impl<'a, K, V> SearchTreeIter<'a, K, V> where K: Ord + Clone {
    /// The invariant: the forward stack stands for the bindings from `fwd_pos` on, the
    /// backward stack for those before `rev_pos`; neither has gone past the other's
    /// last binding unless nothing is left; and each end remembers the key it gave last.
    pub closed spec fn wf(&self) -> bool {
        &&& self.tree.wf()
        &&& self.iter_stack.wf()
        &&& self.rev_stack.wf()
        &&& self.tree.entries().len() <= usize::MAX
        &&& ascending(self.tree.entries())
        &&& self.lo@ <= self.hi@ <= self.tree.entries().len()
        &&& self.lo@ <= self.fwd_pos@
        &&& self.rev_pos@ <= self.hi@
        &&& self.lo@ < self.hi@ ==> self.fwd_pos@ == self.lo@ && self.rev_pos@ == self.hi@
        &&& fwd_side(
            self.iter_stack@,
            self.fwd@,
            self.tree.allocator@,
            self.tree.entries().len(),
            keep_all(),
            self.tree.entries(),
            self.fwd_pos@,
        )
        &&& rev_side(
            self.rev_stack@,
            self.rev@,
            self.tree.allocator@,
            self.tree.entries().len(),
            keep_all(),
            self.tree.entries(),
            self.rev_pos@,
        )
        &&& match self.last_iter_key {
            None => self.lo@ == 0,
            Some(k) => self.lo@ > 0 && *k == self.tree.entries()[self.lo@ - 1].0,
        }
        &&& match self.last_rev_key {
            None => self.hi@ == self.tree.entries().len(),
            Some(k) => self.hi@ < self.tree.entries().len() && *k
                == self.tree.entries()[self.hi@ as int].0,
        }
    }

    /// The order law: the bindings not yet given come by rising key.
    pub proof fn lemma_ascending(&self)
        requires
            self.wf(),
        ensures
            ascending(self@),
    {
    }

    /// The binding with the least key among those not yet given.
    pub fn next(&mut self) -> (item: Option<(&'a K, &'a V)>)
        requires
            old(self).wf(),
        ensures
            final(self).wf(),
            final(self)@ == pull(old(self)@, End::Front).0,
            match item {
                Some((k, v)) => pull(old(self)@, End::Front).1 == Some((*k, *v)),
                None => pull(old(self)@, End::Front).1 is None,
            },
    {
        let tree: &'a SearchTree<K, V> = self.tree;
        let ghost all = tree.entries();
        let ghost pred = keep_all::<K, V>();
        let ghost heap = tree.allocator@;
        let ghost total = tree.entries().len();
        while !self.iter_stack.is_empty()
            invariant
                old(self).wf(),
                self.tree == tree,
                self.rev_stack == old(self).rev_stack,
                self.rev == old(self).rev,
                self.lo == old(self).lo,
                self.hi == old(self).hi,
                self.fwd_pos == old(self).fwd_pos,
                self.rev_pos == old(self).rev_pos,
                self.last_iter_key == old(self).last_iter_key,
                self.last_rev_key == old(self).last_rev_key,
                tree == old(self).tree,
                tree.wf(),
                all == tree.entries(),
                ascending(all),
                pred == keep_all::<K, V>(),
                heap == tree.allocator@,
                total == tree.entries().len(),
                total <= usize::MAX,
                self.iter_stack.wf(),
                fwd_side(self.iter_stack@, self.fwd@, heap, total, pred, all, self.fwd_pos@),
            decreases weight(self.fwd@),
        {
            let ghost stack = self.iter_stack@;
            let ghost subs = self.fwd@;
            let ghost top = subs.last();
            let ghost rest = subs.drop_last();
            let at = self.iter_stack.pop();
            let node: &'a TreeNode<K, V> = tree.allocator.node(at);
            if node.is_leaf() {
                let node_key: &'a K = node.key.as_ref().unwrap();
                proof {
                    lemma_order::<K>();
                    lemma_fwd_leaf(stack, subs, heap, total, pred, all, self.fwd_pos@);
                    assert(pred((top->Leaf_key, top->Leaf_val)));
                    assert(all[self.fwd_pos@ as int].0 == *node_key);
                    self.fwd = Ghost(rest);
                    self.fwd_pos = Ghost(self.fwd_pos@ + 1);
                }
                let crossed = match self.last_rev_key {
                    Some(last_rev_key) => key_le(last_rev_key, node_key),
                    None => false,
                };
                if crossed {
                    return None;
                } else {
                    self.last_iter_key = Some(node_key);
                    proof {
                        self.lo = Ghost(self.lo@ + 1);
                        assert(final(self)@ =~= old(self)@.drop_first());
                    }
                    return Some((node_key, node.left.as_val()));
                }
            } else {
                proof {
                    lemma_fwd_fork(stack, subs, heap, total, pred, all, self.fwd_pos@);
                }
                self.iter_stack.push(node.right.unwrap());
                self.iter_stack.push(node.left.as_node());
                proof {
                    self.fwd = Ghost(rest.push(*top->Fork_right).push(*top->Fork_left));
                }
            }
        }
        proof {
            assert(self.fwd@ =~= Seq::empty());
            lemma_side_empty::<K, V>(pred, all, self.fwd_pos@);
        }
        None
    }

    /// The binding with the greatest key among those not yet given.
    pub fn next_back(&mut self) -> (item: Option<(&'a K, &'a V)>)
        requires
            old(self).wf(),
        ensures
            final(self).wf(),
            final(self)@ == pull(old(self)@, End::Back).0,
            match item {
                Some((k, v)) => pull(old(self)@, End::Back).1 == Some((*k, *v)),
                None => pull(old(self)@, End::Back).1 is None,
            },
    {
        let tree: &'a SearchTree<K, V> = self.tree;
        let ghost all = tree.entries();
        let ghost pred = keep_all::<K, V>();
        let ghost heap = tree.allocator@;
        let ghost total = tree.entries().len();
        while !self.rev_stack.is_empty()
            invariant
                old(self).wf(),
                self.tree == tree,
                self.iter_stack == old(self).iter_stack,
                self.fwd == old(self).fwd,
                self.lo == old(self).lo,
                self.hi == old(self).hi,
                self.fwd_pos == old(self).fwd_pos,
                self.rev_pos == old(self).rev_pos,
                self.last_iter_key == old(self).last_iter_key,
                self.last_rev_key == old(self).last_rev_key,
                tree == old(self).tree,
                tree.wf(),
                all == tree.entries(),
                ascending(all),
                pred == keep_all::<K, V>(),
                heap == tree.allocator@,
                total == tree.entries().len(),
                total <= usize::MAX,
                self.rev_stack.wf(),
                rev_side(self.rev_stack@, self.rev@, heap, total, pred, all, self.rev_pos@),
            decreases weight(self.rev@),
        {
            let ghost stack = self.rev_stack@;
            let ghost subs = self.rev@;
            let ghost top = subs.last();
            let ghost rest = subs.drop_last();
            let at = self.rev_stack.pop();
            let node: &'a TreeNode<K, V> = tree.allocator.node(at);
            if node.is_leaf() {
                let node_key: &'a K = node.key.as_ref().unwrap();
                proof {
                    lemma_order::<K>();
                    lemma_rev_leaf(stack, subs, heap, total, pred, all, self.rev_pos@);
                    assert(pred((top->Leaf_key, top->Leaf_val)));
                    assert(all[self.rev_pos@ - 1].0 == *node_key);
                    self.rev = Ghost(rest);
                    self.rev_pos = Ghost((self.rev_pos@ - 1) as nat);
                }
                let crossed = match self.last_iter_key {
                    Some(last_iter_key) => key_le(node_key, last_iter_key),
                    None => false,
                };
                if crossed {
                    return None;
                } else {
                    self.last_rev_key = Some(node_key);
                    proof {
                        self.hi = Ghost((self.hi@ - 1) as nat);
                        assert(final(self)@ =~= old(self)@.drop_last());
                    }
                    return Some((node_key, node.left.as_val()));
                }
            } else {
                proof {
                    lemma_rev_fork(stack, subs, heap, total, pred, all, self.rev_pos@);
                }
                self.rev_stack.push(node.left.as_node());
                self.rev_stack.push(node.right.unwrap());
                proof {
                    self.rev = Ghost(rest.push(*top->Fork_left).push(*top->Fork_right));
                }
            }
        }
        proof {
            assert(self.rev@ =~= Seq::empty());
            lemma_side_empty::<K, V>(pred, all, self.rev_pos@);
        }
        None
    }
}

} // verus!
