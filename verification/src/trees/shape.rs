//! The tree as a mathematical object.
//!
//! A `Shape` says which record stands where in a tree and what each record holds. The
//! search tree keeps one as ghost state; what the executable code does to the records of
//! the pool is justified against it.

use vstd::prelude::*;
use crate::allocator::NodeAddr;
use crate::order::{lemma_order, lt, total_order};
use crate::trees::{TreeNode, TreePtr};

verus! {

/// A non-empty tree: a leaf with its key and value, or a fork with its routing key and
/// two subtrees. `at` is the address of the record that stands at this place.
pub enum Shape<K, V> {
    Leaf { at: NodeAddr, key: K, val: V },
    Fork { at: NodeAddr, key: K, left: Box<Shape<K, V>>, right: Box<Shape<K, V>> },
}

/// What `get` gives for `key` on a tree with the bindings `m`.
pub open spec fn lookup<K, V>(m: Map<K, V>, key: K) -> Option<V> {
    if m.contains_key(key) {
        Some(m[key])
    } else {
        None
    }
}

impl<K, V> Shape<K, V> {
    /// The address of the record at the top.
    pub open spec fn at(self) -> NodeAddr {
        match self {
            Shape::Leaf { at, .. } => at,
            Shape::Fork { at, .. } => at,
        }
    }

    /// The addresses of all records.
    pub open spec fn addrs(self) -> Set<NodeAddr>
        decreases self,
    {
        match self {
            Shape::Leaf { at, .. } => set![at],
            Shape::Fork { at, left, right, .. } => left.addrs().union(right.addrs()).insert(at),
        }
    }

    /// The number of records.
    pub open spec fn size(self) -> nat
        decreases self,
    {
        match self {
            Shape::Leaf { .. } => 1,
            Shape::Fork { left, right, .. } => 1 + left.size() + right.size(),
        }
    }

    /// The number of leaves.
    pub open spec fn leaves(self) -> nat
        decreases self,
    {
        match self {
            Shape::Leaf { .. } => 1,
            Shape::Fork { left, right, .. } => left.leaves() + right.leaves(),
        }
    }

    /// The number of records on the longest way from the top to a leaf.
    pub open spec fn height(self) -> nat
        decreases self,
    {
        match self {
            Shape::Leaf { .. } => 1,
            Shape::Fork { left, right, .. } => 1 + if left.height() >= right.height() {
                left.height()
            } else {
                right.height()
            },
        }
    }

    /// The keys with their values, leaf by leaf from left to right.
    pub open spec fn entries(self) -> Seq<(K, V)>
        decreases self,
    {
        match self {
            Shape::Leaf { key, val, .. } => seq![(key, val)],
            Shape::Fork { left, right, .. } => left.entries() + right.entries(),
        }
    }

    /// The bindings that the leaves hold.
    pub open spec fn as_map(self) -> Map<K, V>
        decreases self,
    {
        match self {
            Shape::Leaf { key, val, .. } => Map::<K, V>::empty().insert(key, val),
            Shape::Fork { left, right, .. } => left.as_map().union_prefer_right(right.as_map()),
        }
    }

    /// No record stands at two places.
    pub open spec fn distinct(self) -> bool
        decreases self,
    {
        match self {
            Shape::Leaf { .. } => true,
            Shape::Fork { at, left, right, .. } => {
                &&& left.distinct()
                &&& right.distinct()
                &&& !left.addrs().contains(at)
                &&& !right.addrs().contains(at)
                &&& left.addrs().disjoint(right.addrs())
            },
        }
    }

    /// The records of `heap` are linked and filled as the shape says.
    pub open spec fn held_by(self, heap: Map<NodeAddr, TreeNode<K, V>>) -> bool
        decreases self,
    {
        match self {
            Shape::Leaf { at, key, val } => {
                &&& heap.contains_key(at)
                &&& heap[at].key == Some(key)
                &&& heap[at].right is None
                &&& heap[at].left == TreePtr::Val(Box::new(val))
            },
            Shape::Fork { at, key, left, right } => {
                &&& heap.contains_key(at)
                &&& heap[at].key == Some(key)
                &&& heap[at].right == Some(right.at())
                &&& heap[at].left == TreePtr::<V>::Node(left.at())
                &&& left.held_by(heap)
                &&& right.held_by(heap)
            },
        }
    }

    /// The number of records in the left subtree of a fork; 0 for a leaf.
    pub open spec fn left_size(self) -> nat {
        match self {
            Shape::Leaf { .. } => 0,
            Shape::Fork { left, .. } => left.size(),
        }
    }

    /// The fork turned to the right: its left subtree comes to the top, and the fork
    /// goes down to the right of it, taking over what was on the right there.
    pub open spec fn turned_right(self) -> Shape<K, V>
        recommends
            self is Fork,
            *self->Fork_left is Fork,
    {
        let up = *self->Fork_left;
        Shape::Fork {
            at: up.at(),
            key: up->Fork_key,
            left: up->Fork_left,
            right: Box::new(
                Shape::Fork {
                    at: self.at(),
                    key: self->Fork_key,
                    left: up->Fork_right,
                    right: self->Fork_right,
                },
            ),
        }
    }

    /// A turn to the right relinks two records and leaves the others alone: where the
    /// heap changes only in that way, it holds the turned shape, which has the same
    /// records and bindings in the same order, with a smaller left subtree.
    pub proof fn lemma_turned_right(
        self,
        heap: Map<NodeAddr, TreeNode<K, V>>,
        other: Map<NodeAddr, TreeNode<K, V>>,
    )
        requires
            self is Fork,
            *self->Fork_left is Fork,
            self.distinct(),
            self.held_by(heap),
            other.dom() =~= heap.dom(),
            other[self.at()].key == heap[self.at()].key,
            other[self.at()].right == heap[self.at()].right,
            other[self.at()].left == TreePtr::<V>::Node((*self->Fork_left)->Fork_right.at()),
            other[self->Fork_left.at()].key == heap[self->Fork_left.at()].key,
            other[self->Fork_left.at()].left == heap[self->Fork_left.at()].left,
            other[self->Fork_left.at()].right == Some(self.at()),
            forall|at: NodeAddr|
                heap.contains_key(at) && at != self.at() && at != self->Fork_left.at()
                    ==> #[trigger] other[at] == heap[at],
        ensures
            self.turned_right().held_by(other),
            self.turned_right().distinct(),
            self.turned_right().addrs() =~= self.addrs(),
            self.turned_right().entries() =~= self.entries(),
            self.turned_right().size() == self.size(),
            self.turned_right().leaves() == self.leaves(),
            self.turned_right().left_size() < self.left_size(),
    {
        let up = *self->Fork_left;
        let a = *up->Fork_left;
        let b = *up->Fork_right;
        let c = *self->Fork_right;
        assert(up.held_by(heap) && c.held_by(heap) && up.distinct() && c.distinct());
        assert(a.held_by(heap) && b.held_by(heap) && a.distinct() && b.distinct());
        a.lemma_addrs();
        b.lemma_addrs();
        c.lemma_addrs();
        up.lemma_addrs();
        self.lemma_held_addrs(heap);
        assert(up.addrs() =~= a.addrs().union(b.addrs()).insert(up.at()));
        assert(self.addrs() =~= up.addrs().union(c.addrs()).insert(self.at()));
        assert forall|x: NodeAddr| #[trigger] a.addrs().contains(x) implies other.contains_key(x)
            && other[x] == heap[x] by {
            assert(up.addrs().contains(x));
            assert(self.addrs().contains(x));
        }
        assert forall|x: NodeAddr| #[trigger] b.addrs().contains(x) implies other.contains_key(x)
            && other[x] == heap[x] by {
            assert(up.addrs().contains(x));
            assert(self.addrs().contains(x));
        }
        assert forall|x: NodeAddr| #[trigger] c.addrs().contains(x) implies other.contains_key(x)
            && other[x] == heap[x] by {
            assert(self.addrs().contains(x));
        }
        a.lemma_frame(heap, other);
        b.lemma_frame(heap, other);
        c.lemma_frame(heap, other);
        let down = Shape::Fork {
            at: self.at(),
            key: self->Fork_key,
            left: Box::new(b),
            right: Box::new(c),
        };
        let turned = self.turned_right();
        assert(turned == Shape::Fork {
            at: up.at(),
            key: up->Fork_key,
            left: Box::new(a),
            right: Box::new(down),
        });
        assert(down.addrs() =~= b.addrs().union(c.addrs()).insert(self.at()));
        assert(turned.addrs() =~= a.addrs().union(down.addrs()).insert(up.at()));
        assert(other.contains_key(self.at()) && other.contains_key(up.at()));
        assert(down.held_by(other));
        assert(down.distinct());
        assert(down.entries() == b.entries() + c.entries());
        assert(up.entries() == a.entries() + b.entries());
        assert(turned.entries() == a.entries() + down.entries());
        assert(self.entries() == up.entries() + c.entries());
        assert(a.entries() + (b.entries() + c.entries()) =~= (a.entries() + b.entries())
            + c.entries());
        assert(down.size() == 1 + b.size() + c.size());
        assert(down.leaves() == b.leaves() + c.leaves());
        assert(up.size() == 1 + a.size() + b.size());
        assert(up.leaves() == a.leaves() + b.leaves());
    }

    /// The top record is among the records, and there are finitely many.
    pub proof fn lemma_addrs(self)
        ensures
            self.addrs().contains(self.at()),
            self.addrs().finite(),
        decreases self,
    {
        match self {
            Shape::Leaf { .. } => {},
            Shape::Fork { left, right, .. } => {
                left.lemma_addrs();
                right.lemma_addrs();
            },
        }
    }

    /// A tree of `n` leaves has `n - 1` forks, and where no record stands at two places,
    /// it has as many records as leaves and forks together.
    pub proof fn lemma_size(self)
        ensures
            self.size() + 1 == 2 * self.leaves(),
            self.distinct() ==> self.addrs().len() == self.size(),
        decreases self,
    {
        match self {
            Shape::Leaf { .. } => {},
            Shape::Fork { at, left, right, .. } => {
                left.lemma_size();
                right.lemma_size();
                left.lemma_addrs();
                right.lemma_addrs();
                if self.distinct() {
                    vstd::set_lib::lemma_set_disjoint_lens(left.addrs(), right.addrs());
                }
            },
        }
    }

    /// A shape is held by every heap that agrees with a holding heap on its records.
    pub proof fn lemma_frame(
        self,
        heap: Map<NodeAddr, TreeNode<K, V>>,
        other: Map<NodeAddr, TreeNode<K, V>>,
    )
        requires
            self.held_by(heap),
            forall|at: NodeAddr| #[trigger]
                self.addrs().contains(at) ==> other.contains_key(at) && other[at] == heap[at],
        ensures
            self.held_by(other),
        decreases self,
    {
        match self {
            Shape::Leaf { at, .. } => {
                assert(self.addrs().contains(at));
            },
            Shape::Fork { at, left, right, .. } => {
                assert(self.addrs().contains(at));
                assert forall|a: NodeAddr|
                    #[trigger] left.addrs().contains(a) implies
                    other.contains_key(a) && other[a] == heap[a] by {
                    assert(self.addrs().contains(a));
                }
                assert forall|a: NodeAddr|
                    #[trigger] right.addrs().contains(a) implies
                    other.contains_key(a) && other[a] == heap[a] by {
                    assert(self.addrs().contains(a));
                }
                left.lemma_frame(heap, other);
                right.lemma_frame(heap, other);
            },
        }
    }

    /// Every record of a held shape is a record of the heap.
    pub proof fn lemma_held_addrs(self, heap: Map<NodeAddr, TreeNode<K, V>>)
        requires
            self.held_by(heap),
        ensures
            forall|at: NodeAddr| #[trigger] self.addrs().contains(at) ==> heap.contains_key(at),
        decreases self,
    {
        match self {
            Shape::Leaf { .. } => {},
            Shape::Fork { left, right, .. } => {
                left.lemma_held_addrs(heap);
                right.lemma_held_addrs(heap);
            },
        }
        assert forall|at: NodeAddr| #[trigger] self.addrs().contains(at) implies heap.contains_key(
            at,
        ) by {
            if self is Fork && at != self.at() {
                assert(self->Fork_left.addrs().contains(at) || self->Fork_right.addrs().contains(
                    at,
                ));
            }
        }
    }
}

impl<K: Ord + Clone, V> Shape<K, V> {
    /// The routing rule holds at every fork: keys before the routing key are on the
    /// left, all others on the right.
    pub open spec fn ordered(self) -> bool
        decreases self,
    {
        match self {
            Shape::Leaf { .. } => true,
            Shape::Fork { key, left, right, .. } => {
                &&& left.ordered()
                &&& right.ordered()
                &&& forall|k: K| #[trigger] left.as_map().contains_key(k) ==> lt(k, key)
                &&& forall|k: K| #[trigger] right.as_map().contains_key(k) ==> !lt(k, key)
            },
        }
    }

    /// The subtree in which a search for `key` goes on from a fork.
    pub open spec fn toward(self, key: K) -> Shape<K, V>
        recommends
            self is Fork,
    {
        if lt(key, self->Fork_key) {
            *self->Fork_left
        } else {
            *self->Fork_right
        }
    }

    /// A search goes where the key is: what a fork binds to `key`, the subtree toward
    /// `key` binds to it.
    pub proof fn lemma_toward(self, key: K)
        requires
            total_order::<K>(),
            self is Fork,
            self.ordered(),
        ensures
            lookup(self.as_map(), key) == lookup(self.toward(key).as_map(), key),
    {
        lemma_order::<K>();
        let left = *self->Fork_left;
        let right = *self->Fork_right;
        assert(self.as_map() == left.as_map().union_prefer_right(right.as_map()));
        if lt(key, self->Fork_key) {
            assert(!right.as_map().contains_key(key));
        } else {
            assert(!left.as_map().contains_key(key));
        }
    }

    /// The leaf at which a search for `key` ends.
    pub open spec fn landing(self, key: K) -> Shape<K, V>
        decreases self,
    {
        match self {
            Shape::Leaf { .. } => self,
            Shape::Fork { .. } => self.toward(key).landing(key),
        }
    }

    /// A search for `other` takes the same turns as a search for `key`.
    pub open spec fn routes_like(self, key: K, other: K) -> bool
        decreases self,
    {
        match self {
            Shape::Leaf { .. } => true,
            Shape::Fork { key: k, .. } => lt(key, k) == lt(other, k) && self.toward(
                key,
            ).routes_like(key, other),
        }
    }

    /// A search for `key` takes the turns that it takes.
    pub proof fn lemma_routes_like_self(self, key: K)
        ensures
            self.routes_like(key, key),
        decreases self,
    {
        if self is Fork {
            self.toward(key).lemma_routes_like_self(key);
        }
    }

    /// The shape in which `new` stands where a search for `key` ends.
    pub open spec fn graft(self, key: K, new: Shape<K, V>) -> Shape<K, V>
        decreases self,
    {
        match self {
            Shape::Leaf { .. } => new,
            Shape::Fork { at, key: k, left, right } => if lt(key, k) {
                Shape::Fork { at, key: k, left: Box::new(left.graft(key, new)), right }
            } else {
                Shape::Fork { at, key: k, left, right: Box::new(right.graft(key, new)) }
            },
        }
    }

    /// What takes the place of a leaf when `key` is bound to `value` and the search for
    /// `key` ends at that leaf: the leaf with the new value, where it holds `key`; else a
    /// fork at the leaf's record over two leaves, the old binding at `kept_at` and the
    /// new one at `added_at`, the lesser key on the left and the greater key routing.
    pub open spec fn leaf_with(
        self,
        key: K,
        value: V,
        kept_at: NodeAddr,
        added_at: NodeAddr,
    ) -> Shape<K, V>
        recommends
            self is Leaf,
    {
        let kept = Shape::Leaf { at: kept_at, key: self->Leaf_key, val: self->Leaf_val };
        let added = Shape::Leaf { at: added_at, key, val: value };
        if self->Leaf_key == key {
            Shape::Leaf { at: self.at(), key, val: value }
        } else if lt(self->Leaf_key, key) {
            Shape::Fork { at: self.at(), key, left: Box::new(kept), right: Box::new(added) }
        } else {
            Shape::Fork {
                at: self.at(),
                key: self->Leaf_key,
                left: Box::new(added),
                right: Box::new(kept),
            }
        }
    }

    /// The tree after `key` is bound to `value`: the leaf at which the search for `key`
    /// ends gives way to `leaf_with`.
    pub open spec fn inserted(
        self,
        key: K,
        value: V,
        kept_at: NodeAddr,
        added_at: NodeAddr,
    ) -> Shape<K, V> {
        self.graft(key, self.landing(key).leaf_with(key, value, kept_at, added_at))
    }

    /// The tree after the binding of `key` is taken away, if anything is left: the tree
    /// as it is where `key` is not bound, nothing where its only leaf goes, and `prune`
    /// else.
    pub open spec fn removed(self, key: K) -> Option<Shape<K, V>> {
        if self.landing(key)->Leaf_key != key {
            Some(self)
        } else if self is Leaf {
            None
        } else {
            Some(self.prune(key))
        }
    }

    /// Every fork has half of its leaves on its left, or one less than half where their
    /// number is odd.
    pub open spec fn halved(self) -> bool
        decreases self,
    {
        match self {
            Shape::Leaf { .. } => true,
            Shape::Fork { left, right, .. } => {
                &&& left.leaves() == self.leaves() / 2
                &&& left.halved()
                &&& right.halved()
            },
        }
    }

    /// The leaf at which a search ends is a leaf of the shape, and a search for its own
    /// key ends there too.
    pub proof fn lemma_landing(self, key: K)
        requires
            total_order::<K>(),
            self.ordered(),
        ensures
            self.landing(key) is Leaf,
            self.addrs().contains(self.landing(key).at()),
            self.as_map().contains_key(self.landing(key)->Leaf_key),
            self.as_map()[self.landing(key)->Leaf_key] == self.landing(key)->Leaf_val,
            self.routes_like(key, self.landing(key)->Leaf_key),
            lookup(self.as_map(), key) == lookup(self.landing(key).as_map(), key),
        decreases self,
    {
        lemma_order::<K>();
        match self {
            Shape::Leaf { .. } => {},
            Shape::Fork { key: k, left, right, .. } => {
                self.toward(key).lemma_landing(key);
                self.lemma_toward(key);
                let found = self.landing(key)->Leaf_key;
                if lt(key, k) {
                    assert(left.as_map().contains_key(found));
                    assert(!right.as_map().contains_key(found));
                } else {
                    assert(right.as_map().contains_key(found));
                }
            },
        }
    }

    /// Grafting keeps the records in place: where the heap changes only at the leaf
    /// that is replaced and at records that are new, it holds the grafted shape.
    pub proof fn lemma_graft_held(
        self,
        key: K,
        new: Shape<K, V>,
        heap: Map<NodeAddr, TreeNode<K, V>>,
        other: Map<NodeAddr, TreeNode<K, V>>,
    )
        requires
            self.distinct(),
            self.held_by(heap),
            new.distinct(),
            new.held_by(other),
            new.at() == self.landing(key).at(),
            forall|at: NodeAddr| #[trigger]
                self.addrs().contains(at) && at != new.at() ==> other.contains_key(at)
                    && other[at] == heap[at],
            forall|at: NodeAddr| #[trigger]
                new.addrs().contains(at) && at != new.at() ==> !self.addrs().contains(at),
        ensures
            self.graft(key, new).held_by(other),
            self.graft(key, new).distinct(),
            self.graft(key, new).at() == self.at(),
            self.graft(key, new).addrs() =~= self.addrs().union(new.addrs()),
            self.addrs().contains(self.landing(key).at()),
        decreases self,
    {
        match self {
            Shape::Leaf { at, .. } => {
                new.lemma_addrs();
            },
            Shape::Fork { at, key: k, left, right } => {
                let on = self.toward(key);
                let off = if lt(key, k) {
                    *right
                } else {
                    *left
                };
                assert forall|a: NodeAddr| #[trigger]
                    on.addrs().contains(a) && a != new.at() implies other.contains_key(a)
                    && other[a] == heap[a] by {
                    assert(self.addrs().contains(a));
                }
                assert forall|a: NodeAddr| #[trigger]
                    new.addrs().contains(a) && a != new.at() implies !on.addrs().contains(a) by {
                    if on.addrs().contains(a) {
                        assert(self.addrs().contains(a));
                    }
                }
                on.lemma_graft_held(key, new, heap, other);
                assert(on.addrs().contains(new.at()));
                assert forall|a: NodeAddr|
                    #[trigger] off.addrs().contains(a) implies
                    other.contains_key(a) && other[a] == heap[a] by {
                    assert(self.addrs().contains(a));
                    assert(a != new.at());
                }
                off.lemma_frame(heap, other);
                assert(self.addrs().contains(at));
                assert(at != new.at());
                let grafted = self.graft(key, new);
                assert(grafted.addrs() =~= self.addrs().union(new.addrs()));
                assert forall|a: NodeAddr|
                    new.addrs().contains(a) implies
                    a != at && !off.addrs().contains(a) by {
                    if a != new.at() {
                        assert(!self.addrs().contains(a));
                        if off.addrs().contains(a) {
                            assert(self.addrs().contains(a));
                        }
                    }
                }
            },
        }
    }

    /// Grafting keeps the order: where the keys of `new` are routed like `key`, the
    /// grafted shape is ordered, and it binds what the shape bound without the replaced
    /// leaf, and what `new` binds.
    pub proof fn lemma_graft_map(self, key: K, new: Shape<K, V>)
        requires
            total_order::<K>(),
            self.ordered(),
            new.ordered(),
            forall|k: K| #[trigger] new.as_map().contains_key(k) ==> self.routes_like(key, k),
        ensures
            self.graft(key, new).ordered(),
            self.graft(key, new).as_map() =~= self.as_map().remove(
                self.landing(key)->Leaf_key,
            ).union_prefer_right(new.as_map()),
            self.graft(key, new).leaves() + 1 == self.leaves() + new.leaves(),
        decreases self,
    {
        lemma_order::<K>();
        match self {
            Shape::Leaf { .. } => {},
            Shape::Fork { at, key: k, left, right } => {
                let on = self.toward(key);
                assert forall|x: K|
                    #[trigger] new.as_map().contains_key(x) implies
                    on.routes_like(key, x) by {
                    assert(self.routes_like(key, x));
                }
                on.lemma_graft_map(key, new);
                on.lemma_landing(key);
                let gone = self.landing(key)->Leaf_key;
                let grafted = on.graft(key, new);
                assert forall|x: K|
                    #[trigger] grafted.as_map().contains_key(x) implies
                    (lt(x, k) == lt(key, k)) by {
                    if new.as_map().contains_key(x) {
                        assert(self.routes_like(key, x));
                    } else {
                        assert(on.as_map().contains_key(x));
                    }
                }
                if lt(key, k) {
                    assert(left.as_map().contains_key(gone));
                    assert(!right.as_map().contains_key(gone));
                    assert forall|x: K|
                        #[trigger] new.as_map().contains_key(x) implies
                        !right.as_map().contains_key(x) by {
                        assert(self.routes_like(key, x));
                    }
                } else {
                    assert(right.as_map().contains_key(gone));
                    assert(!left.as_map().contains_key(gone));
                    assert forall|x: K|
                        #[trigger] new.as_map().contains_key(x) implies
                        !left.as_map().contains_key(x) by {
                        assert(self.routes_like(key, x));
                    }
                }
            },
        }
    }

    /// The subtree that a search for `key` leaves aside at a fork.
    pub open spec fn away(self, key: K) -> Shape<K, V>
        recommends
            self is Fork,
    {
        if lt(key, self->Fork_key) {
            *self->Fork_right
        } else {
            *self->Fork_left
        }
    }

    /// The fork just above the leaf at which a search for `key` ends.
    pub open spec fn last_fork(self, key: K) -> Shape<K, V>
        recommends
            self is Fork,
        decreases self,
    {
        match self {
            Shape::Leaf { .. } => self,
            Shape::Fork { .. } => if self.toward(key) is Leaf {
                self
            } else {
                self.toward(key).last_fork(key)
            },
        }
    }

    /// The same tree with another record at the top.
    pub open spec fn moved_to(self, to: NodeAddr) -> Shape<K, V> {
        match self {
            Shape::Leaf { key, val, .. } => Shape::Leaf { at: to, key, val },
            Shape::Fork { key, left, right, .. } => Shape::Fork { at: to, key, left, right },
        }
    }

    /// The shape without the leaf at which a search for `key` ends: the sibling of that
    /// leaf moves up to the record of the fork above them.
    pub open spec fn prune(self, key: K) -> Shape<K, V>
        recommends
            self is Fork,
        decreases self,
    {
        match self {
            Shape::Leaf { .. } => self,
            Shape::Fork { at, key: k, left, right } => if self.toward(key) is Leaf {
                self.away(key).moved_to(at)
            } else if lt(key, k) {
                Shape::Fork { at, key: k, left: Box::new(left.prune(key)), right }
            } else {
                Shape::Fork { at, key: k, left, right: Box::new(right.prune(key)) }
            },
        }
    }

    /// Moving a tree to another top record changes nothing else about it.
    pub proof fn lemma_moved(self, to: NodeAddr)
        ensures
            self.moved_to(to).at() == to,
            self.moved_to(to).ordered() == self.ordered(),
            self.moved_to(to).as_map() == self.as_map(),
            self.moved_to(to).entries() == self.entries(),
            self.moved_to(to).leaves() == self.leaves(),
            self.moved_to(to).size() == self.size(),
            self.moved_to(to).height() == self.height(),
    {
    }

    /// Pruning takes one binding away and keeps the order.
    pub proof fn lemma_prune_map(self, key: K)
        requires
            total_order::<K>(),
            self is Fork,
            self.ordered(),
        ensures
            self.prune(key).ordered(),
            self.prune(key).as_map() =~= self.as_map().remove(self.landing(key)->Leaf_key),
            self.prune(key).leaves() + 1 == self.leaves(),
        decreases self,
    {
        lemma_order::<K>();
        let on = self.toward(key);
        let off = self.away(key);
        let k = self->Fork_key;
        on.lemma_landing(key);
        let gone = self.landing(key)->Leaf_key;
        if on is Leaf {
            off.lemma_moved(self.at());
            assert(on.as_map() =~= Map::<K, V>::empty().insert(gone, on->Leaf_val));
            assert(self.prune(key).as_map() =~= off.as_map());
            assert(on.leaves() == 1);
            if lt(key, k) {
                assert(on.as_map().contains_key(gone));
                assert(!off.as_map().contains_key(gone));
            } else {
                assert(on.as_map().contains_key(gone));
                assert(!off.as_map().contains_key(gone));
            }
        } else {
            on.lemma_prune_map(key);
            if lt(key, k) {
                assert(on.as_map().contains_key(gone));
                assert(!off.as_map().contains_key(gone));
            } else {
                assert(on.as_map().contains_key(gone));
                assert(!off.as_map().contains_key(gone));
            }
        }
    }

    /// Pruning keeps the other records in place: where the record of the last fork takes
    /// over what the sibling's record held and nothing else changes, the heap holds the
    /// pruned shape, whose records are those of the shape less the leaf and its sibling.
    pub proof fn lemma_prune_held(
        self,
        key: K,
        heap: Map<NodeAddr, TreeNode<K, V>>,
        other: Map<NodeAddr, TreeNode<K, V>>,
    )
        requires
            self is Fork,
            self.distinct(),
            self.held_by(heap),
            other.contains_key(self.last_fork(key).at()),
            other[self.last_fork(key).at()] == heap[self.last_fork(key).away(key).at()],
            forall|at: NodeAddr| #[trigger]
                self.addrs().contains(at) && at != self.last_fork(key).at() && at
                    != self.last_fork(key).away(key).at() && at != self.landing(key).at()
                    ==> other.contains_key(at) && other[at] == heap[at],
        ensures
            self.prune(key).held_by(other),
            self.prune(key).distinct(),
            self.prune(key).at() == self.at(),
            self.prune(key).addrs() =~= self.addrs().remove(self.landing(key).at()).remove(
                self.last_fork(key).away(key).at(),
            ),
            self.last_fork(key) is Fork,
            self.last_fork(key).toward(key) == self.landing(key),
            self.addrs().contains(self.last_fork(key).at()),
            self.addrs().contains(self.last_fork(key).away(key).at()),
            self.addrs().contains(self.landing(key).at()),
            self.last_fork(key).at() != self.landing(key).at(),
            self.last_fork(key).at() != self.last_fork(key).away(key).at(),
            self.landing(key).at() != self.last_fork(key).away(key).at(),
        decreases self,
    {
        let at = self.at();
        let on = self.toward(key);
        let off = self.away(key);
        on.lemma_addrs();
        off.lemma_addrs();
        assert(self->Fork_left.held_by(heap) && self->Fork_right.held_by(heap));
        assert(self->Fork_left.distinct() && self->Fork_right.distinct());
        assert(on.held_by(heap) && off.held_by(heap) && on.distinct() && off.distinct());
        assert(self.addrs().contains(at));
        assert(self.addrs() =~= on.addrs().union(off.addrs()).insert(at));
        assert(on.addrs().disjoint(off.addrs()));
        assert(!on.addrs().contains(at) && !off.addrs().contains(at));
        if on is Leaf {
            assert(on.addrs() =~= set![on.at()]);
            assert(self.last_fork(key) == self);
            assert(self.landing(key) == on);
            match off {
                Shape::Leaf { .. } => {
                    assert(off.addrs() =~= set![off.at()]);
                },
                Shape::Fork { left, right, .. } => {
                    left.lemma_addrs();
                    right.lemma_addrs();
                    assert(off.addrs() =~= left.addrs().union(right.addrs()).insert(off.at()));
                    assert forall|a: NodeAddr|
                        #[trigger] left.addrs().contains(a) implies
                        other.contains_key(a) && other[a] == heap[a] by {
                        assert(off.addrs().contains(a));
                        assert(self.addrs().contains(a));
                        assert(a != off.at() && a != on.at() && a != at);
                    }
                    assert forall|a: NodeAddr|
                        #[trigger] right.addrs().contains(a) implies
                        other.contains_key(a) && other[a] == heap[a] by {
                        assert(off.addrs().contains(a));
                        assert(self.addrs().contains(a));
                        assert(a != off.at() && a != on.at() && a != at);
                    }
                    left.lemma_frame(heap, other);
                    right.lemma_frame(heap, other);
                    assert(self.prune(key).addrs() =~= self.addrs().remove(on.at()).remove(
                        off.at(),
                    ));
                },
            }
        } else {
            assert(self.last_fork(key) == on.last_fork(key));
            assert(self.landing(key) == on.landing(key));
            assert forall|a: NodeAddr| #[trigger]
                on.addrs().contains(a) && a != on.last_fork(key).at() && a != on.last_fork(
                    key,
                ).away(key).at() && a != on.landing(key).at() implies other.contains_key(a)
                && other[a] == heap[a] by {
                assert(self.addrs().contains(a));
            }
            on.lemma_prune_held(key, heap, other);
            assert forall|a: NodeAddr|
                #[trigger] off.addrs().contains(a) implies
                other.contains_key(a) && other[a] == heap[a] by {
                assert(self.addrs().contains(a));
            }
            off.lemma_frame(heap, other);
            assert(self.prune(key).addrs() =~= self.addrs().remove(
                self.landing(key).at(),
            ).remove(self.last_fork(key).away(key).at()));
        }
    }

    /// The fork rotated to the left in place: the routing key of its right child comes to
    /// the top, and the right child's record goes down to the left with the old key of
    /// the top, between the old left subtree and what was on the left below it.
    pub open spec fn rotated_left(self) -> Shape<K, V>
        recommends
            self is Fork,
            *self->Fork_right is Fork,
    {
        let down = *self->Fork_right;
        Shape::Fork {
            at: self.at(),
            key: down->Fork_key,
            left: Box::new(
                Shape::Fork {
                    at: down.at(),
                    key: self->Fork_key,
                    left: self->Fork_left,
                    right: down->Fork_left,
                },
            ),
            right: down->Fork_right,
        }
    }

    /// The fork rotated to the right in place: the routing key of its left child comes to
    /// the top, and the left child's record goes down to the right with the old key of
    /// the top, between what was on the right below it and the old right subtree.
    pub open spec fn rotated_right(self) -> Shape<K, V>
        recommends
            self is Fork,
            *self->Fork_left is Fork,
    {
        let down = *self->Fork_left;
        Shape::Fork {
            at: self.at(),
            key: down->Fork_key,
            left: down->Fork_left,
            right: Box::new(
                Shape::Fork {
                    at: down.at(),
                    key: self->Fork_key,
                    left: down->Fork_right,
                    right: self->Fork_right,
                },
            ),
        }
    }

    /// An ordered tree binds a key.
    pub proof fn lemma_some_key(self) -> (k: K)
        requires
            total_order::<K>(),
            self.ordered(),
        ensures
            self.as_map().contains_key(k),
    {
        self.lemma_landing(self.entries()[0].0);
        self.landing(self.entries()[0].0)->Leaf_key
    }

    /// A rotation to the left keeps the tree: the rotated shape has the same records and
    /// the same bindings in the same order as the shape, and is ordered if the shape is.
    pub proof fn lemma_rotated_left(self)
        requires
            total_order::<K>(),
            self is Fork,
            *self->Fork_right is Fork,
            self.distinct(),
        ensures
            self.rotated_left().distinct(),
            self.rotated_left().addrs() =~= self.addrs(),
            self.rotated_left().entries() =~= self.entries(),
            self.rotated_left().as_map() =~= self.as_map(),
            self.ordered() ==> self.rotated_left().ordered(),
    {
        lemma_order::<K>();
        let a = *self->Fork_left;
        let right = *self->Fork_right;
        let b = *right->Fork_left;
        let c = *right->Fork_right;
        a.lemma_addrs();
        right.lemma_addrs();
        b.lemma_addrs();
        c.lemma_addrs();
        assert(a.distinct() && right.distinct());
        assert(b.distinct() && c.distinct());
        let inner = Shape::Fork {
            at: right.at(),
            key: self->Fork_key,
            left: Box::new(a),
            right: Box::new(b),
        };
        let turned = self.rotated_left();
        assert(turned == Shape::Fork {
            at: self.at(),
            key: right->Fork_key,
            left: Box::new(inner),
            right: Box::new(c),
        });
        assert(right.addrs() =~= b.addrs().union(c.addrs()).insert(right.at()));
        assert(self.addrs() =~= a.addrs().union(right.addrs()).insert(self.at()));
        assert(inner.addrs() =~= a.addrs().union(b.addrs()).insert(right.at()));
        assert(turned.addrs() =~= inner.addrs().union(c.addrs()).insert(self.at()));
        assert(a.addrs().disjoint(b.addrs())) by {
            assert forall|x: NodeAddr| !(a.addrs().contains(x) && b.addrs().contains(x)) by {
                if b.addrs().contains(x) {
                    assert(right.addrs().contains(x));
                }
            }
        }
        assert(inner.distinct());
        assert(inner.addrs().disjoint(c.addrs())) by {
            assert forall|x: NodeAddr| !(inner.addrs().contains(x) && c.addrs().contains(x)) by {
                if c.addrs().contains(x) {
                    assert(right.addrs().contains(x));
                }
            }
        }
        assert(turned.distinct());
        assert(inner.entries() == a.entries() + b.entries());
        assert(right.entries() == b.entries() + c.entries());
        assert((a.entries() + b.entries()) + c.entries() =~= a.entries() + (b.entries()
            + c.entries()));
        assert(inner.as_map() == a.as_map().union_prefer_right(b.as_map()));
        assert(right.as_map() == b.as_map().union_prefer_right(c.as_map()));
        assert(turned.as_map() =~= self.as_map());
        if self.ordered() {
            assert(a.ordered() && right.ordered());
            assert(b.ordered() && c.ordered());
            let some = b.lemma_some_key();
            assert(right.as_map().contains_key(some));
            assert(!lt(some, self->Fork_key));
            assert(lt(some, right->Fork_key));
            assert forall|k: K| #[trigger] b.as_map().contains_key(k) implies !lt(
                k,
                self->Fork_key,
            ) by {
                assert(right.as_map().contains_key(k));
            }
            assert(inner.ordered());
            assert forall|k: K| #[trigger] inner.as_map().contains_key(k) implies lt(
                k,
                right->Fork_key,
            ) by {
                if !b.as_map().contains_key(k) {
                    assert(a.as_map().contains_key(k));
                    assert(lt(k, self->Fork_key));
                }
            }
        }
    }

    /// A rotation to the right keeps the tree: the rotated shape has the same records
    /// and the same bindings in the same order as the shape, and is ordered if the shape
    /// is.
    pub proof fn lemma_rotated_right(self)
        requires
            total_order::<K>(),
            self is Fork,
            *self->Fork_left is Fork,
            self.distinct(),
        ensures
            self.rotated_right().distinct(),
            self.rotated_right().addrs() =~= self.addrs(),
            self.rotated_right().entries() =~= self.entries(),
            self.rotated_right().as_map() =~= self.as_map(),
            self.ordered() ==> self.rotated_right().ordered(),
    {
        lemma_order::<K>();
        let left = *self->Fork_left;
        let a = *left->Fork_left;
        let b = *left->Fork_right;
        let c = *self->Fork_right;
        a.lemma_addrs();
        left.lemma_addrs();
        b.lemma_addrs();
        c.lemma_addrs();
        assert(c.distinct() && left.distinct());
        assert(a.distinct() && b.distinct());
        let inner = Shape::Fork {
            at: left.at(),
            key: self->Fork_key,
            left: Box::new(b),
            right: Box::new(c),
        };
        let turned = self.rotated_right();
        assert(turned == Shape::Fork {
            at: self.at(),
            key: left->Fork_key,
            left: Box::new(a),
            right: Box::new(inner),
        });
        assert(left.addrs() =~= a.addrs().union(b.addrs()).insert(left.at()));
        assert(self.addrs() =~= left.addrs().union(c.addrs()).insert(self.at()));
        assert(inner.addrs() =~= b.addrs().union(c.addrs()).insert(left.at()));
        assert(turned.addrs() =~= a.addrs().union(inner.addrs()).insert(self.at()));
        assert(b.addrs().disjoint(c.addrs())) by {
            assert forall|x: NodeAddr| !(b.addrs().contains(x) && c.addrs().contains(x)) by {
                if b.addrs().contains(x) {
                    assert(left.addrs().contains(x));
                }
            }
        }
        assert(inner.distinct());
        assert(a.addrs().disjoint(inner.addrs())) by {
            assert forall|x: NodeAddr| !(a.addrs().contains(x) && inner.addrs().contains(x)) by {
                if a.addrs().contains(x) {
                    assert(left.addrs().contains(x));
                }
            }
        }
        assert(turned.distinct());
        assert(inner.entries() == b.entries() + c.entries());
        assert(left.entries() == a.entries() + b.entries());
        assert((a.entries() + b.entries()) + c.entries() =~= a.entries() + (b.entries()
            + c.entries()));
        assert(inner.as_map() == b.as_map().union_prefer_right(c.as_map()));
        assert(left.as_map() == a.as_map().union_prefer_right(b.as_map()));
        assert(turned.as_map() =~= self.as_map());
        if self.ordered() {
            assert(c.ordered() && left.ordered());
            assert(a.ordered() && b.ordered());
            let some = b.lemma_some_key();
            assert(left.as_map().contains_key(some));
            assert(lt(some, self->Fork_key));
            assert(!lt(some, left->Fork_key));
            assert forall|k: K| #[trigger] b.as_map().contains_key(k) implies lt(
                k,
                self->Fork_key,
            ) by {
                assert(left.as_map().contains_key(k));
            }
            assert(inner.ordered());
            assert forall|k: K| #[trigger] inner.as_map().contains_key(k) implies !lt(
                k,
                left->Fork_key,
            ) by {
                if !b.as_map().contains_key(k) {
                    assert(c.as_map().contains_key(k));
                    assert(!lt(k, self->Fork_key));
                }
            }
        }
    }

    /// Where the records of the top and of its right child are relinked as a rotation
    /// to the left does it, and nothing else changes, the heap holds the rotated shape.
    pub proof fn lemma_rotated_left_held(
        self,
        heap: Map<NodeAddr, TreeNode<K, V>>,
        other: Map<NodeAddr, TreeNode<K, V>>,
    )
        requires
            self is Fork,
            *self->Fork_right is Fork,
            self.distinct(),
            self.held_by(heap),
            other.dom() =~= heap.dom(),
            other[self.at()].key == heap[self->Fork_right.at()].key,
            other[self.at()].left == TreePtr::<V>::Node(self->Fork_right.at()),
            other[self.at()].right == heap[self->Fork_right.at()].right,
            other[self->Fork_right.at()].key == heap[self.at()].key,
            other[self->Fork_right.at()].left == heap[self.at()].left,
            other[self->Fork_right.at()].right == Some(heap[self->Fork_right.at()].left->Node_0),
            forall|at: NodeAddr|
                heap.contains_key(at) && at != self.at() && at != self->Fork_right.at()
                    ==> #[trigger] other[at] == heap[at],
        ensures
            self.rotated_left().held_by(other),
    {
        let a = *self->Fork_left;
        let down = *self->Fork_right;
        let b = *down->Fork_left;
        let c = *down->Fork_right;
        assert(a.held_by(heap) && down.held_by(heap) && a.distinct() && down.distinct());
        assert(b.held_by(heap) && c.held_by(heap));
        a.lemma_addrs();
        b.lemma_addrs();
        c.lemma_addrs();
        down.lemma_addrs();
        self.lemma_held_addrs(heap);
        assert(down.addrs() =~= b.addrs().union(c.addrs()).insert(down.at()));
        assert(self.addrs() =~= a.addrs().union(down.addrs()).insert(self.at()));
        assert forall|x: NodeAddr| #[trigger] a.addrs().contains(x) implies other.contains_key(x)
            && other[x] == heap[x] by {
            assert(self.addrs().contains(x));
        }
        assert forall|x: NodeAddr| #[trigger] b.addrs().contains(x) implies other.contains_key(x)
            && other[x] == heap[x] by {
            assert(down.addrs().contains(x));
            assert(self.addrs().contains(x));
        }
        assert forall|x: NodeAddr| #[trigger] c.addrs().contains(x) implies other.contains_key(x)
            && other[x] == heap[x] by {
            assert(down.addrs().contains(x));
            assert(self.addrs().contains(x));
        }
        a.lemma_frame(heap, other);
        b.lemma_frame(heap, other);
        c.lemma_frame(heap, other);
        let inner = Shape::Fork {
            at: down.at(),
            key: self->Fork_key,
            left: Box::new(a),
            right: Box::new(b),
        };
        assert(other.contains_key(self.at()) && other.contains_key(down.at()));
        assert(inner.held_by(other));
    }

    /// Where the records of the top and of its left child are relinked as a rotation to
    /// the right does it, and nothing else changes, the heap holds the rotated shape.
    pub proof fn lemma_rotated_right_held(
        self,
        heap: Map<NodeAddr, TreeNode<K, V>>,
        other: Map<NodeAddr, TreeNode<K, V>>,
    )
        requires
            self is Fork,
            *self->Fork_left is Fork,
            self.distinct(),
            self.held_by(heap),
            other.dom() =~= heap.dom(),
            other[self.at()].key == heap[self->Fork_left.at()].key,
            other[self.at()].left == heap[self->Fork_left.at()].left,
            other[self.at()].right == Some(self->Fork_left.at()),
            other[self->Fork_left.at()].key == heap[self.at()].key,
            other[self->Fork_left.at()].left == TreePtr::<V>::Node(
                heap[self->Fork_left.at()].right->0,
            ),
            other[self->Fork_left.at()].right == heap[self.at()].right,
            forall|at: NodeAddr|
                heap.contains_key(at) && at != self.at() && at != self->Fork_left.at()
                    ==> #[trigger] other[at] == heap[at],
        ensures
            self.rotated_right().held_by(other),
    {
        let down = *self->Fork_left;
        let a = *down->Fork_left;
        let b = *down->Fork_right;
        let c = *self->Fork_right;
        assert(c.held_by(heap) && down.held_by(heap) && c.distinct() && down.distinct());
        assert(a.held_by(heap) && b.held_by(heap));
        a.lemma_addrs();
        b.lemma_addrs();
        c.lemma_addrs();
        down.lemma_addrs();
        self.lemma_held_addrs(heap);
        assert(down.addrs() =~= a.addrs().union(b.addrs()).insert(down.at()));
        assert(self.addrs() =~= down.addrs().union(c.addrs()).insert(self.at()));
        assert forall|x: NodeAddr| #[trigger] a.addrs().contains(x) implies other.contains_key(x)
            && other[x] == heap[x] by {
            assert(down.addrs().contains(x));
            assert(self.addrs().contains(x));
        }
        assert forall|x: NodeAddr| #[trigger] b.addrs().contains(x) implies other.contains_key(x)
            && other[x] == heap[x] by {
            assert(down.addrs().contains(x));
            assert(self.addrs().contains(x));
        }
        assert forall|x: NodeAddr| #[trigger] c.addrs().contains(x) implies other.contains_key(x)
            && other[x] == heap[x] by {
            assert(self.addrs().contains(x));
        }
        a.lemma_frame(heap, other);
        b.lemma_frame(heap, other);
        c.lemma_frame(heap, other);
        let inner = Shape::Fork {
            at: down.at(),
            key: self->Fork_key,
            left: Box::new(b),
            right: Box::new(c),
        };
        assert(other.contains_key(self.at()) && other.contains_key(down.at()));
        assert(inner.held_by(other));
    }

    /// There are as many bindings as leaves.
    pub proof fn lemma_count(self)
        requires
            total_order::<K>(),
            self.ordered(),
        ensures
            self.as_map().dom().finite(),
            self.as_map().dom().len() == self.leaves(),
            self.leaves() > 0,
        decreases self,
    {
        match self {
            Shape::Leaf { key, val, .. } => {
                assert(self.as_map().dom() =~= set![key]);
            },
            Shape::Fork { key, left, right, .. } => {
                left.lemma_count();
                right.lemma_count();
                lemma_order::<K>();
                assert(self.as_map().dom() =~= left.as_map().dom().union(right.as_map().dom()));
                assert(left.as_map().dom().disjoint(right.as_map().dom())) by {
                    assert forall|k: K|
                        !(left.as_map().dom().contains(k) && right.as_map().dom().contains(k)) by {
                        if left.as_map().contains_key(k) && right.as_map().contains_key(k) {
                            assert(lt(k, key));
                        }
                    }
                }
                vstd::set_lib::lemma_set_disjoint_lens(left.as_map().dom(), right.as_map().dom());
            },
        }
    }
}

} // verus!
