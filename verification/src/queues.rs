//! Queues: first in, first out. The view of each is the sequence of its values, the one
//! that `dequeue` gives next at index 0 and the one enqueued last at the end.

use vstd::prelude::*;
use crate::allocator::{BiNode, BlockAllocator, Node, NodeAddr};
use crate::chains::{lemma_drop_first_holds, lemma_push_holds};

verus! {

/// What a queue holds after the values of `vals` were enqueued behind `start`, one after
/// the other.
pub open spec fn enqueued_all<T>(start: Seq<T>, vals: Seq<T>) -> Seq<T>
    decreases vals.len(),
{
    if vals.len() == 0 {
        start
    } else {
        enqueued_all(start, vals.drop_last()).push(vals.last())
    }
}

/// What is left of `held` after `count` values were dequeued.
pub open spec fn dequeued<T>(held: Seq<T>, count: nat) -> Seq<T>
    decreases count,
{
    if count == 0 {
        held
    } else {
        dequeued(held, (count - 1) as nat).drop_first()
    }
}

/// Enqueuing values in turn puts them at the end in their order, and dequeuing takes
/// from the front.
pub proof fn lemma_enqueued_dequeued<T>(start: Seq<T>, vals: Seq<T>, count: nat)
    ensures
        enqueued_all(start, vals) =~= start + vals,
        count <= start.len() ==> dequeued(start, count) =~= start.subrange(
            count as int,
            start.len() as int,
        ),
    decreases vals.len(), count,
{
    if vals.len() > 0 {
        lemma_enqueued_dequeued(start, vals.drop_last(), 0);
        assert(vals.drop_last().push(vals.last()) =~= vals);
    }
    if 0 < count <= start.len() {
        lemma_enqueued_dequeued(start, Seq::empty(), (count - 1) as nat);
    }
}

/// First in, first out: after the values of `vals` were enqueued in turn into an empty
/// queue, dequeuing gives them back in the same order, and with the last of them the
/// queue is empty again.
pub proof fn lemma_first_in_first_out<T>(vals: Seq<T>, count: nat)
    requires
        count < vals.len(),
    ensures
        dequeued(enqueued_all(Seq::empty(), vals), count).len() > 0,
        dequeued(enqueued_all(Seq::empty(), vals), count).first() == vals[count as int],
        dequeued(enqueued_all(Seq::empty(), vals), vals.len()) == Seq::<T>::empty(),
{
    lemma_enqueued_dequeued(Seq::empty(), vals, 0);
    assert(Seq::<T>::empty() + vals =~= vals);
    lemma_enqueued_dequeued(vals, Seq::empty(), count);
    lemma_enqueued_dequeued(vals, Seq::empty(), vals.len());
    assert(vals.subrange(vals.len() as int, vals.len() as int) =~= Seq::<T>::empty());
}

/// A queue of at most `max_len()` values, a limit chosen when the queue is made. The
/// values sit in a ring of that many slots.
pub struct BoundedQueue<T> {
    ring: Vec<Option<T>>,
    front: usize,
    rear: usize,
    max_size: usize,
    len: usize,
}

impl<T> View for BoundedQueue<T> {
    type V = Seq<T>;

    closed spec fn view(&self) -> Seq<T> {
        Seq::new(self.len as nat, |i: int| self.ring@[self.slot(i)]->0)
    }
}

impl<T> BoundedQueue<T> {
    /// The slot of the value that is `i` places behind the front, going round the ring.
    spec fn slot(&self, i: int) -> int {
        if self.front + i < self.max_size {
            self.front + i
        } else {
            self.front + i - self.max_size
        }
    }

    /// The limit that the queue was made with.
    pub closed spec fn limit(&self) -> nat {
        self.max_size as nat
    }

    /// The invariant: the ring has as many slots as the limit says; the values sit in
    /// the slots from `front` on, going round, and `rear` is the slot after the last
    /// of them.
    pub closed spec fn wf(&self) -> bool {
        &&& self.ring@.len() == self.max_size
        &&& self.len <= self.max_size
        &&& self.max_size > 0 ==> self.front < self.max_size && self.rear < self.max_size
        &&& self.max_size > 0 ==> self.rear == if self.len == self.max_size {
            self.front as int
        } else {
            self.slot(self.len as int)
        }
        &&& forall|i: int| 0 <= i < self.len ==> (#[trigger] self.ring@[self.slot(i)]) is Some
    }

    /// An empty queue.
    pub fn new(max_size: usize) -> (queue: Self)
        ensures
            queue.wf(),
            queue@ == Seq::<T>::empty(),
            queue.limit() == max_size,
    {
        let mut ring: Vec<Option<T>> = Vec::with_capacity(max_size);
        while ring.len() < max_size
            invariant
                ring@.len() <= max_size,
            decreases max_size - ring@.len(),
        {
            ring.push(None);
        }
        let queue = Self { ring, front: 0, rear: 0, max_size, len: 0 };
        assert(queue@ =~= Seq::<T>::empty());
        queue
    }

    /// Whether the queue holds no value.
    pub fn is_empty(&self) -> (r: bool)
        requires
            self.wf(),
        ensures
            r == (self@.len() == 0),
    {
        self.len == 0
    }

    /// The number of values held.
    pub fn len(&self) -> (r: usize)
        requires
            self.wf(),
        ensures
            r == self@.len(),
    {
        self.len
    }

    /// The number of values that the queue can hold.
    pub fn max_len(&self) -> (r: usize)
        ensures
            r == self.limit(),
    {
        self.max_size
    }

    /// Puts `val` at the end.
    pub fn enqueue(&mut self, val: T)
        requires
            old(self).wf(),
            old(self)@.len() < old(self).limit(),
        ensures
            final(self).wf(),
            final(self).limit() == old(self).limit(),
            final(self)@ == old(self)@.push(val),
    {
        let rear = self.rear;
        self.ring[rear] = Some(val);
        proof {
            if rear + 1 < self.max_size {
                vstd::arithmetic::div_mod::lemma_small_mod(
                    (rear + 1) as nat,
                    self.max_size as nat,
                );
            } else {
                vstd::arithmetic::div_mod::lemma_mod_self_0(self.max_size as int);
            }
        }
        self.rear = (self.rear + 1) % self.max_size;
        self.len += 1;
        proof {
            assert forall|i: int| 0 <= i < self.len implies (#[trigger] self.ring@[self.slot(
                i,
            )]) is Some by {
                if i < self.len - 1 {
                    assert(old(self).ring@[old(self).slot(i)] is Some);
                }
            }
            assert(final(self)@ =~= old(self)@.push(val)) by {
                assert forall|i: int| 0 <= i < self.len - 1 implies final(self)@[i] == old(
                    self,
                )@[i] by {
                    assert(self.slot(i) == old(self).slot(i));
                }
            }
        }
    }

    /// Takes the oldest value out.
    pub fn dequeue(&mut self) -> (val: T)
        requires
            old(self).wf(),
            old(self)@.len() > 0,
        ensures
            final(self).wf(),
            final(self).limit() == old(self).limit(),
            val == old(self)@.first(),
            final(self)@ == old(self)@.drop_first(),
    {
        let tmp = self.front;
        proof {
            assert(self.ring@[self.slot(0)] is Some);
            if tmp + 1 < self.max_size {
                vstd::arithmetic::div_mod::lemma_small_mod((tmp + 1) as nat, self.max_size as nat);
            } else {
                vstd::arithmetic::div_mod::lemma_mod_self_0(self.max_size as int);
            }
        }
        self.front = (self.front + 1) % self.max_size;
        self.len -= 1;
        let val = self.ring[tmp].take().unwrap();
        proof {
            assert forall|i: int| 0 <= i < self.len implies (#[trigger] self.ring@[self.slot(
                i,
            )]) is Some && self.slot(i) == old(self).slot(i + 1) && self.ring@[self.slot(i)] == old(
                self,
            ).ring@[old(self).slot(i + 1)] by {
                assert(old(self).ring@[old(self).slot(i + 1)] is Some);
            }
            assert(final(self)@ =~= old(self)@.drop_first());
        }
        val
    }

    /// The oldest value.
    pub fn peek(&self) -> (val: &T)
        requires
            self.wf(),
            self@.len() > 0,
        ensures
            *val == self@.first(),
    {
        proof {
            assert(self.ring@[self.slot(0)] is Some);
        }
        self.ring[self.front].as_ref().unwrap()
    }
}

/// A queue whose values sit in records of a pool of its own, linked from the oldest
/// value to the newest.
pub struct LinkedListQueue<T> {
    allocator: BlockAllocator<Node<T>>,
    len: usize,
    remove: Option<NodeAddr>,
    insert: Option<NodeAddr>,
    chain: Ghost<Seq<NodeAddr>>,
}

impl<T> View for LinkedListQueue<T> {
    type V = Seq<T>;

    closed spec fn view(&self) -> Seq<T> {
        Seq::new(self.chain@.len(), |i: int| self.allocator@[self.chain@[i]].val->0)
    }
}

impl<T> LinkedListQueue<T> {
    /// The invariant: the pool holds the records of the chain and no others; each holds
    /// a value and links to the record enqueued just after it; `remove` is the first
    /// and `insert` the last of them.
    pub closed spec fn wf(&self) -> bool {
        &&& self.allocator.wf()
        &&& self.chain@.len() == self.len
        &&& self.chain@.no_duplicates()
        &&& forall|at: NodeAddr| self.allocator@.contains_key(at) <==> self.chain@.contains(at)
        &&& self.len > 0 ==> self.remove == Some(self.chain@[0]) && self.insert == Some(
            self.chain@[self.len - 1],
        )
        &&& forall|i: int|
            0 <= i < self.chain@.len() ==> {
                &&& (#[trigger] self.allocator@[self.chain@[i]]).val is Some
                &&& self.allocator@[self.chain@[i]].next == if i + 1 == self.chain@.len() {
                    None
                } else {
                    Some(self.chain@[i + 1])
                }
            }
    }

    /// An empty queue.
    pub fn new(block_size: usize, blocks_cap: usize) -> (queue: Self)
        requires
            block_size > 0,
            blocks_cap > 0,
        ensures
            queue.wf(),
            queue@ == Seq::<T>::empty(),
    {
        let queue = Self {
            allocator: BlockAllocator::new(block_size, blocks_cap),
            len: 0,
            remove: None,
            insert: None,
            chain: Ghost(Seq::empty()),
        };
        assert(queue@ =~= Seq::<T>::empty());
        queue
    }

    /// Whether the queue holds no value.
    pub fn is_empty(&self) -> (r: bool)
        requires
            self.wf(),
        ensures
            r == (self@.len() == 0),
    {
        self.len == 0
    }

    /// The number of values held.
    pub fn len(&self) -> (r: usize)
        requires
            self.wf(),
        ensures
            r == self@.len(),
    {
        self.len
    }

    /// Puts `val` at the end.
    pub fn enqueue(&mut self, val: T)
        requires
            old(self).wf(),
            old(self)@.len() < usize::MAX,
        ensures
            final(self).wf(),
            final(self)@ == old(self)@.push(val),
    {
        let ghost before = self.chain@;
        let ghost heap = self.allocator@;
        let tmp = self.allocator.get_node();
        self.allocator.node_mut(tmp).val = Some(val);
        if self.len > 0 {
            let last = self.insert.unwrap();
            proof {
                assert(before.contains(before[self.len - 1]));
            }
            self.allocator.node_mut(last).next = Some(tmp);
            self.insert = Some(tmp);
        } else {
            self.remove = Some(tmp);
            self.insert = Some(tmp);
        }
        self.len += 1;
        proof {
            lemma_push_holds(before, tmp);
            self.chain = Ghost(before.push(tmp));
            assert forall|i: int| 0 <= i < self.chain@.len() implies {
                &&& (#[trigger] self.allocator@[self.chain@[i]]).val is Some
                &&& self.allocator@[self.chain@[i]].next == if i + 1 == self.chain@.len() {
                    None
                } else {
                    Some(self.chain@[i + 1])
                }
            } by {
                if i < before.len() {
                    assert(before.contains(before[i]));
                    assert(heap.contains_key(before[i]));
                }
            }
            assert(final(self)@ =~= old(self)@.push(val)) by {
                assert forall|i: int| 0 <= i < before.len() implies final(self)@[i] == old(
                    self,
                )@[i] by {
                    assert(before.contains(before[i]));
                }
            }
        }
    }

    /// Takes the oldest value out.
    pub fn dequeue(&mut self) -> (val: T)
        requires
            old(self).wf(),
            old(self)@.len() > 0,
        ensures
            final(self).wf(),
            val == old(self)@.first(),
            final(self)@ == old(self)@.drop_first(),
    {
        let ghost before = self.chain@;
        let tmp = self.remove.unwrap();
        proof {
            assert(before.contains(before[0]));
        }
        let node = self.allocator.node_mut(tmp);
        self.remove = node.next;
        let val = node.val.take().unwrap();
        self.allocator.return_node(tmp);
        self.len -= 1;
        proof {
            lemma_drop_first_holds(before);
            self.chain = Ghost(before.drop_first());
            assert forall|i: int| 0 <= i < self.chain@.len() implies {
                &&& (#[trigger] self.allocator@[self.chain@[i]]).val is Some
                &&& self.allocator@[self.chain@[i]].next == if i + 1 == self.chain@.len() {
                    None
                } else {
                    Some(self.chain@[i + 1])
                }
            } by {
                assert(before.contains(before[i + 1]));
                assert(self.chain@[i] == before[i + 1]);
            }
            assert(final(self)@ =~= old(self)@.drop_first()) by {
                assert forall|i: int| 0 <= i < self.chain@.len() implies final(self)@[i] == old(
                    self,
                )@[i + 1] by {
                    assert(before.contains(before[i + 1]));
                    assert(self.chain@[i] == before[i + 1]);
                }
            }
        }
        val
    }

    /// The oldest value.
    pub fn peek(&self) -> (val: &T)
        requires
            self.wf(),
            self@.len() > 0,
        ensures
            *val == self@.first(),
    {
        let tmp = self.remove.unwrap();
        proof {
            assert(self.chain@.contains(self.chain@[0]));
        }
        self.allocator.node(tmp).val.as_ref().unwrap()
    }
}

impl<T> Default for LinkedListQueue<T> {
    fn default() -> (queue: Self)
        ensures
            queue.wf(),
            queue@ == Seq::<T>::empty(),
    {
        Self::new(
            BlockAllocator::<Node<T>>::DEFAULT_BLOCK_SIZE,
            BlockAllocator::<Node<T>>::DEFAULT_BLOCK_CAP,
        )
    }
}

/// A queue whose values sit in records of a pool of its own, linked into a ring: from a
/// record without a value to the oldest value, on to the newest, and back. `entry` is
/// the record of the newest value, or the record without a value when the queue is
/// empty.
pub struct CircularLinkedQueue<T> {
    allocator: BlockAllocator<Node<T>>,
    len: usize,
    entry: NodeAddr,
    joint: Ghost<NodeAddr>,
    chain: Ghost<Seq<NodeAddr>>,
}

impl<T> View for CircularLinkedQueue<T> {
    type V = Seq<T>;

    closed spec fn view(&self) -> Seq<T> {
        Seq::new(self.chain@.len(), |i: int| self.allocator@[self.chain@[i]].val->0)
    }
}

impl<T> CircularLinkedQueue<T> {
    /// The invariant: the pool holds the joint of the ring and the records of the
    /// chain, and no others; each record of the chain holds a value and links to the one
    /// enqueued just after it, the last of them to the joint, and the joint to the first.
    pub closed spec fn wf(&self) -> bool {
        &&& self.allocator.wf()
        &&& self.chain@.len() == self.len
        &&& self.chain@.no_duplicates()
        &&& !self.chain@.contains(self.joint@)
        &&& forall|at: NodeAddr|
            self.allocator@.contains_key(at) <==> self.chain@.contains(at) || at == self.joint@
        &&& self.entry == if self.len == 0 {
            self.joint@
        } else {
            self.chain@[self.len - 1]
        }
        &&& self.allocator@[self.joint@].next == if self.len == 0 {
            Some(self.joint@)
        } else {
            Some(self.chain@[0])
        }
        &&& forall|i: int|
            0 <= i < self.chain@.len() ==> {
                &&& (#[trigger] self.allocator@[self.chain@[i]]).val is Some
                &&& self.allocator@[self.chain@[i]].next == if i + 1 == self.chain@.len() {
                    Some(self.joint@)
                } else {
                    Some(self.chain@[i + 1])
                }
            }
    }

    /// An empty queue.
    pub fn new(block_size: usize, blocks_cap: usize) -> (queue: Self)
        requires
            block_size > 0,
            blocks_cap > 0,
        ensures
            queue.wf(),
            queue@ == Seq::<T>::empty(),
    {
        let mut allocator: BlockAllocator<Node<T>> = BlockAllocator::new(block_size, blocks_cap);
        let entry = allocator.get_node();
        allocator.node_mut(entry).next = Some(entry);
        let queue = Self {
            allocator,
            len: 0,
            entry,
            joint: Ghost(entry),
            chain: Ghost(Seq::empty()),
        };
        assert(queue@ =~= Seq::<T>::empty());
        queue
    }

    /// Whether the queue holds no value.
    pub fn is_empty(&self) -> (r: bool)
        requires
            self.wf(),
        ensures
            r == (self@.len() == 0),
    {
        proof {
            if self.len > 0 {
                assert(self.chain@.contains(self.chain@[self.len - 1]));
            }
        }
        match self.allocator.node(self.entry).next {
            Some(next) => self.entry == next,
            None => false,
        }
    }

    /// The number of values held.
    pub fn len(&self) -> (r: usize)
        requires
            self.wf(),
        ensures
            r == self@.len(),
    {
        self.len
    }

    /// Puts `val` at the end.
    pub fn enqueue(&mut self, val: T)
        requires
            old(self).wf(),
            old(self)@.len() < usize::MAX,
        ensures
            final(self).wf(),
            final(self)@ == old(self)@.push(val),
    {
        let ghost before = self.chain@;
        let ghost heap = self.allocator@;
        proof {
            if self.len > 0 {
                assert(before.contains(before[self.len - 1]));
            }
        }
        let node = self.allocator.get_node();
        let tmp = self.entry;
        self.entry = node;
        let next = self.allocator.node(tmp).next;
        let fresh = self.allocator.node_mut(node);
        fresh.val = Some(val);
        fresh.next = next;
        self.allocator.node_mut(tmp).next = Some(node);
        self.len += 1;
        proof {
            lemma_push_holds(before, node);
            self.chain = Ghost(before.push(node));
            assert forall|i: int| 0 <= i < self.chain@.len() implies {
                &&& (#[trigger] self.allocator@[self.chain@[i]]).val is Some
                &&& self.allocator@[self.chain@[i]].next == if i + 1 == self.chain@.len() {
                    Some(self.joint@)
                } else {
                    Some(self.chain@[i + 1])
                }
            } by {
                if i < before.len() {
                    assert(before.contains(before[i]));
                    assert(heap.contains_key(before[i]));
                }
            }
            assert(final(self)@ =~= old(self)@.push(val)) by {
                assert forall|i: int| 0 <= i < before.len() implies final(self)@[i] == old(
                    self,
                )@[i] by {
                    assert(before.contains(before[i]));
                }
            }
        }
    }

    /// Takes the oldest value out.
    pub fn dequeue(&mut self) -> (val: T)
        requires
            old(self).wf(),
            old(self)@.len() > 0,
        ensures
            final(self).wf(),
            val == old(self)@.first(),
            final(self)@ == old(self)@.drop_first(),
    {
        let ghost before = self.chain@;
        proof {
            assert(before.contains(before[self.len - 1]));
            assert(before.contains(before[0]));
        }
        let joint = self.allocator.node(self.entry).next.unwrap();
        let tmp = self.allocator.node(joint).next.unwrap();
        let node = self.allocator.node_mut(tmp);
        let after = node.next;
        let val = node.val.take().unwrap();
        self.allocator.node_mut(joint).next = after;
        if tmp == self.entry {
            self.entry = after.unwrap();
        }
        self.allocator.return_node(tmp);
        self.len -= 1;
        proof {
            lemma_drop_first_holds(before);
            self.chain = Ghost(before.drop_first());
            assert forall|i: int| 0 <= i < self.chain@.len() implies {
                &&& (#[trigger] self.allocator@[self.chain@[i]]).val is Some
                &&& self.allocator@[self.chain@[i]].next == if i + 1 == self.chain@.len() {
                    Some(self.joint@)
                } else {
                    Some(self.chain@[i + 1])
                }
            } by {
                assert(before.contains(before[i + 1]));
                assert(self.chain@[i] == before[i + 1]);
            }
            if self.len > 0 {
                assert(before.contains(before[1]));
                assert(self.chain@[0] == before[1]);
                assert(self.chain@[self.len - 1] == before[self.len as int]);
            }
            assert(final(self)@ =~= old(self)@.drop_first()) by {
                assert forall|i: int| 0 <= i < self.chain@.len() implies final(self)@[i] == old(
                    self,
                )@[i + 1] by {
                    assert(before.contains(before[i + 1]));
                    assert(self.chain@[i] == before[i + 1]);
                }
            }
        }
        val
    }

    /// The oldest value.
    pub fn peek(&self) -> (val: &T)
        requires
            self.wf(),
            self@.len() > 0,
        ensures
            *val == self@.first(),
    {
        proof {
            assert(self.chain@.contains(self.chain@[self.len - 1]));
            assert(self.chain@.contains(self.chain@[0]));
        }
        let joint = self.allocator.node(self.entry).next.unwrap();
        let first = self.allocator.node(joint).next.unwrap();
        self.allocator.node(first).val.as_ref().unwrap()
    }
}

impl<T> Default for CircularLinkedQueue<T> {
    fn default() -> (queue: Self)
        ensures
            queue.wf(),
            queue@ == Seq::<T>::empty(),
    {
        Self::new(
            BlockAllocator::<Node<T>>::DEFAULT_BLOCK_SIZE,
            BlockAllocator::<Node<T>>::DEFAULT_BLOCK_CAP,
        )
    }
}

/// A queue whose values sit in records of a pool of its own, linked in both directions
/// into a ring through `entry`, a record without a value: the newest value comes next
/// after `entry`, the oldest just before it.
pub struct DoubleLinkedQueue<T> {
    allocator: BlockAllocator<BiNode<T>>,
    len: usize,
    entry: NodeAddr,
    chain: Ghost<Seq<NodeAddr>>,
}

impl<T> View for DoubleLinkedQueue<T> {
    type V = Seq<T>;

    closed spec fn view(&self) -> Seq<T> {
        Seq::new(self.chain@.len(), |i: int| self.allocator@[self.chain@[i]].val->0)
    }
}

impl<T> DoubleLinkedQueue<T> {
    /// The record before the one at index `i` of the chain, going from the oldest value
    /// to the newest: `entry` for the oldest.
    spec fn older(&self, i: int) -> NodeAddr {
        if i == 0 {
            self.entry
        } else {
            self.chain@[i - 1]
        }
    }

    /// The record after the one at index `i` of the chain: `entry` for the newest.
    spec fn newer(&self, i: int) -> NodeAddr {
        if i + 1 == self.chain@.len() {
            self.entry
        } else {
            self.chain@[i + 1]
        }
    }

    /// The invariant: the pool holds `entry` and the records of the chain, and no
    /// others; each record of the chain holds a value, its `prev` is the record
    /// enqueued just after it and its `next` the one enqueued just before it, with
    /// `entry` closing the ring at both ends.
    pub closed spec fn wf(&self) -> bool {
        &&& self.allocator.wf()
        &&& self.chain@.len() == self.len
        &&& self.chain@.no_duplicates()
        &&& !self.chain@.contains(self.entry)
        &&& forall|at: NodeAddr|
            self.allocator@.contains_key(at) <==> self.chain@.contains(at) || at == self.entry
        &&& self.allocator@[self.entry].prev == Some(self.newer(-1))
        &&& self.allocator@[self.entry].next == Some(self.older(self.len as int))
        &&& forall|i: int|
            0 <= i < self.chain@.len() ==> {
                &&& (#[trigger] self.allocator@[self.chain@[i]]).val is Some
                &&& self.allocator@[self.chain@[i]].prev == Some(self.newer(i))
                &&& self.allocator@[self.chain@[i]].next == Some(self.older(i))
            }
    }

    /// An empty queue.
    pub fn new(block_size: usize, blocks_cap: usize) -> (queue: Self)
        requires
            block_size > 0,
            blocks_cap > 0,
        ensures
            queue.wf(),
            queue@ == Seq::<T>::empty(),
    {
        let mut allocator: BlockAllocator<BiNode<T>> = BlockAllocator::new(block_size, blocks_cap);
        let entry = allocator.get_node();
        let node = allocator.node_mut(entry);
        node.next = Some(entry);
        node.prev = Some(entry);
        let queue = Self { allocator, len: 0, entry, chain: Ghost(Seq::empty()) };
        assert(queue@ =~= Seq::<T>::empty());
        queue
    }

    /// Whether the queue holds no value.
    pub fn is_empty(&self) -> (r: bool)
        requires
            self.wf(),
        ensures
            r == (self@.len() == 0),
    {
        proof {
            if self.len > 0 {
                assert(self.chain@.contains(self.chain@[self.len - 1]));
            }
        }
        match self.allocator.node(self.entry).next {
            Some(next) => self.entry == next,
            None => false,
        }
    }

    /// The number of values held.
    pub fn len(&self) -> (r: usize)
        requires
            self.wf(),
        ensures
            r == self@.len(),
    {
        self.len
    }

    /// Puts `val` at the end.
    pub fn enqueue(&mut self, val: T)
        requires
            old(self).wf(),
            old(self)@.len() < usize::MAX,
        ensures
            final(self).wf(),
            final(self)@ == old(self)@.push(val),
    {
        let ghost before = self.chain@;
        let ghost heap = self.allocator@;
        proof {
            if self.len > 0 {
                assert(before.contains(before[self.len - 1]));
            }
        }
        let node = self.allocator.get_node();
        let entry = self.entry;
        let next = self.allocator.node(entry).next.unwrap();
        let fresh = self.allocator.node_mut(node);
        fresh.val = Some(val);
        fresh.next = Some(next);
        fresh.prev = Some(entry);
        self.allocator.node_mut(entry).next = Some(node);
        self.allocator.node_mut(next).prev = Some(node);
        self.len += 1;
        proof {
            lemma_push_holds(before, node);
            self.chain = Ghost(before.push(node));
            assert forall|i: int| 0 <= i < self.chain@.len() implies {
                &&& (#[trigger] self.allocator@[self.chain@[i]]).val is Some
                &&& self.allocator@[self.chain@[i]].prev == Some(self.newer(i))
                &&& self.allocator@[self.chain@[i]].next == Some(self.older(i))
            } by {
                if i < before.len() {
                    assert(before.contains(before[i]));
                    assert(heap.contains_key(before[i]));
                    assert(heap[before[i]].prev == Some(old(self).newer(i)));
                    assert(heap[before[i]].next == Some(old(self).older(i)));
                }
            }
            assert(final(self)@ =~= old(self)@.push(val)) by {
                assert forall|i: int| 0 <= i < before.len() implies final(self)@[i] == old(
                    self,
                )@[i] by {
                    assert(before.contains(before[i]));
                }
            }
        }
    }

    /// Takes the oldest value out.
    pub fn dequeue(&mut self) -> (val: T)
        requires
            old(self).wf(),
            old(self)@.len() > 0,
        ensures
            final(self).wf(),
            val == old(self)@.first(),
            final(self)@ == old(self)@.drop_first(),
    {
        let ghost before = self.chain@;
        let ghost heap = self.allocator@;
        proof {
            assert(before.contains(before[0]));
            if self.len > 1 {
                assert(before.contains(before[1]));
            }
        }
        let entry = self.entry;
        let tmp = self.allocator.node(entry).prev.unwrap();
        let node = self.allocator.node_mut(tmp);
        let val = node.val.take().unwrap();
        let prev = node.prev.unwrap();
        self.allocator.node_mut(prev).next = Some(entry);
        self.allocator.node_mut(entry).prev = Some(prev);
        self.allocator.return_node(tmp);
        self.len -= 1;
        proof {
            lemma_drop_first_holds(before);
            self.chain = Ghost(before.drop_first());
            assert forall|i: int| 0 <= i < self.chain@.len() implies {
                &&& (#[trigger] self.allocator@[self.chain@[i]]).val is Some
                &&& self.allocator@[self.chain@[i]].prev == Some(self.newer(i))
                &&& self.allocator@[self.chain@[i]].next == Some(self.older(i))
            } by {
                assert(before.contains(before[i + 1]));
                assert(self.chain@[i] == before[i + 1]);
                assert(heap[before[i + 1]].prev == Some(old(self).newer(i + 1)));
                assert(heap[before[i + 1]].next == Some(old(self).older(i + 1)));
                if i + 1 < self.chain@.len() {
                    assert(self.chain@[i + 1] == before[i + 2]);
                }
                if i > 0 {
                    assert(self.chain@[i - 1] == before[i]);
                }
            }
            if self.len > 0 {
                assert(self.chain@[0] == before[1]);
                assert(self.chain@[self.len - 1] == before[self.len as int]);
            }
            assert(final(self)@ =~= old(self)@.drop_first()) by {
                assert forall|i: int| 0 <= i < self.chain@.len() implies final(self)@[i] == old(
                    self,
                )@[i + 1] by {
                    assert(before.contains(before[i + 1]));
                    assert(self.chain@[i] == before[i + 1]);
                }
            }
        }
        val
    }

    /// The oldest value.
    pub fn peek(&self) -> (val: &T)
        requires
            self.wf(),
            self@.len() > 0,
        ensures
            *val == self@.first(),
    {
        proof {
            assert(self.chain@.contains(self.chain@[0]));
        }
        let first = self.allocator.node(self.entry).prev.unwrap();
        self.allocator.node(first).val.as_ref().unwrap()
    }
}

impl<T> Default for DoubleLinkedQueue<T> {
    fn default() -> (queue: Self)
        ensures
            queue.wf(),
            queue@ == Seq::<T>::empty(),
    {
        Self::new(
            BlockAllocator::<BiNode<T>>::DEFAULT_BLOCK_SIZE,
            BlockAllocator::<BiNode<T>>::DEFAULT_BLOCK_CAP,
        )
    }
}

} // verus!
