//! Stacks: last in, first out. The view of each is the sequence of its values, the one
//! pushed first at index 0 and the one that `pop` gives next at the end.

use vstd::prelude::*;
use crate::allocator::{BlockAllocator, Node, NodeAddr};
use crate::chains::{lemma_drop_last_holds, lemma_push_holds};

verus! {

/// What a stack holds after the values of `vals` were pushed onto `start`, one after
/// the other.
pub open spec fn pushed_all<T>(start: Seq<T>, vals: Seq<T>) -> Seq<T>
    decreases vals.len(),
{
    if vals.len() == 0 {
        start
    } else {
        pushed_all(start, vals.drop_last()).push(vals.last())
    }
}

/// What is left of `held` after `count` pops.
pub open spec fn popped<T>(held: Seq<T>, count: nat) -> Seq<T>
    decreases count,
{
    if count == 0 {
        held
    } else {
        popped(held, (count - 1) as nat).drop_last()
    }
}

/// Pushing values in turn puts them at the end in their order, and popping takes from
/// the end.
pub proof fn lemma_pushed_popped<T>(start: Seq<T>, vals: Seq<T>, count: nat)
    ensures
        pushed_all(start, vals) =~= start + vals,
        count <= start.len() ==> popped(start, count) =~= start.subrange(
            0,
            start.len() - count,
        ),
    decreases vals.len(), count,
{
    if vals.len() > 0 {
        lemma_pushed_popped(start, vals.drop_last(), 0);
        assert(vals.drop_last().push(vals.last()) =~= vals);
    }
    if 0 < count <= start.len() {
        lemma_pushed_popped(start, Seq::empty(), (count - 1) as nat);
    }
}

/// Last in, first out: after the values of `vals` were pushed in turn, the pops give
/// them back in the opposite order, and with the last of them the stack is as it was
/// before.
pub proof fn lemma_last_in_first_out<T>(start: Seq<T>, vals: Seq<T>, count: nat)
    requires
        count < vals.len(),
    ensures
        popped(pushed_all(start, vals), count).len() > 0,
        popped(pushed_all(start, vals), count).last() == vals[vals.len() - 1 - count],
        popped(pushed_all(start, vals), vals.len()) == start,
{
    lemma_pushed_popped(start, vals, 0);
    lemma_pushed_popped(start + vals, Seq::empty(), count);
    lemma_pushed_popped(start + vals, Seq::empty(), vals.len());
    assert((start + vals).subrange(0, start.len() as int) =~= start);
}

/// A stack of at most `N` values.
pub struct ArrayStack<T, const N: usize> {
    stack: Vec<T>,
}

impl<T, const N: usize> View for ArrayStack<T, N> {
    type V = Seq<T>;

    closed spec fn view(&self) -> Seq<T> {
        self.stack@
    }
}

impl<T, const N: usize> ArrayStack<T, N> {
    /// The invariant: no more than `N` values are held.
    pub closed spec fn wf(&self) -> bool {
        self.stack@.len() <= N
    }

    /// An empty stack.
    pub fn new() -> (stack: Self)
        ensures
            stack.wf(),
            stack@ == Seq::<T>::empty(),
    {
        Self { stack: Vec::with_capacity(N) }
    }

    /// Whether the stack holds no value.
    pub fn is_empty(&self) -> (r: bool)
        ensures
            r == (self@.len() == 0),
    {
        self.stack.len() == 0
    }

    /// The number of values held.
    pub fn len(&self) -> (r: usize)
        ensures
            r == self@.len(),
    {
        self.stack.len()
    }

    /// The number of values that the stack can hold.
    pub fn max_len(&self) -> (r: usize)
        ensures
            r == N,
    {
        N
    }

    /// Puts `val` on top.
    pub fn push(&mut self, val: T)
        requires
            old(self).wf(),
            old(self)@.len() < N,
        ensures
            final(self).wf(),
            final(self)@ == old(self)@.push(val),
    {
        self.stack.push(val);
    }

    /// Takes the top value off.
    pub fn pop(&mut self) -> (val: T)
        requires
            old(self).wf(),
            old(self)@.len() > 0,
        ensures
            final(self).wf(),
            val == old(self)@.last(),
            final(self)@ == old(self)@.drop_last(),
    {
        self.stack.pop().unwrap()
    }

    /// The top value.
    pub fn peek(&self) -> (val: &T)
        requires
            self@.len() > 0,
        ensures
            *val == self@.last(),
    {
        &self.stack[self.stack.len() - 1]
    }
}

impl<T, const N: usize> Default for ArrayStack<T, N> {
    fn default() -> (stack: Self)
        ensures
            stack.wf(),
            stack@ == Seq::<T>::empty(),
    {
        Self::new()
    }
}

/// A stack of at most `max_len()` values, a limit chosen when the stack is made.
pub struct BoundedStack<T> {
    items: Vec<T>,
    max_size: usize,
}

impl<T> View for BoundedStack<T> {
    type V = Seq<T>;

    closed spec fn view(&self) -> Seq<T> {
        self.items@
    }
}

impl<T> BoundedStack<T> {
    /// The limit that the stack was made with.
    pub closed spec fn limit(&self) -> nat {
        self.max_size as nat
    }

    /// The invariant: no more values are held than the limit allows.
    pub closed spec fn wf(&self) -> bool {
        self.items@.len() <= self.max_size
    }

    /// An empty stack.
    pub fn new(max_size: usize) -> (stack: Self)
        ensures
            stack.wf(),
            stack@ == Seq::<T>::empty(),
            stack.limit() == max_size,
    {
        Self { items: Vec::with_capacity(max_size), max_size }
    }

    /// Whether the stack holds no value.
    pub fn is_empty(&self) -> (r: bool)
        ensures
            r == (self@.len() == 0),
    {
        self.items.len() == 0
    }

    /// The number of values held.
    pub fn len(&self) -> (r: usize)
        ensures
            r == self@.len(),
    {
        self.items.len()
    }

    /// The number of values that the stack can hold.
    pub fn max_len(&self) -> (r: usize)
        ensures
            r == self.limit(),
    {
        self.max_size
    }

    /// Puts `val` on top.
    pub fn push(&mut self, val: T)
        requires
            old(self).wf(),
            old(self)@.len() < old(self).limit(),
        ensures
            final(self).wf(),
            final(self).limit() == old(self).limit(),
            final(self)@ == old(self)@.push(val),
    {
        self.items.push(val);
    }

    /// Takes the top value off.
    pub fn pop(&mut self) -> (val: T)
        requires
            old(self).wf(),
            old(self)@.len() > 0,
        ensures
            final(self).wf(),
            final(self).limit() == old(self).limit(),
            val == old(self)@.last(),
            final(self)@ == old(self)@.drop_last(),
    {
        self.items.pop().unwrap()
    }

    /// The top value.
    pub fn peek(&self) -> (val: &T)
        requires
            self@.len() > 0,
        ensures
            *val == self@.last(),
    {
        &self.items[self.items.len() - 1]
    }
}

/// A stack whose values sit in records of a pool of its own, linked from the newest
/// value down to the oldest.
pub struct LinkedListStack<T> {
    allocator: BlockAllocator<Node<T>>,
    len: usize,
    head: Option<NodeAddr>,
    chain: Ghost<Seq<NodeAddr>>,
}

impl<T> View for LinkedListStack<T> {
    type V = Seq<T>;

    closed spec fn view(&self) -> Seq<T> {
        Seq::new(self.chain@.len(), |i: int| self.allocator@[self.chain@[i]].val->0)
    }
}

impl<T> LinkedListStack<T> {
    /// The invariant: the pool holds the records of the chain and no others; each holds
    /// a value and links to the record pushed just before it.
    pub closed spec fn wf(&self) -> bool {
        &&& self.allocator.wf()
        &&& self.chain@.len() == self.len
        &&& self.chain@.no_duplicates()
        &&& forall|at: NodeAddr| self.allocator@.contains_key(at) <==> self.chain@.contains(at)
        &&& self.head == if self.len == 0 {
            None
        } else {
            Some(self.chain@[self.len - 1])
        }
        &&& forall|i: int|
            0 <= i < self.chain@.len() ==> {
                &&& (#[trigger] self.allocator@[self.chain@[i]]).val is Some
                &&& self.allocator@[self.chain@[i]].next == if i == 0 {
                    None
                } else {
                    Some(self.chain@[i - 1])
                }
            }
    }

    /// An empty stack.
    pub fn new(block_size: usize, blocks_cap: usize) -> (stack: Self)
        requires
            block_size > 0,
            blocks_cap > 0,
        ensures
            stack.wf(),
            stack@ == Seq::<T>::empty(),
    {
        let stack = Self {
            allocator: BlockAllocator::new(block_size, blocks_cap),
            len: 0,
            head: None,
            chain: Ghost(Seq::empty()),
        };
        assert(stack@ =~= Seq::<T>::empty());
        stack
    }

    /// Whether the stack holds no value.
    pub fn is_empty(&self) -> (r: bool)
        requires
            self.wf(),
        ensures
            r == (self@.len() == 0),
    {
        self.head.is_none()
    }

    /// The number of values held.
    pub fn len(&self) -> (r: usize)
        requires
            self.wf(),
        ensures
            r == self@.len(),
    {
        self.len
    }

    /// Puts `val` on top.
    pub fn push(&mut self, val: T)
        requires
            old(self).wf(),
            old(self)@.len() < usize::MAX,
        ensures
            final(self).wf(),
            final(self)@ == old(self)@.push(val),
    {
        let ghost before = self.chain@;
        let ghost heap = self.allocator@;
        let tmp = self.allocator.get_node();
        let head = self.head;
        let node = self.allocator.node_mut(tmp);
        node.val = Some(val);
        node.next = head;
        self.head = Some(tmp);
        self.len += 1;
        proof {
            lemma_push_holds(before, tmp);
            self.chain = Ghost(before.push(tmp));
            assert forall|i: int| 0 <= i < self.chain@.len() implies {
                &&& (#[trigger] self.allocator@[self.chain@[i]]).val is Some
                &&& self.allocator@[self.chain@[i]].next == if i == 0 {
                    None
                } else {
                    Some(self.chain@[i - 1])
                }
            } by {
                if i < before.len() {
                    assert(before.contains(before[i]));
                    assert(heap.contains_key(before[i]));
                }
            }
            assert(final(self)@ =~= old(self)@.push(val)) by {
                assert forall|i: int| 0 <= i < before.len() implies final(self)@[i] == old(
                    self,
                )@[i] by {
                    assert(before.contains(before[i]));
                }
            }
        }
    }

    /// Takes the top value off.
    pub fn pop(&mut self) -> (val: T)
        requires
            old(self).wf(),
            old(self)@.len() > 0,
        ensures
            final(self).wf(),
            val == old(self)@.last(),
            final(self)@ == old(self)@.drop_last(),
    {
        let ghost before = self.chain@;
        let tmp = self.head.unwrap();
        proof {
            assert(before.contains(before[self.len - 1]));
        }
        let node = self.allocator.node_mut(tmp);
        self.head = node.next;
        let val = node.val.take().unwrap();
        self.allocator.return_node(tmp);
        self.len -= 1;
        proof {
            lemma_drop_last_holds(before);
            self.chain = Ghost(before.drop_last());
            assert forall|i: int| 0 <= i < self.chain@.len() implies {
                &&& (#[trigger] self.allocator@[self.chain@[i]]).val is Some
                &&& self.allocator@[self.chain@[i]].next == if i == 0 {
                    None
                } else {
                    Some(self.chain@[i - 1])
                }
            } by {
                assert(before.contains(before[i]));
            }
            assert(final(self)@ =~= old(self)@.drop_last()) by {
                assert forall|i: int| 0 <= i < self.chain@.len() implies final(self)@[i] == old(
                    self,
                )@[i] by {
                    assert(before.contains(before[i]));
                }
            }
        }
        val
    }

    /// The top value.
    pub fn peek(&self) -> (val: &T)
        requires
            self.wf(),
            self@.len() > 0,
        ensures
            *val == self@.last(),
    {
        let tmp = self.head.unwrap();
        proof {
            assert(self.chain@.contains(self.chain@[self.len - 1]));
        }
        self.allocator.node(tmp).val.as_ref().unwrap()
    }
}

impl<T> Default for LinkedListStack<T> {
    fn default() -> (stack: Self)
        ensures
            stack.wf(),
            stack@ == Seq::<T>::empty(),
    {
        Self::new(
            BlockAllocator::<Node<T>>::DEFAULT_BLOCK_SIZE,
            BlockAllocator::<Node<T>>::DEFAULT_BLOCK_CAP,
        )
    }
}

/// A stack without a limit, kept in chunks of `chunk_size` values: the newest values in
/// a chunk of its own, the full chunks below it in `previous`.
pub struct UnboundedStack<T> {
    chunk: Vec<T>,
    chunk_size: usize,
    previous: Option<Box<UnboundedStack<T>>>,
    len: usize,
}

impl<T> View for UnboundedStack<T> {
    type V = Seq<T>;

    closed spec fn view(&self) -> Seq<T> {
        self.held()
    }
}

impl<T> UnboundedStack<T> {
    /// The values of the chunks below, then those of this chunk.
    spec fn held(&self) -> Seq<T>
        decreases self,
    {
        match self.previous {
            None => self.chunk@,
            Some(below) => below.held() + self.chunk@,
        }
    }

    /// The invariant: no chunk holds more than `chunk_size` values, every chunk below
    /// the newest is full, and `len` counts the values of all chunks.
    pub closed spec fn wf(&self) -> bool
        decreases self,
    {
        &&& self.chunk_size > 0
        &&& self.chunk@.len() <= self.chunk_size
        &&& self.len == self.held().len()
        &&& match self.previous {
            None => true,
            Some(below) => {
                &&& below.wf()
                &&& below.chunk_size == self.chunk_size
                &&& below.chunk@.len() == below.chunk_size
            },
        }
    }

    /// The values of a stack end with those of its newest chunk.
    proof fn lemma_held(&self)
        ensures
            self.held().len() >= self.chunk@.len(),
            self.chunk@.len() > 0 ==> self.held().last() == self.chunk@.last(),
            self.chunk@.len() == 0 && self.previous is Some
                ==> self.held() =~= self.previous->0.held(),
    {
    }

    /// An empty stack.
    pub fn new(chunk_size: usize) -> (stack: Self)
        requires
            chunk_size > 0,
        ensures
            stack.wf(),
            stack@ == Seq::<T>::empty(),
    {
        Self { chunk: Vec::with_capacity(chunk_size), chunk_size, previous: None, len: 0 }
    }

    /// Whether the stack holds no value.
    pub fn is_empty(&self) -> (r: bool)
        requires
            self.wf(),
        ensures
            r == (self@.len() == 0),
    {
        proof {
            self.lemma_held();
            if self.previous is Some {
                self.previous->0.lemma_held();
            }
        }
        self.chunk.len() == 0 && self.previous.is_none()
    }

    /// The number of values held.
    pub fn len(&self) -> (r: usize)
        requires
            self.wf(),
        ensures
            r == self@.len(),
    {
        self.len
    }

    /// Puts `val` on top.
    pub fn push(&mut self, val: T)
        requires
            old(self).wf(),
            old(self)@.len() < usize::MAX,
        ensures
            final(self).wf(),
            final(self)@ == old(self)@.push(val),
    {
        if self.chunk.len() == self.chunk_size {
            let mut full: Vec<T> = Vec::with_capacity(self.chunk_size);
            core::mem::swap(&mut full, &mut self.chunk);
            let below = self.previous.take();
            self.previous = Some(
                Box::new(
                    UnboundedStack {
                        chunk: full,
                        chunk_size: self.chunk_size,
                        previous: below,
                        len: self.len,
                    },
                ),
            );
            proof {
                assert(self.held() =~= old(self).held());
            }
        }
        self.chunk.push(val);
        self.len += 1;
        proof {
            assert(final(self).held() =~= old(self).held().push(val));
        }
    }

    /// Takes the top value off.
    pub fn pop(&mut self) -> (val: T)
        requires
            old(self).wf(),
            old(self)@.len() > 0,
        ensures
            final(self).wf(),
            val == old(self)@.last(),
            final(self)@ == old(self)@.drop_last(),
    {
        proof {
            self.lemma_held();
            reveal_with_fuel(UnboundedStack::wf, 3);
        }
        if self.chunk.len() == 0 {
            let mut below = self.previous.take().unwrap();
            let ghost full = *below;
            proof {
                full.lemma_held();
            }
            core::mem::swap(&mut self.chunk, &mut below.chunk);
            self.previous = below.previous.take();
            self.chunk_size = below.chunk_size;
            proof {
                assert(self.held() =~= full.held());
                assert(self.held() =~= old(self).held());
            }
        }
        self.len -= 1;
        let val = self.chunk.pop().unwrap();
        proof {
            assert(final(self).held() =~= old(self).held().drop_last());
        }
        val
    }

    /// The top value.
    pub fn peek(&self) -> (val: &T)
        requires
            self.wf(),
            self@.len() > 0,
        ensures
            *val == self@.last(),
    {
        proof {
            self.lemma_held();
            if self.previous is Some {
                self.previous->0.lemma_held();
            }
        }
        if self.chunk.len() == 0 {
            match &self.previous {
                Some(below) => &below.chunk[below.chunk.len() - 1],
                None => vstd::pervasive::unreached(),
            }
        } else {
            &self.chunk[self.chunk.len() - 1]
        }
    }
}

impl<T> UnboundedStack<T> {
    /// The number of chunks below the newest.
    spec fn depth(&self) -> nat
        decreases self,
    {
        match self.previous {
            None => 0,
            Some(below) => 1 + below.depth(),
        }
    }
}

impl<T> Drop for UnboundedStack<T> {
    /// Gives the chunks up one by one, the newest first, however many there are.
    fn drop(&mut self)
        opens_invariants none
        no_unwind
    {
        let mut rest: Option<Box<UnboundedStack<T>>> = None;
        core::mem::swap(&mut rest, &mut self.previous);
        loop
            decreases
                match rest {
                    None => 0,
                    Some(below) => 1 + below.depth(),
                },
        {
            match rest {
                None => {
                    break ;
                },
                Some(mut below) => {
                    let mut next: Option<Box<UnboundedStack<T>>> = None;
                    core::mem::swap(&mut next, &mut below.previous);
                    rest = next;
                },
            }
        }
    }
}

/// A stack without a limit that grows by copying a little at a time: when the array is
/// three quarters full, an array of twice the size is made, and every push from then on
/// copies up to four values over, until the new array has caught up and takes the place
/// of the old one.
pub struct ShadowCopyStack<T: Copy> {
    base: Vec<T>,
    base_size: usize,
    max_size: usize,
    copy: Option<Vec<T>>,
    copy_size: usize,
}

impl<T: Copy> View for ShadowCopyStack<T> {
    type V = Seq<T>;

    closed spec fn view(&self) -> Seq<T> {
        self.base@
    }
}

impl<T: Copy> ShadowCopyStack<T> {
    /// The size of the array that holds the values now.
    pub closed spec fn limit(&self) -> nat {
        self.max_size as nat
    }

    /// How many of the values the array of twice the size holds already; `None` while no
    /// such array is being filled.
    pub closed spec fn copied(&self) -> Option<nat> {
        match self.copy {
            None => None,
            Some(_) => Some(self.copy_size as nat),
        }
    }

    /// What a push does to the copy when it leaves `held` values in an array of size
    /// `limit`: a copy starts when the array is three quarters full, each push takes up to
    /// four values over, and the copy is done when it holds all values.
    pub open spec fn copied_after_push(copied: Option<nat>, held: nat, limit: nat) -> Option<nat> {
        let from = match copied {
            Some(done) => Some(done),
            None => if 4 * held >= 3 * limit {
                Some(0nat)
            } else {
                None
            },
        };
        match from {
            None => None,
            Some(done) => if done + 4 >= held {
                None
            } else {
                Some(done + 4)
            },
        }
    }

    /// Whether a push that leaves `held` values in an array of size `limit` ends with the
    /// copy taking the place of the array.
    pub open spec fn swapped_by_push(copied: Option<nat>, held: nat, limit: nat) -> bool {
        match copied {
            Some(done) => done + 4 >= held,
            None => 4 * held >= 3 * limit && 4 >= held,
        }
    }

    /// The invariant: while no copy is under way, the array is less than three quarters
    /// full; while one is, the copy holds the oldest values, fewer than all of them, and
    /// is so far on that it will have caught up before the array is full.
    pub closed spec fn wf(&self) -> bool {
        &&& self.max_size > 0
        &&& self.base@.len() == self.base_size
        &&& self.base_size <= self.max_size
        &&& match self.copy {
            None => self.copy_size == 0 && 4 * self.base_size < 3 * self.max_size,
            Some(copy) => {
                &&& copy@.len() == self.copy_size
                &&& 0 < self.copy_size < self.base_size
                &&& copy@ == self.base@.subrange(0, self.copy_size as int)
                &&& self.base_size - self.copy_size <= 3 * (self.max_size - self.base_size)
            },
        }
    }

    /// An empty stack.
    pub fn new(base_size: usize) -> (stack: Self)
        requires
            base_size > 0,
        ensures
            stack.wf(),
            stack@ == Seq::<T>::empty(),
            stack.limit() == base_size,
            stack.copied() is None,
    {
        Self {
            base: Vec::with_capacity(base_size),
            base_size: 0,
            max_size: base_size,
            copy: None,
            copy_size: 0,
        }
    }

    /// Whether the stack holds no value.
    pub fn is_empty(&self) -> (r: bool)
        requires
            self.wf(),
        ensures
            r == (self@.len() == 0),
    {
        self.base_size == 0
    }

    /// The number of values held.
    pub fn len(&self) -> (r: usize)
        requires
            self.wf(),
        ensures
            r == self@.len(),
    {
        self.base_size
    }

    /// The size of the array that holds the values now. It doubles as the stack grows,
    /// and never shrinks.
    pub fn max_len(&self) -> (r: usize)
        ensures
            r == self.limit(),
    {
        self.max_size
    }

    /// Puts `val` on top.
    #[verifier::loop_isolation(false)]
    pub fn push(&mut self, val: T)
        requires
            old(self).wf(),
            old(self).limit() <= usize::MAX / 2,
        ensures
            final(self).wf(),
            final(self)@ == old(self)@.push(val),
            final(self).copied() == Self::copied_after_push(
                old(self).copied(),
                old(self)@.len() + 1,
                old(self).limit(),
            ),
            final(self).limit() == if Self::swapped_by_push(
                old(self).copied(),
                old(self)@.len() + 1,
                old(self).limit(),
            ) {
                2 * old(self).limit()
            } else {
                old(self).limit()
            },
    {
        self.base.push(val);
        self.base_size += 1;
        if self.copy.is_some() || self.base_size >= self.max_size - self.max_size / 4 {
            let mut copy = match self.copy.take() {
                Some(copy) => copy,
                None => Vec::with_capacity(2 * self.max_size),
            };
            let mut additional_copies: usize = 4;
            proof {
                assert(copy@ =~= self.base@.subrange(0, self.copy_size as int));
            }
            while additional_copies > 0 && self.copy_size < self.base_size
                invariant
                    self.copy is None,
                    self.base@ == old(self).base@.push(val),
                    self.base@.len() == self.base_size,
                    self.max_size == old(self).max_size,
                    self.copy_size <= self.base_size,
                    copy@ == self.base@.subrange(0, self.copy_size as int),
                    additional_copies <= 4,
                    self.copy_size + additional_copies == old(self).copy_size + 4,
                decreases additional_copies,
            {
                copy.push(self.base[self.copy_size]);
                self.copy_size += 1;
                additional_copies -= 1;
                proof {
                    assert(copy@ =~= self.base@.subrange(0, self.copy_size as int));
                }
            }
            if self.copy_size == self.base_size {
                proof {
                    assert(copy@ =~= self.base@);
                }
                self.base = copy;
                self.max_size = 2 * self.max_size;
                self.copy_size = 0;
            } else {
                self.copy = Some(copy);
            }
        }
    }

    /// Takes the top value off.
    pub fn pop(&mut self) -> (val: T)
        requires
            old(self).wf(),
            old(self)@.len() > 0,
            old(self).limit() <= usize::MAX / 2,
        ensures
            final(self).wf(),
            val == old(self)@.last(),
            final(self)@ == old(self)@.drop_last(),
            old(self).copied() == Some((old(self)@.len() - 1) as nat) ==> final(self).copied()
                is None && final(self).limit() == 2 * old(self).limit(),
            old(self).copied() != Some((old(self)@.len() - 1) as nat) ==> final(self).copied()
                == old(self).copied() && final(self).limit() == old(self).limit(),
    {
        self.base_size -= 1;
        let val = self.base.pop().unwrap();
        if self.base_size > 0 && self.copy_size == self.base_size {
            let copy = self.copy.take().unwrap();
            proof {
                assert(copy@ =~= self.base@);
            }
            self.base = copy;
            self.max_size = 2 * self.max_size;
            self.copy_size = 0;
        } else {
            proof {
                if self.copy is Some {
                    assert(self.copy->0@ =~= self.base@.subrange(0, self.copy_size as int));
                }
            }
        }
        val
    }

    /// The top value.
    pub fn peek(&self) -> (val: &T)
        requires
            self.wf(),
            self@.len() > 0,
        ensures
            *val == self@.last(),
    {
        &self.base[self.base_size - 1]
    }
}

} // verus!
