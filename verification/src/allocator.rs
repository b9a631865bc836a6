//! A pool that hands out and takes back fixed-size records.
//!
//! Records live in blocks of `block_size` slots. A block, once made, is never moved or
//! given up while the pool lives, so the address of a record stays good from the moment
//! it is handed out until it is returned. Returned records wait on a free list that is
//! threaded through their own link slot.

use vstd::prelude::*;

verus! {

/// Where a record lives inside a pool: the block that holds it and its slot in that block.
#[derive(Clone, Copy, Debug, PartialEq, Eq, Structural)]
pub struct NodeAddr {
    pub block: usize,
    pub slot: usize,
}

/// What a record must offer so that a pool can manage it: a link slot that the pool may
/// use while the record is on the free list, and (through `Default`) a blank state that
/// every record is in when the pool hands it out.
pub trait Nodable: Default {
    /// The content of the link slot.
    spec fn link(&self) -> Option<NodeAddr>;

    /// The link.
    fn next(&self) -> (r: Option<NodeAddr>)
        ensures
            r == self.link(),
    ;

    /// The link slot, to put another link there.
    fn next_mut(&mut self) -> (r: &mut Option<NodeAddr>)
        ensures
            *r == old(self).link(),
            final(self).link() == *final(r),
    ;
}

/// The bookkeeping of a pool: everything about it but the records themselves.
pub struct PoolLayout {
    /// Slots per block.
    pub block_size: nat,
    /// Room in the block directory.
    pub blocks_cap: nat,
    /// Blocks made so far.
    pub block_count: nat,
    /// Slots of the newest block that were never handed out.
    pub size_left: nat,
    /// The returned records, the one that is reused next first.
    pub free: Seq<NodeAddr>,
}

/// Twice `cap`, or the largest `usize` where that does not fit.
pub open spec fn doubled(cap: nat) -> nat {
    if 2 * cap <= usize::MAX {
        2 * cap
    } else {
        usize::MAX as nat
    }
}

impl PoolLayout {
    /// Whether the next record has to come from a block that does not exist yet.
    pub open spec fn needs_block(self) -> bool {
        self.free.len() == 0 && (self.block_count == 0 || self.size_left == 0)
    }

    /// The address that the next `get_node` hands out.
    pub open spec fn next_addr(self) -> NodeAddr {
        if self.free.len() > 0 {
            self.free[0]
        } else if self.needs_block() {
            NodeAddr { block: self.block_count as usize, slot: 0 }
        } else {
            NodeAddr {
                block: (self.block_count - 1) as usize,
                slot: (self.block_size - self.size_left) as usize,
            }
        }
    }

    /// The bookkeeping after one `get_node`.
    pub open spec fn after_get(self) -> PoolLayout {
        if self.free.len() > 0 {
            PoolLayout {
                block_size: self.block_size,
                blocks_cap: self.blocks_cap,
                block_count: self.block_count,
                size_left: self.size_left,
                free: self.free.skip(1),
            }
        } else if self.needs_block() {
            PoolLayout {
                block_size: self.block_size,
                blocks_cap: if self.block_count == self.blocks_cap {
                    doubled(self.blocks_cap)
                } else {
                    self.blocks_cap
                },
                block_count: self.block_count + 1,
                size_left: (self.block_size - 1) as nat,
                free: self.free,
            }
        } else {
            PoolLayout {
                block_size: self.block_size,
                blocks_cap: self.blocks_cap,
                block_count: self.block_count,
                size_left: (self.size_left - 1) as nat,
                free: self.free,
            }
        }
    }

    /// `at` names a slot that was handed out at least once.
    pub open spec fn issued(self, at: NodeAddr) -> bool {
        ||| at.block + 1 < self.block_count && at.slot < self.block_size
        ||| at.block + 1 == self.block_count && at.slot + self.size_left < self.block_size
    }

    /// The bookkeeping after `at` was returned.
    pub open spec fn after_return(self, at: NodeAddr) -> PoolLayout {
        PoolLayout {
            block_size: self.block_size,
            blocks_cap: self.blocks_cap,
            block_count: self.block_count,
            size_left: self.size_left,
            free: seq![at] + self.free,
        }
    }
}

/// One thing done to a pool, as it shows in the pool's view: a record is handed out, a
/// record is taken back, or the holder of a record changes what it holds.
pub enum PoolStep<N> {
    Acquire { at: NodeAddr, record: N },
    Release { at: NodeAddr },
    Write { at: NodeAddr, record: N },
}

impl<N> PoolStep<N> {
    /// Whether the step can be taken on a pool with this view: only a record that is not
    /// out is handed out, and only one that is out is taken back or changed.
    pub open spec fn fits(self, view: Map<NodeAddr, N>) -> bool {
        match self {
            PoolStep::Acquire { at, .. } => !view.contains_key(at),
            PoolStep::Release { at } => view.contains_key(at),
            PoolStep::Write { at, .. } => view.contains_key(at),
        }
    }

    /// The view after the step.
    pub open spec fn apply(self, view: Map<NodeAddr, N>) -> Map<NodeAddr, N> {
        match self {
            PoolStep::Acquire { at, record } => view.insert(at, record),
            PoolStep::Release { at } => view.remove(at),
            PoolStep::Write { at, record } => view.insert(at, record),
        }
    }

    /// The step takes the record at `at` back.
    pub open spec fn releases(self, at: NodeAddr) -> bool {
        self == (PoolStep::<N>::Release { at })
    }

    /// The step changes or takes back the record at `at`.
    pub open spec fn touches(self, at: NodeAddr) -> bool {
        match self {
            PoolStep::Acquire { .. } => false,
            PoolStep::Release { at: a } => a == at,
            PoolStep::Write { at: a, .. } => a == at,
        }
    }
}

/// The view after the steps of `steps` are taken in turn.
pub open spec fn view_after<N>(view: Map<NodeAddr, N>, steps: Seq<PoolStep<N>>) -> Map<NodeAddr, N>
    decreases steps.len(),
{
    if steps.len() == 0 {
        view
    } else {
        steps.last().apply(view_after(view, steps.drop_last()))
    }
}

/// Each step of `steps` can be taken when its turn comes.
pub open spec fn steps_fit<N>(view: Map<NodeAddr, N>, steps: Seq<PoolStep<N>>) -> bool
    decreases steps.len(),
{
    steps.len() == 0 || (steps_fit(view, steps.drop_last()) && steps.last().fits(
        view_after(view, steps.drop_last()),
    ))
}

/// Steps taken one run after another are taken as one run.
pub proof fn lemma_steps_join<N>(
    view: Map<NodeAddr, N>,
    first: Seq<PoolStep<N>>,
    second: Seq<PoolStep<N>>,
)
    ensures
        view_after(view, first + second) == view_after(view_after(view, first), second),
        steps_fit(view, first + second) == (steps_fit(view, first) && steps_fit(
            view_after(view, first),
            second,
        )),
    decreases second.len(),
{
    if second.len() == 0 {
        assert(first + second =~= first);
    } else {
        assert((first + second).drop_last() =~= first + second.drop_last());
        assert((first + second).last() == second.last());
        lemma_steps_join(view, first, second.drop_last());
    }
}

/// Address stability: a record that is out stays out, at its address, through any steps
/// that do not take it back, however many other records are handed out or returned and
/// however the pool grows meanwhile. If no step writes to it either, it holds what it
/// held.
pub proof fn lemma_address_stable<N>(
    view: Map<NodeAddr, N>,
    steps: Seq<PoolStep<N>>,
    at: NodeAddr,
)
    requires
        view.contains_key(at),
        steps_fit(view, steps),
        forall|i: int| 0 <= i < steps.len() ==> !(#[trigger] steps[i]).releases(at),
    ensures
        view_after(view, steps).contains_key(at),
        (forall|i: int| 0 <= i < steps.len() ==> !(#[trigger] steps[i]).touches(at))
            ==> view_after(view, steps)[at] == view[at],
    decreases steps.len(),
{
    if steps.len() > 0 {
        let front = steps.drop_last();
        assert forall|i: int| 0 <= i < front.len() implies !(#[trigger] front[i]).releases(at) by {
            assert(front[i] == steps[i]);
        }
        lemma_address_stable(view, front, at);
        assert(!steps[steps.len() - 1].releases(at));
        if forall|i: int| 0 <= i < steps.len() ==> !(#[trigger] steps[i]).touches(at) {
            assert forall|i: int| 0 <= i < front.len() implies !(#[trigger] front[i]).touches(
                at,
            ) by {
                assert(front[i] == steps[i]);
            }
            assert(!steps[steps.len() - 1].touches(at));
        }
    }
}

/// No aliasing: of two records handed out, the second is not the first unless the first
/// was taken back in between.
pub proof fn lemma_no_alias<N>(view: Map<NodeAddr, N>, steps: Seq<PoolStep<N>>, i: int, j: int)
    requires
        steps_fit(view, steps),
        0 <= i < j < steps.len(),
        steps[i] is Acquire,
        steps[j] is Acquire,
        forall|k: int| i < k < j ==> !(#[trigger] steps[k]).releases(steps[i]->Acquire_at),
    ensures
        steps[i]->Acquire_at != steps[j]->Acquire_at,
{
    let at = steps[i]->Acquire_at;
    let head = steps.subrange(0, i + 1);
    let between = steps.subrange(i + 1, j);
    let upto = steps.subrange(0, j + 1);
    assert(upto =~= (head + between).push(steps[j]));
    assert(steps =~= upto + steps.subrange(j + 1, steps.len() as int));
    lemma_steps_join(view, upto, steps.subrange(j + 1, steps.len() as int));
    assert(upto.drop_last() =~= head + between);
    assert(upto.last() == steps[j]);
    lemma_steps_join(view, head, between);
    assert(head.last() == steps[i]);
    let start = view_after(view, head);
    assert(start.contains_key(at));
    assert forall|k: int| 0 <= k < between.len() implies !(#[trigger] between[k]).releases(
        at,
    ) by {
        assert(between[k] == steps[i + 1 + k]);
    }
    lemma_address_stable(start, between, at);
}

/// The pool. Its view maps the address of every record that is handed out and not yet
/// returned to that record.
pub struct BlockAllocator<N> where N: Nodable {
    blocks: Vec<Vec<N>>,
    blocks_cap: usize,
    cursor: Option<NodeAddr>,
    block_size: usize,
    size_left: usize,
    free_list: Option<NodeAddr>,
    free: Ghost<Seq<NodeAddr>>,
}

impl<N> View for BlockAllocator<N> where N: Nodable {
    type V = Map<NodeAddr, N>;

    closed spec fn view(&self) -> Map<NodeAddr, N> {
        Map::new(
            |at: NodeAddr| self.issued(at) && !self.free@.contains(at),
            |at: NodeAddr| self.slot(at),
        )
    }
}

impl<N> BlockAllocator<N> where N: Nodable {
    pub const DEFAULT_BLOCK_SIZE: usize = 256;

    pub const DEFAULT_BLOCK_CAP: usize = 32;

    /// `at` names a slot that was handed out at least once.
    spec fn issued(&self, at: NodeAddr) -> bool {
        at.block < self.blocks@.len() && at.slot < self.blocks@[at.block as int]@.len()
    }

    /// The record in an issued slot.
    spec fn slot(&self, at: NodeAddr) -> N {
        self.blocks@[at.block as int]@[at.slot as int]
    }

    /// The bookkeeping of this pool.
    pub closed spec fn layout(&self) -> PoolLayout {
        PoolLayout {
            block_size: self.block_size as nat,
            blocks_cap: self.blocks_cap as nat,
            block_count: self.blocks@.len(),
            size_left: self.size_left as nat,
            free: self.free@,
        }
    }

    /// Every block but the newest is full, and the newest holds what `size_left` says.
    spec fn blocks_wf(&self) -> bool {
        &&& self.block_size > 0
        &&& self.blocks_cap > 0
        &&& self.blocks@.len() <= self.blocks_cap
        &&& self.size_left <= self.block_size
        &&& forall|b: int|
            0 <= b < self.blocks@.len() - 1 ==> (#[trigger] self.blocks@[b])@.len()
                == self.block_size
        &&& match self.cursor {
            None => self.blocks@.len() == 0 && self.size_left == 0,
            Some(c) => {
                &&& self.blocks@.len() > 0
                &&& c.block == self.blocks@.len() - 1
                &&& c.slot == self.blocks@[c.block as int]@.len()
                &&& c.slot + self.size_left == self.block_size
            },
        }
    }

    /// The free list runs through the link slots of the returned records, in the order
    /// that `free` gives, and holds no record twice.
    spec fn free_wf(&self) -> bool {
        &&& self.free@.no_duplicates()
        &&& self.free_list == if self.free@.len() == 0 {
            None
        } else {
            Some(self.free@[0])
        }
        &&& forall|i: int|
            0 <= i < self.free@.len() ==> {
                &&& self.issued(#[trigger] self.free@[i])
                &&& self.slot(self.free@[i]).link() == if i + 1 < self.free@.len() {
                    Some(self.free@[i + 1])
                } else {
                    None
                }
            }
    }

    /// The pool's invariant.
    pub closed spec fn wf(&self) -> bool {
        self.blocks_wf() && self.free_wf()
    }

    /// In a well-formed pool the bookkeeping is consistent, a record is out or on the free
    /// list but not both, and the slot that comes next is not out.
    pub proof fn lemma_layout(&self)
        requires
            self.wf(),
        ensures
            self.layout().block_size > 0,
            self.layout().blocks_cap > 0,
            self.layout().block_count <= self.layout().blocks_cap,
            self.layout().size_left <= self.layout().block_size,
            self.layout().block_count == 0 ==> self.layout().size_left == 0,
            self.layout().free.no_duplicates(),
            forall|at: NodeAddr| #[trigger]
                self@.contains_key(at) ==> !self.layout().free.contains(at),
            !self@.contains_key(self.layout().next_addr()),
    {
        if self.free@.len() > 0 {
            assert(self.free@.contains(self.free@[0]));
        }
    }

    /// The records that are out and those on the free list are together the slots that were
    /// ever handed out: all slots of every block but the newest, and the used slots of
    /// the newest.
    pub proof fn lemma_issued(&self, at: NodeAddr)
        requires
            self.wf(),
        ensures
            self@.contains_key(at) || self.layout().free.contains(at) <==> self.layout().issued(
                at,
            ),
    {
        if self.layout().free.contains(at) {
            let i = self.free@.index_of(at);
            assert(self.issued(self.free@[i]));
        }
        if at.block + 1 < self.blocks@.len() {
            assert(self.blocks@[at.block as int]@.len() == self.block_size);
        }
    }

    /// An empty pool with blocks of `block_size` records and a block directory with room
    /// for `blocks_cap` blocks. No block is made before the first record is asked for.
    pub fn new(block_size: usize, blocks_cap: usize) -> (pool: Self)
        requires
            block_size > 0,
            blocks_cap > 0,
        ensures
            pool.wf(),
            pool@ == Map::<NodeAddr, N>::empty(),
            pool.layout() == (PoolLayout {
                block_size: block_size as nat,
                blocks_cap: blocks_cap as nat,
                block_count: 0,
                size_left: 0,
                free: Seq::empty(),
            }),
    {
        let pool = Self {
            blocks: Vec::with_capacity(blocks_cap),
            blocks_cap,
            cursor: None,
            block_size,
            size_left: 0,
            free_list: None,
            free: Ghost(Seq::empty()),
        };
        assert(pool@ =~= Map::<NodeAddr, N>::empty());
        pool
    }

    /// Hands out a record in its blank state. A returned record is reused before a slot
    /// that was never used; a new block is made when the newest one is used up, and the
    /// block directory doubles when it is full. No record that is out changes or moves.
    pub fn get_node(&mut self) -> (node: NodeAddr)
        requires
            old(self).wf(),
        ensures
            final(self).wf(),
            node == old(self).layout().next_addr(),
            final(self).layout() == old(self).layout().after_get(),
            !old(self)@.contains_key(node),
            final(self)@.contains_key(node),
            call_ensures(N::default, (), final(self)@[node]),
            final(self)@ == old(self)@.insert(node, final(self)@[node]),
            (PoolStep::Acquire { at: node, record: final(self)@[node] }).fits(old(self)@),
            final(self)@ == (PoolStep::Acquire { at: node, record: final(self)@[node] }).apply(
                old(self)@,
            ),
            forall|at: NodeAddr| #[trigger]
                old(self)@.contains_key(at) ==> final(self)@.contains_key(at) && final(self)@[at]
                    == old(self)@[at],
    {
        let node;
        match self.free_list {
            Some(head) => {
                proof {
                    assert(self.issued(self.free@[0]));
                }
                node = head;
                self.free_list = self.blocks[head.block][head.slot].next();
                self.blocks[head.block][head.slot] = N::default();
                proof {
                    let ghost before = old(self).free@;
                    self.free = Ghost(before.skip(1));
                    assert forall|i: int| 0 <= i < self.free@.len() implies {
                        &&& self.issued(#[trigger] self.free@[i])
                        &&& self.slot(self.free@[i]).link() == if i + 1 < self.free@.len() {
                            Some(self.free@[i + 1])
                        } else {
                            None
                        }
                    } by {
                        assert(self.free@[i] == before[i + 1]);
                        assert(old(self).issued(before[i + 1]));
                        assert(before[i + 1] != before[0]);
                    }
                    assert forall|at: NodeAddr| self.free@.contains(at) implies before.contains(
                        at,
                    ) && at != head by {
                        let i = self.free@.index_of(at);
                        assert(before[i + 1] == at);
                    }
                    assert forall|at: NodeAddr|
                        before.contains(at) && at != head implies
                        self.free@.contains(at) by {
                        let i = before.index_of(at);
                        assert(self.free@[i - 1] == at);
                    }
                }
            },
            None => {
                if self.cursor.is_none() || self.size_left == 0 {
                    let new_block: Vec<N> = Vec::with_capacity(self.block_size);
                    if self.blocks.len() == self.blocks_cap {
                        // A directory too large to double cannot be had: `reserve` gives up.
                        self.blocks.reserve(self.blocks_cap);
                        self.blocks_cap = if self.blocks_cap <= usize::MAX / 2 {
                            2 * self.blocks_cap
                        } else {
                            usize::MAX
                        };
                    }
                    self.blocks.push(new_block);
                    self.cursor = Some(NodeAddr { block: self.blocks.len() - 1, slot: 0 });
                    self.size_left = self.block_size;
                }
                let at = self.cursor.unwrap();
                node = at;
                self.cursor = Some(NodeAddr { block: at.block, slot: at.slot + 1 });
                self.size_left -= 1;
                self.blocks[at.block].push(N::default());
                proof {
                    assert(self.free@ =~= old(self).free@);
                }
            },
        }
        proof {
            assert(final(self)@ =~= old(self)@.insert(node, final(self)@[node]));
        }
        node
    }

    /// Takes `node` back: it goes to the head of the free list and is the next record
    /// to be handed out. Its storage stays where it is.
    pub fn return_node(&mut self, node: NodeAddr)
        requires
            old(self).wf(),
            old(self)@.contains_key(node),
        ensures
            final(self).wf(),
            final(self).layout() == old(self).layout().after_return(node),
            final(self)@ == old(self)@.remove(node),
            final(self)@ == (PoolStep::<N>::Release { at: node }).apply(old(self)@),
            forall|at: NodeAddr| #[trigger]
                old(self)@.contains_key(at) && at != node ==> final(self)@.contains_key(at)
                    && final(self)@[at] == old(self)@[at],
    {
        let head = self.free_list;
        *self.blocks[node.block][node.slot].next_mut() = head;
        self.free_list = Some(node);
        proof {
            let ghost before = old(self).free@;
            self.free = Ghost(seq![node] + before);
            assert forall|i: int| 0 <= i < self.free@.len() implies {
                &&& self.issued(#[trigger] self.free@[i])
                &&& self.slot(self.free@[i]).link() == if i + 1 < self.free@.len() {
                    Some(self.free@[i + 1])
                } else {
                    None
                }
            } by {
                if i > 0 {
                    assert(self.free@[i] == before[i - 1]);
                    assert(old(self).issued(before[i - 1]));
                }
            }
            assert forall|at: NodeAddr| self.free@.contains(at) <==> before.contains(at) || at
                == node by {
                if self.free@.contains(at) {
                    let i = self.free@.index_of(at);
                    if i > 0 {
                        assert(before[i - 1] == at);
                    }
                }
                if before.contains(at) {
                    let i = before.index_of(at);
                    assert(self.free@[i + 1] == at);
                }
                assert(self.free@[0] == node);
            }
            assert(final(self)@ =~= old(self)@.remove(node));
        }
    }

    /// The record at `at`.
    pub fn node(&self, at: NodeAddr) -> (r: &N)
        requires
            self.wf(),
            self@.contains_key(at),
        ensures
            *r == self@[at],
    {
        &self.blocks[at.block][at.slot]
    }

    /// The record at `at`, to be changed in place. Whatever the caller writes, the pool
    /// stays well-formed and no other record changes.
    pub fn node_mut(&mut self, at: NodeAddr) -> (r: &mut N)
        requires
            old(self).wf(),
            old(self)@.contains_key(at),
        ensures
            *r == old(self)@[at],
            final(self).wf(),
            final(self).layout() == old(self).layout(),
            final(self)@ == old(self)@.insert(at, *final(r)),
            final(self)@ == (PoolStep::Write { at, record: *final(r) }).apply(old(self)@),
    {
        &mut self.blocks[at.block][at.slot]
    }
}

/// A record with one link and room for one value.
#[derive(Debug)]
pub struct Node<T> {
    pub next: Option<NodeAddr>,
    pub val: Option<T>,
}

impl<T> Default for Node<T> {
    fn default() -> (node: Self)
        ensures
            node.next is None,
            node.val is None,
    {
        Self { next: None, val: None }
    }
}

impl<T> Nodable for Node<T> {
    open spec fn link(&self) -> Option<NodeAddr> {
        self.next
    }

    fn next(&self) -> (r: Option<NodeAddr>) {
        self.next
    }

    fn next_mut(&mut self) -> (r: &mut Option<NodeAddr>)
        ensures
            final(self).val == old(self).val,
    {
        &mut self.next
    }
}

/// A record with a link in each direction and room for one value.
#[derive(Debug)]
pub struct BiNode<T> {
    pub next: Option<NodeAddr>,
    pub prev: Option<NodeAddr>,
    pub val: Option<T>,
}

impl<T> Default for BiNode<T> {
    fn default() -> (node: Self)
        ensures
            node.next is None,
            node.prev is None,
            node.val is None,
    {
        Self { next: None, prev: None, val: None }
    }
}

impl<T> Nodable for BiNode<T> {
    open spec fn link(&self) -> Option<NodeAddr> {
        self.next
    }

    fn next(&self) -> (r: Option<NodeAddr>) {
        self.next
    }

    fn next_mut(&mut self) -> (r: &mut Option<NodeAddr>)
        ensures
            final(self).prev == old(self).prev,
            final(self).val == old(self).val,
    {
        &mut self.next
    }
}

impl<N> Default for BlockAllocator<N> where N: Nodable {
    fn default() -> (pool: Self)
        ensures
            pool.wf(),
            pool@ == Map::<NodeAddr, N>::empty(),
            pool.layout() == (PoolLayout {
                block_size: 256,
                blocks_cap: 32,
                block_count: 0,
                size_left: 0,
                free: Seq::empty(),
            }),
    {
        Self::new(Self::DEFAULT_BLOCK_SIZE, Self::DEFAULT_BLOCK_CAP)
    }
}

} // verus!
