//! Building a tree from the top down.
//!
//! The build keeps a stack of frames. A frame names a blank record that is to become the
//! top of a subtree, the number of leaves of that subtree, and the fork whose routing key
//! the first leaf of the subtree will settle. While the build runs, the records are not
//! yet a tree; what holds of them is stated here record by record, and at the end a
//! `Shape` is read off.

use vstd::prelude::*;
use vstd::arithmetic::power2::pow2;
use crate::allocator::NodeAddr;
use crate::order::{lemma_order, lt, total_order};
use crate::trees::shape::Shape;
use crate::trees::walk::ascending;
use crate::trees::{TreeNode, TreePtr};

verus! {

/// A frame of the build: `node1` is to hold `number` leaves; `node2`, if there is one,
/// waits for the key of the first of them.
#[derive(Clone, Copy, Debug)]
pub struct TreeBuilder {
    pub node1: NodeAddr,
    pub node2: Option<NodeAddr>,
    pub number: usize,
}

/// Where the leaves `lo..hi` of a subtree are split between its left and right half.
pub open spec fn mid(lo: int, hi: int) -> int {
    lo + (hi - lo) / 2
}

/// The least `c` with `n <= 2^c`.
pub open spec fn ceil_log2(n: nat) -> nat
    decreases n,
{
    if n <= 1 {
        0
    } else {
        1 + ceil_log2((n - n / 2) as nat)
    }
}

/// What holds of the record at `at` during a build that has placed the first `pos`
/// items: it waits on the stack, or it is the leaf of an item placed, or it is a fork
/// over two records that split its leaves, with its key settled or a frame that will
/// settle it.
#[verifier::opaque]
pub open spec fn record_ok<K, V>(
    heap: Map<NodeAddr, TreeNode<K, V>>,
    spans: Map<NodeAddr, (int, int)>,
    frames: Seq<TreeBuilder>,
    pos: int,
    items: Seq<(K, V)>,
    at: NodeAddr,
) -> bool {
    let lo = spans[at].0;
    let hi = spans[at].1;
    let node = heap[at];
    &&& spans.contains_key(at)
    &&& 0 <= lo < hi <= items.len()
    &&& match node.left {
        TreePtr::Null => {
            &&& node.right is None
            &&& node.key is None
            &&& exists|i: int| 0 <= i < frames.len() && (#[trigger] frames[i]).node1 == at
        },
        TreePtr::Val(val) => {
            &&& hi == lo + 1
            &&& lo < pos
            &&& node.right is None
            &&& node.key == Some(items[lo].0)
            &&& *val == items[lo].1
        },
        TreePtr::Node(left) => {
            &&& hi - lo >= 2
            &&& node.right is Some
            &&& heap.contains_key(left)
            &&& heap.contains_key(node.right->0)
            &&& spans[left] == (lo, mid(lo, hi))
            &&& spans[node.right->0] == (mid(lo, hi), hi)
            &&& {
                ||| node.key == Some(items[mid(lo, hi)].0)
                ||| node.key is None && exists|i: int|
                    0 <= i < frames.len() && (#[trigger] frames[i]).node2 == Some(at)
            }
        },
    }
}

/// Every record but the root is the child of a fork.
#[verifier::opaque]
pub open spec fn child_ok<K, V>(
    heap: Map<NodeAddr, TreeNode<K, V>>,
    root: NodeAddr,
    at: NodeAddr,
) -> bool {
    at == root || exists|up: NodeAddr|
        {
            &&& #[trigger] heap.contains_key(up)
            &&& heap[up].left is Node
            &&& heap[up].right is Some
            &&& (heap[up].left->Node_0 == at || heap[up].right->0 == at)
        }
}

/// What holds of the frame at index `i`: its record is blank and is to hold as many
/// leaves as the frame says; the frames divide the items not yet placed among them, the
/// one on top taking the next; and the fork that waits for a key waits for the key of
/// the frame's first item. The frame at depth `i` stands for at most `n / 2^i` leaves.
#[verifier::opaque]
pub open spec fn frame_ok<K, V>(
    heap: Map<NodeAddr, TreeNode<K, V>>,
    spans: Map<NodeAddr, (int, int)>,
    frames: Seq<TreeBuilder>,
    pos: int,
    n: int,
    i: int,
) -> bool {
    let frame = frames[i];
    let lo = spans[frame.node1].0;
    let hi = spans[frame.node1].1;
    &&& heap.contains_key(frame.node1)
    &&& heap[frame.node1].left is Null
    &&& frame.number == hi - lo
    &&& hi == if i == 0 {
        n
    } else {
        spans[frames[i - 1].node1].0
    }
    &&& i == frames.len() - 1 ==> lo == pos
    &&& match frame.node2 {
        None => lo == 0,
        Some(up) => {
            &&& heap.contains_key(up)
            &&& heap[up].left is Node
            &&& heap[up].key is None
            &&& mid(spans[up].0, spans[up].1) == lo
        },
    }
    &&& frame.number * pow2(i as nat) <= n
}

/// The state of a build.
pub open spec fn building<K, V>(
    heap: Map<NodeAddr, TreeNode<K, V>>,
    spans: Map<NodeAddr, (int, int)>,
    frames: Seq<TreeBuilder>,
    pos: int,
    items: Seq<(K, V)>,
    root: NodeAddr,
) -> bool {
    &&& heap.contains_key(root)
    &&& spans[root] == (0int, items.len() as int)
    &&& 0 <= pos <= items.len()
    &&& frames.len() == 0 ==> pos == items.len()
    &&& forall|at: NodeAddr| #[trigger]
        heap.contains_key(at) ==> record_ok(heap, spans, frames, pos, items, at) && child_ok(
            heap,
            root,
            at,
        )
    &&& forall|i: int|
        0 <= i < frames.len() ==> #[trigger] frame_ok(
            heap,
            spans,
            frames,
            pos,
            items.len() as int,
            i,
        )
}

/// A build starts with the blank root on the stack, to hold all items.
pub proof fn lemma_build_start<K, V>(
    heap: Map<NodeAddr, TreeNode<K, V>>,
    items: Seq<(K, V)>,
    root: NodeAddr,
)
    requires
        items.len() > 0,
        items.len() <= usize::MAX,
        heap.dom() =~= set![root],
        heap[root].left is Null,
        heap[root].right is None,
        heap[root].key is None,
    ensures
        building(
            heap,
            Map::<NodeAddr, (int, int)>::empty().insert(root, (0int, items.len() as int)),
            seq![TreeBuilder { node1: root, node2: None, number: items.len() as usize }],
            0,
            items,
            root,
        ),
{
    let spans = Map::<NodeAddr, (int, int)>::empty().insert(root, (0int, items.len() as int));
    let frames = seq![TreeBuilder { node1: root, node2: None, number: items.len() as usize }];
    reveal(record_ok);
    reveal(child_ok);
    reveal(frame_ok);
    assert(frames[0].node1 == root);
    vstd::arithmetic::power2::lemma2_to64();
    assert(frame_ok(heap, spans, frames, 0, items.len() as int, 0));
}

/// The frames on a stack stand for stretches of items that follow one another: the one
/// on top begins at `pos`, every other frame after it.
pub proof fn lemma_frames_apart<K, V>(
    heap: Map<NodeAddr, TreeNode<K, V>>,
    spans: Map<NodeAddr, (int, int)>,
    frames: Seq<TreeBuilder>,
    pos: int,
    items: Seq<(K, V)>,
    root: NodeAddr,
    i: int,
)
    requires
        building(heap, spans, frames, pos, items, root),
        0 <= i < frames.len(),
    ensures
        heap.contains_key(frames[i].node1),
        heap[frames[i].node1].left is Null,
        heap[frames[i].node1].right is None,
        heap[frames[i].node1].key is None,
        spans[frames[i].node1].0 >= pos + (frames.len() - 1 - i),
        i < frames.len() - 1 ==> spans[frames[i].node1].0 > pos,
        i == frames.len() - 1 ==> spans[frames[i].node1].0 == pos,
        spans[frames[i].node1].0 < spans[frames[i].node1].1,
        spans[frames[i].node1].1 <= items.len(),
        frames[i].number == spans[frames[i].node1].1 - spans[frames[i].node1].0,
        frames[i].node2 is Some ==> {
            &&& heap.contains_key(frames[i].node2->0)
            &&& heap[frames[i].node2->0].left is Node
            &&& heap[frames[i].node2->0].key is None
            &&& mid(spans[frames[i].node2->0].0, spans[frames[i].node2->0].1)
                == spans[frames[i].node1].0
        },
    decreases frames.len() - i,
{
    reveal(record_ok);
    reveal(frame_ok);
    assert(frame_ok(heap, spans, frames, pos, items.len() as int, i));
    assert(heap.contains_key(frames[i].node1));
    assert(record_ok(heap, spans, frames, pos, items, frames[i].node1));
    if i < frames.len() - 1 {
        lemma_frames_apart(heap, spans, frames, pos, items, root, i + 1);
        assert(frame_ok(heap, spans, frames, pos, items.len() as int, i + 1));
    }
}

/// A record keeps its place in a heap that changes only at blank records and gains
/// records: the fork above it is still there.
proof fn lemma_child_kept<K, V>(
    heap: Map<NodeAddr, TreeNode<K, V>>,
    after: Map<NodeAddr, TreeNode<K, V>>,
    root: NodeAddr,
    at: NodeAddr,
)
    requires
        child_ok(heap, root, at),
        forall|x: NodeAddr| #[trigger]
            heap.contains_key(x) && heap[x].left is Node ==> after.contains_key(x) && after[x].left
                == heap[x].left && after[x].right == heap[x].right,
    ensures
        child_ok(after, root, at),
{
    reveal(child_ok);
    if at != root {
        let up = choose|up: NodeAddr|
            {
                &&& #[trigger] heap.contains_key(up)
                &&& heap[up].left is Node
                &&& heap[up].right is Some
                &&& (heap[up].left->Node_0 == at || heap[up].right->0 == at)
            };
        assert(after.contains_key(up));
    }
}

/// A record that a fork step does not touch is after the step what it was before.
proof fn lemma_fork_keeps_record<K, V>(
    heap: Map<NodeAddr, TreeNode<K, V>>,
    spans: Map<NodeAddr, (int, int)>,
    frames: Seq<TreeBuilder>,
    pos: int,
    items: Seq<(K, V)>,
    after: Map<NodeAddr, TreeNode<K, V>>,
    spans2: Map<NodeAddr, (int, int)>,
    frames2: Seq<TreeBuilder>,
    at: NodeAddr,
)
    requires
        frames.len() > 0,
        record_ok(heap, spans, frames, pos, items, at),
        heap.contains_key(at),
        at != frames.last().node1,
        after[at] == heap[at],
        forall|x: NodeAddr| #[trigger]
            heap.contains_key(x) ==> after.contains_key(x) && spans2[x] == spans[x] && (
            spans.contains_key(x) ==> spans2.contains_key(x)),
        frames2.len() == frames.len() + 1,
        forall|i: int| 0 <= i < frames.len() - 1 ==> #[trigger] frames2[i] == frames[i],
        frames2.last().node2 == frames.last().node2,
    ensures
        record_ok(after, spans2, frames2, pos, items, at),
{
    reveal(record_ok);
    let m = frames.len() as int;
    match heap[at].left {
        TreePtr::Null => {
            let i = choose|i: int| 0 <= i < frames.len() && (#[trigger] frames[i]).node1 == at;
            assert(frames2[i].node1 == at);
        },
        TreePtr::Val(_) => {},
        TreePtr::Node(l0) => {
            if heap[at].key is None {
                let i = choose|i: int|
                    0 <= i < frames.len() && (#[trigger] frames[i]).node2 == Some(at);
                if i == m - 1 {
                    assert(frames2[m].node2 == Some(at));
                } else {
                    assert(frames2[i].node2 == Some(at));
                }
            }
        },
    }
}

/// A frame below the top is after a fork step what it was before.
proof fn lemma_fork_keeps_frame<K, V>(
    heap: Map<NodeAddr, TreeNode<K, V>>,
    spans: Map<NodeAddr, (int, int)>,
    frames: Seq<TreeBuilder>,
    pos: int,
    n: int,
    after: Map<NodeAddr, TreeNode<K, V>>,
    spans2: Map<NodeAddr, (int, int)>,
    frames2: Seq<TreeBuilder>,
    i: int,
)
    requires
        0 <= i < frames.len() - 1,
        frame_ok(heap, spans, frames, pos, n, i),
        i > 0 ==> heap.contains_key(frames[i - 1].node1),
        frames[i].node1 != frames.last().node1,
        heap[frames.last().node1].left is Null,
        forall|x: NodeAddr| #[trigger]
            heap.contains_key(x) ==> after.contains_key(x) && spans2[x] == spans[x],
        forall|x: NodeAddr|
            heap.contains_key(x) && x != frames.last().node1 ==> #[trigger] after[x]
                == heap[x],
        frames2.len() == frames.len() + 1,
        forall|j: int| 0 <= j < frames.len() - 1 ==> #[trigger] frames2[j] == frames[j],
    ensures
        frame_ok(after, spans2, frames2, pos, n, i),
{
    reveal(frame_ok);
    let f = frames[i];
    assert(frames2[i] == f);
    assert(after[f.node1] == heap[f.node1]);
    if i > 0 {
        assert(frames2[i - 1] == frames[i - 1]);
    }
    match f.node2 {
        None => {},
        Some(up) => {
            assert(after[up] == heap[up]);
        },
    }
}

/// One step of the build at a frame for more than one leaf: its record becomes a fork
/// over two fresh blank records, which go on the stack in its place, the right one
/// below the left one. The left frame passes on the fork that waited; the right frame
/// has this fork wait for its first key.
pub proof fn lemma_build_fork<K, V>(
    heap: Map<NodeAddr, TreeNode<K, V>>,
    spans: Map<NodeAddr, (int, int)>,
    frames: Seq<TreeBuilder>,
    pos: int,
    items: Seq<(K, V)>,
    root: NodeAddr,
    left: TreeBuilder,
    right: TreeBuilder,
    after: Map<NodeAddr, TreeNode<K, V>>,
)
    requires
        building(heap, spans, frames, pos, items, root),
        frames.len() > 0,
        frames.last().number > 1,
        left.node1 != right.node1,
        !heap.contains_key(left.node1),
        !heap.contains_key(right.node1),
        left.node2 == frames.last().node2,
        left.number == frames.last().number / 2,
        right.node2 == Some(frames.last().node1),
        right.number == frames.last().number - left.number,
        after.dom() =~= heap.dom().insert(left.node1).insert(right.node1),
        forall|at: NodeAddr|
            heap.contains_key(at) && at != frames.last().node1 ==> #[trigger] after[at]
                == heap[at],
        after[left.node1].left is Null && after[left.node1].right is None
            && after[left.node1].key is None,
        after[right.node1].left is Null && after[right.node1].right is None
            && after[right.node1].key is None,
        after[frames.last().node1].key is None,
        after[frames.last().node1].left == TreePtr::<V>::Node(left.node1),
        after[frames.last().node1].right == Some(right.node1),
    ensures
        building(
            after,
            spans.insert(
                left.node1,
                (
                    spans[frames.last().node1].0,
                    mid(spans[frames.last().node1].0, spans[frames.last().node1].1),
                ),
            ).insert(
                right.node1,
                (
                    mid(spans[frames.last().node1].0, spans[frames.last().node1].1),
                    spans[frames.last().node1].1,
                ),
            ),
            frames.drop_last().push(right).push(left),
            pos,
            items,
            root,
        ),
        2 * pow2((frames.len() - 1) as nat) <= items.len(),
{
    let top = frames.last();
    let m = frames.len() as int;
    let n = items.len() as int;
    let at = top.node1;
    let lo = spans[at].0;
    let hi = spans[at].1;
    let half = mid(lo, hi);
    let spans2 = spans.insert(left.node1, (lo, half)).insert(right.node1, (half, hi));
    let frames2 = frames.drop_last().push(right).push(left);
    assert(frames[m - 1] == top);
    assert(frames2.len() == m + 1);
    assert(frames2[m] == left && frames2[m - 1] == right);
    assert forall|i: int| 0 <= i < m - 1 implies #[trigger] frames2[i] == frames[i] by {}
    lemma_frames_apart(heap, spans, frames, pos, items, root, m - 1);
    assert(frame_ok(heap, spans, frames, pos, n, m - 1));
    assert(record_ok(heap, spans, frames, pos, items, at));
    let c = top.number as int;
    let p = pow2((m - 1) as nat) as int;
    assert(c == hi - lo && c * p <= n && (m - 1 > 0 ==> hi == spans[frames[m - 2].node1].0) && (m
        - 1 == 0 ==> hi == n) && lo == pos && (top.node2 is None ==> lo == 0) && (top.node2 is Some
        ==> {
        &&& heap.contains_key(top.node2->0)
        &&& heap[top.node2->0].left is Node
        &&& heap[top.node2->0].key is None
        &&& mid(spans[top.node2->0].0, spans[top.node2->0].1) == lo
    })) by {
        reveal(frame_ok);
    }
    assert(spans.contains_key(at)) by {
        reveal(record_ok);
    }
    assert(left.number == half - lo && right.number == hi - half);
    assert(lo < half < hi);
    vstd::arithmetic::power2::lemma_pow2_pos((m - 1) as nat);
    vstd::arithmetic::power2::lemma_pow2_unfold(m as nat);
    assert(2 * p <= n) by (nonlinear_arith)
        requires
            c * p <= n,
            c >= 2,
            p > 0,
    ;
    assert((hi - half) * p <= n) by (nonlinear_arith)
        requires
            c * p <= n,
            hi - half <= c,
            p > 0,
    ;
    assert((half - lo) * (2 * p) <= n) by (nonlinear_arith)
        requires
            c * p <= n,
            2 * (half - lo) <= c,
            p > 0,
    ;
    assert forall|x: NodeAddr| #[trigger] heap.contains_key(x) implies after.contains_key(x)
        && spans2[x] == spans[x] && (spans.contains_key(x) ==> spans2.contains_key(x)) by {}
    assert forall|i: int| 0 <= i < frames2.len() implies #[trigger] frame_ok(
        after,
        spans2,
        frames2,
        pos,
        n,
        i,
    ) by {
        if i < m - 1 {
            assert(frame_ok(heap, spans, frames, pos, n, i));
            lemma_frames_apart(heap, spans, frames, pos, items, root, i);
            if i > 0 {
                lemma_frames_apart(heap, spans, frames, pos, items, root, i - 1);
            }
            lemma_fork_keeps_frame(heap, spans, frames, pos, n, after, spans2, frames2, i);
        } else if i == m - 1 {
            if m - 1 > 0 {
                lemma_frames_apart(heap, spans, frames, pos, items, root, m - 2);
                assert(frames2[m - 2] == frames[m - 2]);
            }
            reveal(frame_ok);
        } else {
            if top.node2 is Some {
                assert(after[top.node2->0] == heap[top.node2->0]);
            }
            reveal(frame_ok);
        }
    }
    assert forall|x: NodeAddr| #[trigger]
        heap.contains_key(x) && heap[x].left is Node implies after.contains_key(x) && after[x].left
        == heap[x].left && after[x].right == heap[x].right by {
        assert(after[x] == heap[x]);
    }
    assert forall|x: NodeAddr| #[trigger] after.contains_key(x) implies record_ok(
        after,
        spans2,
        frames2,
        pos,
        items,
        x,
    ) && child_ok(after, root, x) by {
        if x == left.node1 {
            assert(frames2[m].node1 == x);
            assert(after.contains_key(at));
            reveal(record_ok);
            reveal(child_ok);
        } else if x == right.node1 {
            assert(frames2[m - 1].node1 == x);
            assert(after.contains_key(at));
            reveal(record_ok);
            reveal(child_ok);
        } else if x == at {
            assert(frames2[m - 1].node2 == Some(x));
            lemma_child_kept(heap, after, root, x);
            reveal(record_ok);
        } else {
            assert(heap.contains_key(x));
            assert(after[x] == heap[x]);
            lemma_fork_keeps_record(heap, spans, frames, pos, items, after, spans2, frames2, x);
            lemma_child_kept(heap, after, root, x);
        }
    }
}

/// A record that a leaf step does not touch is after the step what it was before.
proof fn lemma_leaf_keeps_record<K, V>(
    heap: Map<NodeAddr, TreeNode<K, V>>,
    spans: Map<NodeAddr, (int, int)>,
    frames: Seq<TreeBuilder>,
    pos: int,
    items: Seq<(K, V)>,
    after: Map<NodeAddr, TreeNode<K, V>>,
    at: NodeAddr,
)
    requires
        frames.len() > 0,
        record_ok(heap, spans, frames, pos, items, at),
        heap.contains_key(at),
        at != frames.last().node1,
        frames.last().node2 != Some(at),
        after[at] == heap[at],
        after.dom() =~= heap.dom(),
    ensures
        record_ok(after, spans, frames.drop_last(), pos + 1, items, at),
{
    reveal(record_ok);
    let frames2 = frames.drop_last();
    match heap[at].left {
        TreePtr::Null => {
            let i = choose|i: int| 0 <= i < frames.len() && (#[trigger] frames[i]).node1 == at;
            assert(frames2[i].node1 == at);
        },
        TreePtr::Val(_) => {},
        TreePtr::Node(l0) => {
            if heap[at].key is None {
                let i = choose|i: int|
                    0 <= i < frames.len() && (#[trigger] frames[i]).node2 == Some(at);
                assert(frames2[i].node2 == Some(at));
            }
        },
    }
}

/// A frame below the top is after a leaf step what it was before; the one just below
/// the top is the new top and takes the next item.
proof fn lemma_leaf_keeps_frame<K, V>(
    heap: Map<NodeAddr, TreeNode<K, V>>,
    spans: Map<NodeAddr, (int, int)>,
    frames: Seq<TreeBuilder>,
    pos: int,
    n: int,
    after: Map<NodeAddr, TreeNode<K, V>>,
    i: int,
)
    requires
        0 <= i < frames.len() - 1,
        frame_ok(heap, spans, frames, pos, n, i),
        i == frames.len() - 2 ==> spans[frames[i].node1].0 == pos + 1,
        after.dom() =~= heap.dom(),
        after[frames[i].node1] == heap[frames[i].node1],
        frames[i].node2 is Some ==> after[frames[i].node2->0] == heap[frames[i].node2->0],
    ensures
        frame_ok(after, spans, frames.drop_last(), pos + 1, n, i),
{
    reveal(frame_ok);
    let frames2 = frames.drop_last();
    assert(frames2[i] == frames[i]);
    if i > 0 {
        assert(frames2[i - 1] == frames[i - 1]);
    }
}

/// One step of the build at a frame for one leaf: its record becomes the leaf of the
/// next item, and the fork that waited gets that item's key as its routing key.
pub proof fn lemma_build_leaf<K, V>(
    heap: Map<NodeAddr, TreeNode<K, V>>,
    spans: Map<NodeAddr, (int, int)>,
    frames: Seq<TreeBuilder>,
    pos: int,
    items: Seq<(K, V)>,
    root: NodeAddr,
    after: Map<NodeAddr, TreeNode<K, V>>,
)
    requires
        building(heap, spans, frames, pos, items, root),
        frames.len() > 0,
        frames.last().number <= 1,
        pos < items.len(),
        after.dom() =~= heap.dom(),
        after[frames.last().node1].left == TreePtr::Val(Box::new(items[pos].1)),
        after[frames.last().node1].key == Some(items[pos].0),
        after[frames.last().node1].right is None,
        frames.last().node2 is Some ==> {
            &&& after[frames.last().node2->0].key == Some(items[pos].0)
            &&& after[frames.last().node2->0].left == heap[frames.last().node2->0].left
            &&& after[frames.last().node2->0].right == heap[frames.last().node2->0].right
        },
        forall|at: NodeAddr|
            heap.contains_key(at) && at != frames.last().node1 && frames.last().node2 != Some(at)
                ==> #[trigger] after[at] == heap[at],
    ensures
        building(after, spans, frames.drop_last(), pos + 1, items, root),
{
    let top = frames.last();
    let m = frames.len() as int;
    let n = items.len() as int;
    let at = top.node1;
    let frames2 = frames.drop_last();
    assert(frames[m - 1] == top);
    lemma_frames_apart(heap, spans, frames, pos, items, root, m - 1);
    assert(frame_ok(heap, spans, frames, pos, n, m - 1));
    assert(record_ok(heap, spans, frames, pos, items, at));
    let lo = spans[at].0;
    let hi = spans[at].1;
    assert(lo == pos && hi == pos + 1);
    assert((m - 1 > 0 ==> hi == spans[frames[m - 2].node1].0) && (m - 1 == 0 ==> hi == n)) by {
        reveal(frame_ok);
    }
    assert(spans.contains_key(at)) by {
        reveal(record_ok);
    }
    assert forall|i: int| 0 <= i < frames2.len() implies #[trigger] frame_ok(
        after,
        spans,
        frames2,
        pos + 1,
        n,
        i,
    ) by {
        assert(frame_ok(heap, spans, frames, pos, n, i));
        lemma_frames_apart(heap, spans, frames, pos, items, root, i);
        let f = frames[i];
        assert(f.node1 != at);
        assert(top.node2 != Some(f.node1));
        assert(after[f.node1] == heap[f.node1]);
        if f.node2 is Some {
            let up = f.node2->0;
            assert(up != at);
            assert(top.node2 != Some(up));
            assert(after[up] == heap[up]);
        }
        lemma_leaf_keeps_frame(heap, spans, frames, pos, n, after, i);
    }
    assert forall|x: NodeAddr| #[trigger]
        heap.contains_key(x) && heap[x].left is Node implies after.contains_key(x) && after[x].left
        == heap[x].left && after[x].right == heap[x].right by {
        if top.node2 != Some(x) {
            assert(after[x] == heap[x]);
        }
    }
    assert forall|x: NodeAddr| #[trigger] after.contains_key(x) implies record_ok(
        after,
        spans,
        frames2,
        pos + 1,
        items,
        x,
    ) && child_ok(after, root, x) by {
        assert(heap.contains_key(x));
        lemma_child_kept(heap, after, root, x);
        if x == at {
            reveal(record_ok);
        } else if top.node2 == Some(x) {
            assert(record_ok(heap, spans, frames, pos, items, x));
            reveal(record_ok);
        } else {
            assert(after[x] == heap[x]);
            lemma_leaf_keeps_record(heap, spans, frames, pos, items, after, x);
        }
    }
}

/// The tree that stands at `at` when the build is over, read off the records.
pub open spec fn grown<K, V>(heap: Map<NodeAddr, TreeNode<K, V>>, at: NodeAddr, len: nat) -> Shape<
    K,
    V,
>
    decreases len,
{
    if len <= 1 || !(heap[at].left is Node) {
        Shape::Leaf { at, key: heap[at].key->0, val: *heap[at].left->Val_0 }
    } else {
        Shape::Fork {
            at,
            key: heap[at].key->0,
            left: Box::new(grown(heap, heap[at].left->Node_0, len / 2)),
            right: Box::new(grown(heap, heap[at].right->0, (len - len / 2) as nat)),
        }
    }
}

/// A tree that is halved at every fork is as low as a tree of its leaves can be: its
/// height is one more than the least `c` with `2^c` no less than the number of leaves.
pub proof fn lemma_halved_height<K: Ord + Clone, V>(tree: Shape<K, V>)
    requires
        tree.halved(),
    ensures
        tree.height() == ceil_log2(tree.leaves()) + 1,
    decreases tree,
{
    match tree {
        Shape::Leaf { .. } => {},
        Shape::Fork { left, right, .. } => {
            lemma_halved_height(*left);
            lemma_halved_height(*right);
            left.lemma_size();
            right.lemma_size();
            lemma_ceil_log2_rises(left.leaves(), right.leaves());
            assert(right.leaves() == tree.leaves() - tree.leaves() / 2);
        },
    }
}

/// More leaves never need fewer levels.
pub proof fn lemma_ceil_log2_rises(a: nat, b: nat)
    requires
        a <= b,
    ensures
        ceil_log2(a) <= ceil_log2(b),
    decreases b,
{
    if a > 1 {
        lemma_ceil_log2_rises((a - a / 2) as nat, (b - b / 2) as nat);
    }
}

/// What a record is when the stack is empty: a leaf with its item, or a fork with its
/// key settled.
proof fn lemma_done_record<K, V>(
    heap: Map<NodeAddr, TreeNode<K, V>>,
    spans: Map<NodeAddr, (int, int)>,
    items: Seq<(K, V)>,
    root: NodeAddr,
    at: NodeAddr,
)
    requires
        building(heap, spans, Seq::<TreeBuilder>::empty(), items.len() as int, items, root),
        heap.contains_key(at),
    ensures
        ({
            let lo = spans[at].0;
            let hi = spans[at].1;
            let node = heap[at];
            &&& 0 <= lo < hi <= items.len()
            &&& node.left is Val || node.left is Node
            &&& node.left is Val ==> {
                &&& hi == lo + 1
                &&& node.right is None
                &&& node.key == Some(items[lo].0)
                &&& *node.left->Val_0 == items[lo].1
            }
            &&& node.left is Node ==> {
                &&& hi - lo >= 2
                &&& node.right is Some
                &&& heap.contains_key(node.left->Node_0)
                &&& heap.contains_key(node.right->0)
                &&& spans[node.left->Node_0] == (lo, mid(lo, hi))
                &&& spans[node.right->0] == (mid(lo, hi), hi)
                &&& node.key == Some(items[mid(lo, hi)].0)
            }
        }),
{
    reveal(record_ok);
    assert(record_ok(heap, spans, Seq::<TreeBuilder>::empty(), items.len() as int, items, at));
}

/// Two ordered trees that hold two stretches of an ascending sequence, one after the
/// other, are routed by the first key of the second stretch.
proof fn lemma_halves_routed<K: Ord + Clone, V>(
    left: Shape<K, V>,
    right: Shape<K, V>,
    items: Seq<(K, V)>,
    lo: int,
    half: int,
    hi: int,
)
    requires
        total_order::<K>(),
        ascending(items),
        0 <= lo < half < hi <= items.len(),
        left.ordered(),
        right.ordered(),
        left.entries() =~= items.subrange(lo, half),
        right.entries() =~= items.subrange(half, hi),
    ensures
        forall|k: K| #[trigger] left.as_map().contains_key(k) ==> lt(k, items[half].0),
        forall|k: K| #[trigger] right.as_map().contains_key(k) ==> !lt(k, items[half].0),
{
    lemma_order::<K>();
    left.lemma_entries();
    right.lemma_entries();
    let key = items[half].0;
    assert forall|k: K| #[trigger] left.as_map().contains_key(k) implies lt(k, key) by {
        let i = choose|i: int| 0 <= i < left.entries().len() && #[trigger] left.entries()[i].0 == k;
        assert(left.entries()[i] == items[lo + i]);
        assert(lt(items[lo + i].0, items[half].0));
    }
    assert forall|k: K| #[trigger] right.as_map().contains_key(k) implies !lt(k, key) by {
        let i = choose|i: int|
            0 <= i < right.entries().len() && #[trigger] right.entries()[i].0 == k;
        assert(right.entries()[i] == items[half + i]);
        if i > 0 {
            assert(lt(items[half].0, items[half + i].0));
        }
    }
}

/// When the stack is empty, the records under `at` are an ordered tree that holds the
/// items of its stretch, one leaf each, and is no higher than halving allows.
pub proof fn lemma_grown<K: Ord + Clone, V>(
    heap: Map<NodeAddr, TreeNode<K, V>>,
    spans: Map<NodeAddr, (int, int)>,
    items: Seq<(K, V)>,
    root: NodeAddr,
    at: NodeAddr,
)
    requires
        total_order::<K>(),
        ascending(items),
        building(heap, spans, Seq::<TreeBuilder>::empty(), items.len() as int, items, root),
        heap.contains_key(at),
    ensures
        ({
            let lo = spans[at].0;
            let hi = spans[at].1;
            let tree = grown(heap, at, (hi - lo) as nat);
            &&& 0 <= lo < hi <= items.len()
            &&& tree.at() == at
            &&& tree.held_by(heap)
            &&& tree.distinct()
            &&& tree.ordered()
            &&& tree.entries() =~= items.subrange(lo, hi)
            &&& tree.leaves() == hi - lo
            &&& tree.halved()
            &&& forall|x: NodeAddr| #[trigger]
                tree.addrs().contains(x) ==> {
                    &&& heap.contains_key(x)
                    &&& lo <= spans[x].0 < spans[x].1 <= hi
                    &&& x != at ==> spans[x].1 - spans[x].0 < hi - lo
                }
        }),
    decreases spans[at].1 - spans[at].0,
{
    let lo = spans[at].0;
    let hi = spans[at].1;
    let len = (hi - lo) as nat;
    let tree = grown(heap, at, len);
    lemma_done_record(heap, spans, items, root, at);
    if heap[at].left is Val {
        assert(tree.entries() =~= items.subrange(lo, hi));
    } else {
        let l = heap[at].left->Node_0;
        let r = heap[at].right->0;
        let half = mid(lo, hi);
        lemma_grown(heap, spans, items, root, l);
        lemma_grown(heap, spans, items, root, r);
        let left = grown(heap, l, (half - lo) as nat);
        let right = grown(heap, r, (hi - half) as nat);
        assert(len / 2 == half - lo);
        assert(len - len / 2 == hi - half);
        assert(tree == Shape::Fork {
            at,
            key: heap[at].key->0,
            left: Box::new(left),
            right: Box::new(right),
        });
        assert(tree.entries() =~= items.subrange(lo, hi));
        lemma_halves_routed(left, right, items, lo, half, hi);
        assert(left.addrs().disjoint(right.addrs())) by {
            assert forall|x: NodeAddr|
                !(left.addrs().contains(x) && right.addrs().contains(x)) by {}
        }
        assert forall|x: NodeAddr| #[trigger] tree.addrs().contains(x) implies {
            &&& heap.contains_key(x)
            &&& lo <= spans[x].0 < spans[x].1 <= hi
            &&& x != at ==> spans[x].1 - spans[x].0 < hi - lo
        } by {
            if x != at {
                assert(left.addrs().contains(x) || right.addrs().contains(x));
            }
        }
    }
}

/// A child of a record of a held tree is a record of that tree.
proof fn lemma_children_in<K, V>(
    tree: Shape<K, V>,
    heap: Map<NodeAddr, TreeNode<K, V>>,
    up: NodeAddr,
)
    requires
        tree.held_by(heap),
        tree.addrs().contains(up),
        heap[up].left is Node,
        heap[up].right is Some,
    ensures
        tree.addrs().contains(heap[up].left->Node_0),
        tree.addrs().contains(heap[up].right->0),
    decreases tree,
{
    match tree {
        Shape::Leaf { .. } => {},
        Shape::Fork { at, left, right, .. } => {
            left.lemma_addrs();
            right.lemma_addrs();
            if up != at {
                if left.addrs().contains(up) {
                    lemma_children_in(*left, heap, up);
                } else {
                    lemma_children_in(*right, heap, up);
                }
            }
        },
    }
}

/// When the stack is empty, every record is a record of the tree under the root.
proof fn lemma_reached<K: Ord + Clone, V>(
    heap: Map<NodeAddr, TreeNode<K, V>>,
    spans: Map<NodeAddr, (int, int)>,
    items: Seq<(K, V)>,
    root: NodeAddr,
    at: NodeAddr,
)
    requires
        total_order::<K>(),
        ascending(items),
        building(heap, spans, Seq::<TreeBuilder>::empty(), items.len() as int, items, root),
        heap.contains_key(at),
    ensures
        grown(heap, root, items.len()).addrs().contains(at),
    decreases items.len() - (spans[at].1 - spans[at].0),
{
    let tree = grown(heap, root, items.len());
    lemma_grown(heap, spans, items, root, root);
    tree.lemma_addrs();
    if at != root {
        assert(child_ok(heap, root, at));
        reveal(child_ok);
        let up = choose|up: NodeAddr|
            {
                &&& #[trigger] heap.contains_key(up)
                &&& heap[up].left is Node
                &&& heap[up].right is Some
                &&& (heap[up].left->Node_0 == at || heap[up].right->0 == at)
            };
        lemma_done_record(heap, spans, items, root, up);
        lemma_done_record(heap, spans, items, root, at);
        lemma_reached(heap, spans, items, root, up);
        lemma_children_in(tree, heap, up);
    }
}

/// The outcome of a build: when the stack is empty, the records are an ordered tree
/// under the root that holds the items in their order, one leaf each, with no record
/// left over, and is no higher than halving allows.
pub proof fn lemma_build_done<K: Ord + Clone, V>(
    heap: Map<NodeAddr, TreeNode<K, V>>,
    spans: Map<NodeAddr, (int, int)>,
    items: Seq<(K, V)>,
    root: NodeAddr,
) -> (tree: Shape<K, V>)
    requires
        total_order::<K>(),
        ascending(items),
        building(heap, spans, Seq::<TreeBuilder>::empty(), items.len() as int, items, root),
    ensures
        tree.at() == root,
        tree.held_by(heap),
        tree.distinct(),
        tree.ordered(),
        tree.entries() == items,
        tree.leaves() == items.len(),
        tree.halved(),
        tree.addrs() =~= heap.dom(),
{
    let tree = grown(heap, root, items.len());
    lemma_grown(heap, spans, items, root, root);
    assert(items.subrange(0, items.len() as int) =~= items);
    assert forall|x: NodeAddr| heap.contains_key(x) implies tree.addrs().contains(x) by {
        lemma_reached(heap, spans, items, root, x);
    }
    tree
}

/// The stack is no deeper than the number of items not yet placed.
pub proof fn lemma_frames_few<K, V>(
    heap: Map<NodeAddr, TreeNode<K, V>>,
    spans: Map<NodeAddr, (int, int)>,
    frames: Seq<TreeBuilder>,
    pos: int,
    items: Seq<(K, V)>,
    root: NodeAddr,
)
    requires
        building(heap, spans, frames, pos, items, root),
    ensures
        frames.len() <= items.len() - pos,
{
    if frames.len() > 0 {
        lemma_frames_apart(heap, spans, frames, pos, items, root, 0);
    }
}

/// `⌊log₂ n⌋`: the number of times `n` can be halved before it is 1.
pub fn floor_log2(n: usize) -> (r: usize)
    requires
        n > 0,
    ensures
        pow2(r as nat) <= n < 2 * pow2(r as nat),
        r < usize::BITS,
{
    let mut r: usize = 0;
    let mut m: usize = n;
    proof {
        vstd::arithmetic::power2::lemma2_to64();
    }
    while m > 1
        invariant
            m >= 1,
            m * pow2(r as nat) <= n < (m + 1) * pow2(r as nat),
            r < usize::BITS,
        decreases m,
    {
        proof {
            let p = pow2(r as nat) as int;
            vstd::arithmetic::power2::lemma_pow2_pos(r as nat);
            vstd::arithmetic::power2::lemma_pow2_unfold((r + 1) as nat);
            let h = (m / 2) as int;
            assert(h * (2 * p) <= n) by (nonlinear_arith)
                requires
                    m * p <= n,
                    2 * h <= m,
                    p > 0,
            ;
            assert(n < (h + 1) * (2 * p)) by (nonlinear_arith)
                requires
                    n < (m + 1) * p,
                    m + 1 <= 2 * h + 2,
                    p > 0,
            ;
            if r + 1 >= usize::BITS {
                vstd::arithmetic::power2::lemma2_to64();
                if r + 1 > 64 {
                    vstd::arithmetic::power2::lemma_pow2_strictly_increases(64, (r + 1) as nat);
                }
                assert(pow2((r + 1) as nat) >= pow2(usize::BITS as nat));
                assert(h * (2 * p) >= 2 * p) by (nonlinear_arith)
                    requires
                        h >= 1,
                        p > 0,
                ;
                assert(false);
            }
        }
        m = m / 2;
        r = r + 1;
    }
    r
}

/// The values of `items` in the opposite order.
pub fn reversed<T>(items: Vec<T>) -> (r: Vec<T>)
    ensures
        r@ == items@.reverse(),
{
    let mut items = items;
    let ghost all = items@;
    let mut out: Vec<T> = Vec::with_capacity(items.len());
    while items.len() > 0
        invariant
            items@.len() + out@.len() == all.len(),
            items@ == all.subrange(0, items@.len() as int),
            forall|i: int| 0 <= i < out@.len() ==> out@[i] == all[all.len() - 1 - i],
        decreases items@.len(),
    {
        let last = items.pop().unwrap();
        out.push(last);
        proof {
            assert(items@ =~= all.subrange(0, items@.len() as int));
        }
    }
    proof {
        assert(out@ =~= all.reverse());
    }
    out
}

} // verus!
