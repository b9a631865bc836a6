//! Sequences of bindings, and what a traversal's worklist stands for.

use vstd::prelude::*;
use crate::allocator::NodeAddr;
use crate::order::{lemma_order, lt, total_order};
use crate::trees::shape::Shape;
use crate::trees::TreeNode;

verus! {

/// The keys of `s` rise strictly from each binding to the next.
pub open spec fn ascending<K: Ord, V>(s: Seq<(K, V)>) -> bool {
    forall|i: int, j: int| 0 <= i < j < s.len() ==> lt(#[trigger] s[i].0, #[trigger] s[j].0)
}

/// `start <= key < end`.
pub open spec fn in_range<K: Ord>(start: K, end: K, key: K) -> bool {
    !lt(key, start) && lt(key, end)
}

/// The test for a binding whose key is in `start..end`.
pub open spec fn keep<K: Ord, V>(start: K, end: K) -> spec_fn((K, V)) -> bool {
    |e: (K, V)| in_range(start, end, e.0)
}

/// The map that results from binding each key of `s` to its value, one after the
/// other.
pub open spec fn bindings<K, V>(s: Seq<(K, V)>) -> Map<K, V>
    decreases s.len(),
{
    if s.len() == 0 {
        Map::empty()
    } else {
        bindings(s.drop_last()).insert(s.last().0, s.last().1)
    }
}

/// Binding the keys of an ascending sequence binds each to its own value and binds
/// nothing else.
pub proof fn lemma_bindings<K: Ord + Clone, V>(s: Seq<(K, V)>)
    requires
        total_order::<K>(),
        ascending(s),
    ensures
        forall|i: int|
            0 <= i < s.len() ==> bindings(s).contains_key(#[trigger] s[i].0) && bindings(
                s,
            )[s[i].0] == s[i].1,
        forall|k: K| #[trigger]
            bindings(s).contains_key(k) ==> exists|i: int|
                0 <= i < s.len() && #[trigger] s[i].0 == k,
    decreases s.len(),
{
    lemma_order::<K>();
    if s.len() > 0 {
        let front = s.drop_last();
        lemma_bindings(front);
        assert forall|i: int| 0 <= i < s.len() implies bindings(s).contains_key(
            #[trigger] s[i].0,
        ) && bindings(s)[s[i].0] == s[i].1 by {
            if i < s.len() - 1 {
                assert(front[i] == s[i]);
                assert(lt(s[i].0, s[s.len() - 1].0));
            }
        }
        assert forall|k: K| #[trigger] bindings(s).contains_key(k) implies exists|i: int|
            0 <= i < s.len() && #[trigger] s[i].0 == k by {
            if k == s.last().0 {
                assert(s[s.len() - 1].0 == k);
            } else {
                assert(bindings(s) == bindings(front).insert(s.last().0, s.last().1));
                assert(bindings(front).contains_key(k));
                let i = choose|i: int| 0 <= i < front.len() && #[trigger] front[i].0 == k;
                assert(front[i] == s[i]);
            }
        }
    }
}

/// The test that every binding passes.
pub open spec fn keep_all<K, V>() -> spec_fn((K, V)) -> bool {
    |e: (K, V)| true
}

/// Keeping every binding keeps the sequence.
pub proof fn lemma_keep_all<K, V>(s: Seq<(K, V)>)
    ensures
        s.filter(keep_all()) == s,
    decreases s.len(),
{
    reveal(Seq::filter);
    if s.len() > 0 {
        lemma_keep_all(s.drop_last());
        assert(s.drop_last().push(s.last()) =~= s);
    } else {
        assert(s.filter(keep_all()) =~= s);
    }
}

/// The bindings of a worklist that is worked off from its end: those of the last tree
/// first.
pub open spec fn spread<K, V>(subs: Seq<Shape<K, V>>) -> Seq<(K, V)>
    decreases subs.len(),
{
    if subs.len() == 0 {
        Seq::empty()
    } else {
        subs.last().entries() + spread(subs.drop_last())
    }
}

/// The bindings of a worklist in the order of its trees: those of the last tree last.
pub open spec fn gather<K, V>(subs: Seq<Shape<K, V>>) -> Seq<(K, V)>
    decreases subs.len(),
{
    if subs.len() == 0 {
        Seq::empty()
    } else {
        gather(subs.drop_last()) + subs.last().entries()
    }
}

/// The number of records in the trees of a worklist.
pub open spec fn weight<K, V>(subs: Seq<Shape<K, V>>) -> nat
    decreases subs.len(),
{
    if subs.len() == 0 {
        0
    } else {
        subs.last().size() + weight(subs.drop_last())
    }
}

/// The addresses on a traversal's stack are the top records of the trees of a worklist,
/// each of them an ordered tree that the heap holds.
pub open spec fn tracks<K: Ord + Clone, V>(
    stack: Seq<NodeAddr>,
    subs: Seq<Shape<K, V>>,
    heap: Map<NodeAddr, TreeNode<K, V>>,
) -> bool {
    &&& stack.len() == subs.len()
    &&& forall|i: int|
        0 <= i < subs.len() ==> {
            &&& stack[i] == (#[trigger] subs[i]).at()
            &&& subs[i].held_by(heap)
            &&& subs[i].ordered()
        }
}

/// A tree has a binding, and a worklist has at least as many bindings as trees.
pub proof fn lemma_spread_len<K, V>(subs: Seq<Shape<K, V>>)
    ensures
        subs.len() <= spread(subs).len(),
        subs.len() <= gather(subs).len(),
        spread(subs).len() == gather(subs).len(),
    decreases subs.len(),
{
    if subs.len() > 0 {
        lemma_spread_len(subs.drop_last());
        subs.last().lemma_entries_len();
    }
}

/// What one more tree adds to a worklist.
pub proof fn lemma_worklist_push<K, V>(subs: Seq<Shape<K, V>>, top: Shape<K, V>)
    ensures
        spread(subs.push(top)) == top.entries() + spread(subs),
        gather(subs.push(top)) == gather(subs) + top.entries(),
        weight(subs.push(top)) == top.size() + weight(subs),
{
    assert(subs.push(top).drop_last() =~= subs);
}

/// Keeping some bindings of an ascending sequence leaves an ascending sequence.
pub proof fn lemma_filter_ascending<K: Ord + Clone, V>(
    s: Seq<(K, V)>,
    pred: spec_fn((K, V)) -> bool,
)
    requires
        total_order::<K>(),
        ascending(s),
    ensures
        ascending(s.filter(pred)),
        forall|i: int|
            0 <= i < s.filter(pred).len() ==> s.contains(#[trigger] s.filter(pred)[i]) && pred(
                s.filter(pred)[i],
            ),
        s.filter(pred).len() <= s.len(),
    decreases s.len(),
{
    reveal(Seq::filter);
    lemma_order::<K>();
    if s.len() > 0 {
        let front = s.drop_last();
        lemma_filter_ascending(front, pred);
        let kept = front.filter(pred);
        assert forall|i: int| 0 <= i < kept.len() implies s.contains(#[trigger] kept[i]) && lt(
            kept[i].0,
            s.last().0,
        ) by {
            let j = choose|j: int| 0 <= j < front.len() && front[j] == kept[i];
            assert(s[j] == kept[i]);
        }
        if pred(s.last()) {
            assert(s.filter(pred) =~= kept.push(s.last()));
            assert(s[s.len() - 1] == s.last());
        }
    }
}

impl<K, V> Shape<K, V> {
    /// There are as many bindings as leaves.
    pub proof fn lemma_entries_len(self)
        ensures
            self.entries().len() == self.leaves(),
            self.leaves() > 0,
            self.size() > 0,
        decreases self,
    {
        match self {
            Shape::Leaf { .. } => {},
            Shape::Fork { left, right, .. } => {
                left.lemma_entries_len();
                right.lemma_entries_len();
            },
        }
    }
}

impl<K: Ord + Clone, V> Shape<K, V> {
    /// The bindings of an ordered tree, read from left to right, rise strictly by key,
    /// and they are what the tree binds.
    pub proof fn lemma_entries(self)
        requires
            total_order::<K>(),
            self.ordered(),
        ensures
            ascending(self.entries()),
            forall|i: int|
                0 <= i < self.entries().len() ==> self.as_map().contains_key(
                    #[trigger] self.entries()[i].0,
                ) && self.as_map()[self.entries()[i].0] == self.entries()[i].1,
            forall|k: K| #[trigger]
                self.as_map().contains_key(k) ==> exists|i: int|
                    0 <= i < self.entries().len() && #[trigger] self.entries()[i].0 == k,
        decreases self,
    {
        lemma_order::<K>();
        match self {
            Shape::Leaf { key, val, .. } => {
                assert(self.entries()[0] == (key, val));
                assert forall|k: K| #[trigger] self.as_map().contains_key(k) implies exists|
                    i: int,
                |
                    0 <= i < self.entries().len() && #[trigger] self.entries()[i].0 == k by {
                    assert(self.entries()[0].0 == k);
                }
            },
            Shape::Fork { key, left, right, .. } => {
                left.lemma_entries();
                right.lemma_entries();
                let l = left.entries();
                let r = right.entries();
                let e = self.entries();
                assert forall|i: int| 0 <= i < e.len() implies self.as_map().contains_key(
                    #[trigger] e[i].0,
                ) && self.as_map()[e[i].0] == e[i].1 && (i < l.len() ==> lt(e[i].0, key)) && (i
                    >= l.len() ==> !lt(e[i].0, key)) by {
                    if i < l.len() {
                        assert(e[i] == l[i]);
                        assert(left.as_map().contains_key(l[i].0));
                        assert(!right.as_map().contains_key(l[i].0));
                    } else {
                        assert(e[i] == r[i - l.len()]);
                        assert(right.as_map().contains_key(r[i - l.len()].0));
                    }
                }
                assert forall|i: int, j: int| 0 <= i < j < e.len() implies lt(
                    #[trigger] e[i].0,
                    #[trigger] e[j].0,
                ) by {
                    if j < l.len() {
                        assert(e[i] == l[i] && e[j] == l[j]);
                    } else if i >= l.len() {
                        assert(e[i] == r[i - l.len()] && e[j] == r[j - l.len()]);
                    } else {
                        assert(lt(e[i].0, key));
                        assert(!lt(e[j].0, key));
                    }
                }
                assert forall|k: K| #[trigger] self.as_map().contains_key(k) implies exists|
                    i: int,
                |
                    0 <= i < e.len() && #[trigger] e[i].0 == k by {
                    if right.as_map().contains_key(k) {
                        let i = choose|i: int| 0 <= i < r.len() && #[trigger] r[i].0 == k;
                        assert(e[i + l.len()] == r[i]);
                    } else {
                        assert(left.as_map().contains_key(k));
                        let i = choose|i: int| 0 <= i < l.len() && #[trigger] l[i].0 == k;
                        assert(e[i] == l[i]);
                    }
                }
            },
        }
    }

    /// An ordered tree binds what its leaves, read from left to right, bind one after
    /// the other.
    pub proof fn lemma_entries_bind(self)
        requires
            total_order::<K>(),
            self.ordered(),
        ensures
            bindings(self.entries()) =~= self.as_map(),
    {
        self.lemma_entries();
        lemma_bindings(self.entries());
        let e = self.entries();
        assert forall|k: K| bindings(e).contains_key(k) implies self.as_map().contains_key(k)
            && self.as_map()[k] == bindings(e)[k] by {
            let i = choose|i: int| 0 <= i < e.len() && #[trigger] e[i].0 == k;
            assert(self.as_map().contains_key(e[i].0));
        }
        assert forall|k: K| self.as_map().contains_key(k) implies bindings(e).contains_key(k) by {
            let i = choose|i: int| 0 <= i < e.len() && #[trigger] e[i].0 == k;
            assert(bindings(e).contains_key(e[i].0));
        }
    }
}

/// What the forward stack of a traversal stands for: the trees of `subs`, whose kept
/// bindings are those of `all` from `pos` on.
pub open spec fn fwd_side<K: Ord + Clone, V>(
    stack: Seq<NodeAddr>,
    subs: Seq<Shape<K, V>>,
    heap: Map<NodeAddr, TreeNode<K, V>>,
    total: nat,
    pred: spec_fn((K, V)) -> bool,
    all: Seq<(K, V)>,
    pos: nat,
) -> bool {
    &&& tracks(stack, subs, heap)
    &&& spread(subs).len() <= total
    &&& pos <= all.len()
    &&& spread(subs).filter(pred) == all.subrange(pos as int, all.len() as int)
}

/// What the backward stack of a traversal stands for: the trees of `subs`, whose kept
/// bindings are those of `all` before `pos`.
pub open spec fn rev_side<K: Ord + Clone, V>(
    stack: Seq<NodeAddr>,
    subs: Seq<Shape<K, V>>,
    heap: Map<NodeAddr, TreeNode<K, V>>,
    total: nat,
    pred: spec_fn((K, V)) -> bool,
    all: Seq<(K, V)>,
    pos: nat,
) -> bool {
    &&& tracks(stack, subs, heap)
    &&& gather(subs).len() <= total
    &&& pos <= all.len()
    &&& gather(subs).filter(pred) == all.subrange(0, pos as int)
}

/// The trees of a worklist that holds a whole tree, or nothing where there is no tree.
pub open spec fn whole<K, V>(shape: Option<Shape<K, V>>) -> Seq<Shape<K, V>> {
    match shape {
        None => Seq::empty(),
        Some(shape) => seq![shape],
    }
}

/// A traversal starts with the whole tree on both stacks: the forward stack stands for
/// all kept bindings, and so does the backward stack.
pub proof fn lemma_sides_start<K: Ord + Clone, V>(
    stack: Seq<NodeAddr>,
    shape: Option<Shape<K, V>>,
    heap: Map<NodeAddr, TreeNode<K, V>>,
    pred: spec_fn((K, V)) -> bool,
)
    requires
        match shape {
            None => stack.len() == 0,
            Some(shape) => {
                &&& stack =~= seq![shape.at()]
                &&& shape.held_by(heap)
                &&& shape.ordered()
            },
        },
    ensures
        ({
            let entries = match shape {
                None => Seq::empty(),
                Some(shape) => shape.entries(),
            };
            let all = entries.filter(pred);
            &&& fwd_side(stack, whole(shape), heap, entries.len(), pred, all, 0)
            &&& rev_side(stack, whole(shape), heap, entries.len(), pred, all, all.len())
        }),
{
    let entries = match shape {
        None => Seq::empty(),
        Some(shape) => shape.entries(),
    };
    let all = entries.filter(pred);
    assert(all.subrange(0, all.len() as int) =~= all);
    match shape {
        None => {
            assert(spread(whole(shape)) =~= entries);
            assert(gather(whole(shape)) =~= entries);
        },
        Some(tree) => {
            lemma_worklist_push(Seq::<Shape<K, V>>::empty(), tree);
            assert(Seq::<Shape<K, V>>::empty().push(tree) =~= whole(shape));
            assert(spread(Seq::<Shape<K, V>>::empty()) =~= Seq::<(K, V)>::empty());
            assert(gather(Seq::<Shape<K, V>>::empty()) =~= Seq::<(K, V)>::empty());
            assert(spread(whole(shape)) =~= entries);
            assert(gather(whole(shape)) =~= entries);
        },
    }
}

/// A stack with no tree on it has no binding left.
pub proof fn lemma_side_empty<K: Ord + Clone, V>(
    pred: spec_fn((K, V)) -> bool,
    all: Seq<(K, V)>,
    pos: nat,
)
    ensures
        pos <= all.len() && spread(Seq::<Shape<K, V>>::empty()).filter(pred) == all.subrange(
            pos as int,
            all.len() as int,
        ) ==> pos == all.len(),
        pos <= all.len() && gather(Seq::<Shape<K, V>>::empty()).filter(pred) == all.subrange(
            0,
            pos as int,
        ) ==> pos == 0,
{
    reveal(Seq::filter);
    assert(Seq::<(K, V)>::empty().filter(pred).len() == 0);
}

/// Taking a leaf off the forward stack: a kept leaf is the binding at `pos`, and the
/// rest of the stack stands for what comes after it; a leaf that is not kept leaves
/// `pos` where it is.
pub proof fn lemma_fwd_leaf<K: Ord + Clone, V>(
    stack: Seq<NodeAddr>,
    subs: Seq<Shape<K, V>>,
    heap: Map<NodeAddr, TreeNode<K, V>>,
    total: nat,
    pred: spec_fn((K, V)) -> bool,
    all: Seq<(K, V)>,
    pos: nat,
)
    requires
        fwd_side(stack, subs, heap, total, pred, all, pos),
        subs.len() > 0,
        subs.last() is Leaf,
    ensures
        weight(subs.drop_last()) < weight(subs),
        pred((subs.last()->Leaf_key, subs.last()->Leaf_val)) ==> {
            &&& pos < all.len()
            &&& all[pos as int] == (subs.last()->Leaf_key, subs.last()->Leaf_val)
            &&& fwd_side(
                stack.drop_last(),
                subs.drop_last(),
                heap,
                total,
                pred,
                all,
                (pos + 1) as nat,
            )
        },
        !pred((subs.last()->Leaf_key, subs.last()->Leaf_val)) ==> fwd_side(
            stack.drop_last(),
            subs.drop_last(),
            heap,
            total,
            pred,
            all,
            pos,
        ),
{
    let top = subs.last();
    let rest = subs.drop_last();
    let entry = (top->Leaf_key, top->Leaf_val);
    assert(top.entries() =~= seq![entry]);
    Seq::filter_distributes_over_add(top.entries(), spread(rest), pred);
    reveal(Seq::filter);
    assert(top.entries().drop_last() =~= Seq::empty());
    assert(top.entries().drop_last().filter(pred) =~= Seq::empty());
    assert(top.entries().last() == entry);
    let tail = all.subrange(pos as int, all.len() as int);
    if pred(entry) {
        assert(top.entries().filter(pred) =~= seq![entry]);
        assert(tail == seq![entry] + spread(rest).filter(pred));
        assert(tail.len() > 0);
        assert(tail[0] == all[pos as int]);
        assert(tail.subrange(1, tail.len() as int) =~= spread(rest).filter(pred));
        assert(spread(rest).filter(pred) =~= all.subrange(pos as int + 1, all.len() as int));
    } else {
        assert(top.entries().filter(pred) =~= Seq::empty());
        assert(spread(rest).filter(pred) =~= spread(subs).filter(pred));
    }
}

/// Taking a leaf off the backward stack: a kept leaf is the binding just before `pos`,
/// and the rest of the stack stands for what comes before it; a leaf that is not kept
/// leaves `pos` where it is.
pub proof fn lemma_rev_leaf<K: Ord + Clone, V>(
    stack: Seq<NodeAddr>,
    subs: Seq<Shape<K, V>>,
    heap: Map<NodeAddr, TreeNode<K, V>>,
    total: nat,
    pred: spec_fn((K, V)) -> bool,
    all: Seq<(K, V)>,
    pos: nat,
)
    requires
        rev_side(stack, subs, heap, total, pred, all, pos),
        subs.len() > 0,
        subs.last() is Leaf,
    ensures
        weight(subs.drop_last()) < weight(subs),
        pred((subs.last()->Leaf_key, subs.last()->Leaf_val)) ==> {
            &&& pos > 0
            &&& all[pos - 1] == (subs.last()->Leaf_key, subs.last()->Leaf_val)
            &&& rev_side(
                stack.drop_last(),
                subs.drop_last(),
                heap,
                total,
                pred,
                all,
                (pos - 1) as nat,
            )
        },
        !pred((subs.last()->Leaf_key, subs.last()->Leaf_val)) ==> rev_side(
            stack.drop_last(),
            subs.drop_last(),
            heap,
            total,
            pred,
            all,
            pos,
        ),
{
    let top = subs.last();
    let rest = subs.drop_last();
    let entry = (top->Leaf_key, top->Leaf_val);
    assert(top.entries() =~= seq![entry]);
    Seq::filter_distributes_over_add(gather(rest), top.entries(), pred);
    reveal(Seq::filter);
    assert(top.entries().drop_last() =~= Seq::empty());
    assert(top.entries().drop_last().filter(pred) =~= Seq::empty());
    assert(top.entries().last() == entry);
    let head = all.subrange(0, pos as int);
    if pred(entry) {
        assert(top.entries().filter(pred) =~= seq![entry]);
        assert(head == gather(rest).filter(pred) + seq![entry]);
        assert(head.len() > 0);
        assert(head[head.len() - 1] == all[pos - 1]);
        assert(head[head.len() - 1] == entry);
        assert(head.subrange(0, head.len() - 1) =~= gather(rest).filter(pred));
        assert(gather(rest).filter(pred) =~= all.subrange(0, pos - 1));
    } else {
        assert(top.entries().filter(pred) =~= Seq::empty());
        assert(gather(rest).filter(pred) =~= gather(subs).filter(pred));
    }
}

/// No binding of a tree is kept where every key of the tree fails the test.
pub proof fn lemma_none_kept<K: Ord + Clone, V>(sub: Shape<K, V>, pred: spec_fn((K, V)) -> bool)
    requires
        total_order::<K>(),
        sub.ordered(),
        forall|k: K, v: V| sub.as_map().contains_key(k) ==> !#[trigger] pred((k, v)),
    ensures
        sub.entries().filter(pred) == Seq::<(K, V)>::empty(),
{
    sub.lemma_entries();
    assert forall|i: int| 0 <= i < sub.entries().len() implies !pred(
        #[trigger] sub.entries()[i],
    ) by {
        let e = sub.entries()[i];
        assert(sub.as_map().contains_key(sub.entries()[i].0));
        assert(!pred((e.0, e.1)));
    }
    sub.entries().lemma_all_neg_filter_empty(pred);
    assert(sub.entries().filter(pred) =~= Seq::<(K, V)>::empty());
}

/// Taking a fork off the forward stack and putting its subtrees on, the right one
/// first. A subtree none of whose keys is kept may be left out.
pub proof fn lemma_fwd_fork<K: Ord + Clone, V>(
    stack: Seq<NodeAddr>,
    subs: Seq<Shape<K, V>>,
    heap: Map<NodeAddr, TreeNode<K, V>>,
    total: nat,
    pred: spec_fn((K, V)) -> bool,
    all: Seq<(K, V)>,
    pos: nat,
)
    requires
        total_order::<K>(),
        fwd_side(stack, subs, heap, total, pred, all, pos),
        subs.len() > 0,
        subs.last() is Fork,
    ensures
        subs.len() + 1 <= total,
        ({
            let rest = subs.drop_last();
            let base = stack.drop_last();
            let left = *subs.last()->Fork_left;
            let right = *subs.last()->Fork_right;
            &&& weight(rest.push(right).push(left)) < weight(subs)
            &&& weight(rest.push(right)) < weight(subs)
            &&& weight(rest.push(left)) < weight(subs)
            &&& fwd_side(
                base.push(right.at()).push(left.at()),
                rest.push(right).push(left),
                heap,
                total,
                pred,
                all,
                pos,
            )
            &&& (forall|k: K, v: V| right.as_map().contains_key(k) ==> !#[trigger] pred((k, v)))
                ==> fwd_side(base.push(left.at()), rest.push(left), heap, total, pred, all, pos)
            &&& (forall|k: K, v: V| left.as_map().contains_key(k) ==> !#[trigger] pred((k, v)))
                ==> fwd_side(base.push(right.at()), rest.push(right), heap, total, pred, all, pos)
        }),
{
    let top = subs.last();
    let rest = subs.drop_last();
    let left = *top->Fork_left;
    let right = *top->Fork_right;
    left.lemma_entries_len();
    right.lemma_entries_len();
    lemma_spread_len(rest);
    lemma_worklist_push(rest, right);
    lemma_worklist_push(rest, left);
    lemma_worklist_push(rest.push(right), left);
    assert(spread(rest.push(right).push(left)) =~= spread(subs));
    Seq::filter_distributes_over_add(top.entries(), spread(rest), pred);
    Seq::filter_distributes_over_add(left.entries(), right.entries(), pred);
    Seq::filter_distributes_over_add(left.entries(), spread(rest), pred);
    Seq::filter_distributes_over_add(right.entries(), spread(rest), pred);
    if forall|k: K, v: V| right.as_map().contains_key(k) ==> !#[trigger] pred((k, v)) {
        lemma_none_kept(right, pred);
        assert(spread(rest.push(left)).filter(pred) =~= spread(subs).filter(pred));
    }
    if forall|k: K, v: V| left.as_map().contains_key(k) ==> !#[trigger] pred((k, v)) {
        lemma_none_kept(left, pred);
        assert(spread(rest.push(right)).filter(pred) =~= spread(subs).filter(pred));
    }
}

/// Taking a fork off the backward stack and putting its subtrees on, the left one
/// first. A subtree none of whose keys is kept may be left out.
pub proof fn lemma_rev_fork<K: Ord + Clone, V>(
    stack: Seq<NodeAddr>,
    subs: Seq<Shape<K, V>>,
    heap: Map<NodeAddr, TreeNode<K, V>>,
    total: nat,
    pred: spec_fn((K, V)) -> bool,
    all: Seq<(K, V)>,
    pos: nat,
)
    requires
        total_order::<K>(),
        rev_side(stack, subs, heap, total, pred, all, pos),
        subs.len() > 0,
        subs.last() is Fork,
    ensures
        subs.len() + 1 <= total,
        ({
            let rest = subs.drop_last();
            let base = stack.drop_last();
            let left = *subs.last()->Fork_left;
            let right = *subs.last()->Fork_right;
            &&& weight(rest.push(left).push(right)) < weight(subs)
            &&& weight(rest.push(right)) < weight(subs)
            &&& weight(rest.push(left)) < weight(subs)
            &&& rev_side(
                base.push(left.at()).push(right.at()),
                rest.push(left).push(right),
                heap,
                total,
                pred,
                all,
                pos,
            )
            &&& (forall|k: K, v: V| right.as_map().contains_key(k) ==> !#[trigger] pred((k, v)))
                ==> rev_side(base.push(left.at()), rest.push(left), heap, total, pred, all, pos)
            &&& (forall|k: K, v: V| left.as_map().contains_key(k) ==> !#[trigger] pred((k, v)))
                ==> rev_side(base.push(right.at()), rest.push(right), heap, total, pred, all, pos)
        }),
{
    let top = subs.last();
    let rest = subs.drop_last();
    let left = *top->Fork_left;
    let right = *top->Fork_right;
    left.lemma_entries_len();
    right.lemma_entries_len();
    lemma_spread_len(rest);
    lemma_spread_len(subs);
    lemma_worklist_push(rest, right);
    lemma_worklist_push(rest, left);
    lemma_worklist_push(rest.push(left), right);
    assert(gather(rest.push(left).push(right)) =~= gather(subs));
    Seq::filter_distributes_over_add(gather(rest), top.entries(), pred);
    Seq::filter_distributes_over_add(left.entries(), right.entries(), pred);
    Seq::filter_distributes_over_add(gather(rest), left.entries(), pred);
    Seq::filter_distributes_over_add(gather(rest), right.entries(), pred);
    if forall|k: K, v: V| right.as_map().contains_key(k) ==> !#[trigger] pred((k, v)) {
        lemma_none_kept(right, pred);
        assert(gather(rest.push(left)).filter(pred) =~= gather(subs).filter(pred));
    }
    if forall|k: K, v: V| left.as_map().contains_key(k) ==> !#[trigger] pred((k, v)) {
        lemma_none_kept(left, pred);
        assert(gather(rest.push(right)).filter(pred) =~= gather(subs).filter(pred));
    }
}

/// An end of a traversal.
pub enum End {
    Front,
    Back,
}

/// What one pull at an end of a traversal with the bindings `left` gives, and what is
/// left after it: nothing is given where nothing is left.
pub open spec fn pull<E>(left: Seq<E>, end: End) -> (Seq<E>, Option<E>) {
    if left.len() == 0 {
        (left, None)
    } else {
        match end {
            End::Front => (left.drop_first(), Some(left.first())),
            End::Back => (left.drop_last(), Some(left.last())),
        }
    }
}

/// What is left of `all` after a pull at each end of `ends` in turn.
pub open spec fn left_after<E>(all: Seq<E>, ends: Seq<End>) -> Seq<E>
    decreases ends.len(),
{
    if ends.len() == 0 {
        all
    } else {
        pull(left_after(all, ends.drop_last()), ends.last()).0
    }
}

/// What the pull number `i` of `ends` gives.
pub open spec fn given<E>(all: Seq<E>, ends: Seq<End>, i: int) -> Option<E> {
    pull(left_after(all, ends.take(i)), ends[i]).1
}

/// The places of `all` between which the bindings not yet given lie after the pulls of
/// `ends`: the number of pulls at the front, and the length less the number of pulls at
/// the back, as far as there were bindings left to give.
pub open spec fn window(len: int, ends: Seq<End>) -> (int, int)
    decreases ends.len(),
{
    if ends.len() == 0 {
        (0, len)
    } else {
        let (lo, hi) = window(len, ends.drop_last());
        if lo >= hi {
            (lo, hi)
        } else {
            match ends.last() {
                End::Front => (lo + 1, hi),
                End::Back => (lo, hi - 1),
            }
        }
    }
}

/// The bindings not yet given are a stretch of `all`, one shorter with each pull until
/// none is left.
pub proof fn lemma_window<E>(all: Seq<E>, ends: Seq<End>)
    ensures
        ({
            let (lo, hi) = window(all.len() as int, ends);
            &&& 0 <= lo <= hi <= all.len()
            &&& left_after(all, ends) =~= all.subrange(lo, hi)
            &&& hi - lo == if ends.len() <= all.len() {
                all.len() - ends.len()
            } else {
                0
            }
        }),
    decreases ends.len(),
{
    if ends.len() > 0 {
        lemma_window(all, ends.drop_last());
    } else {
        assert(all.subrange(0, all.len() as int) =~= all);
    }
}

/// Fused: a traversal gives a binding at each of its first pulls, as many as it has
/// bindings, and nothing at any pull after that, at whichever ends the pulls are made.
pub proof fn lemma_pulls_end<E>(all: Seq<E>, ends: Seq<End>, i: int)
    requires
        0 <= i < ends.len(),
    ensures
        given(all, ends, i) is Some <==> i < all.len(),
{
    lemma_window(all, ends.take(i));
}

/// Each binding once: two pulls of a traversal of bindings by rising key never give the
/// same key, at whichever ends they are made.
pub proof fn lemma_pulls_differ<K: Ord + Clone, V>(
    all: Seq<(K, V)>,
    ends: Seq<End>,
    i: int,
    j: int,
)
    requires
        total_order::<K>(),
        ascending(all),
        0 <= i < j < ends.len(),
        given(all, ends, i) is Some,
        given(all, ends, j) is Some,
    ensures
        (given(all, ends, i)->0).0 != (given(all, ends, j)->0).0,
{
    lemma_order::<K>();
    let n = all.len() as int;
    lemma_window(all, ends.take(i));
    lemma_window(all, ends.take(j));
    lemma_window(all, ends.take(i + 1));
    lemma_window_shrinks(n, ends.take(j), i + 1);
    assert(ends.take(j).take(i + 1) =~= ends.take(i + 1));
    assert(ends.take(i + 1).drop_last() =~= ends.take(i));
    assert(ends.take(i + 1).last() == ends[i]);
    let (lo, hi) = window(n, ends.take(i));
    let (lo1, hi1) = window(n, ends.take(i + 1));
    let (lo2, hi2) = window(n, ends.take(j));
    let at = match ends[i] {
        End::Front => lo,
        End::Back => hi - 1,
    };
    let then = match ends[j] {
        End::Front => lo2,
        End::Back => hi2 - 1,
    };
    assert(given(all, ends, i) == Some(all[at]));
    assert(given(all, ends, j) == Some(all[then]));
    assert(at != then);
    if at < then {
        assert(lt(all[at].0, all[then].0));
    } else {
        assert(lt(all[then].0, all[at].0));
    }
}

/// The stretch of bindings not yet given only shrinks.
pub proof fn lemma_window_shrinks(len: int, ends: Seq<End>, i: int)
    requires
        0 <= i <= ends.len(),
        0 <= len,
    ensures
        window(len, ends.take(i)).0 <= window(len, ends).0,
        window(len, ends).1 <= window(len, ends.take(i)).1,
        window(len, ends).0 <= window(len, ends).1 || window(len, ends) == window(
            len,
            ends.take(i),
        ),
    decreases ends.len(),
{
    if i == ends.len() {
        assert(ends.take(i) =~= ends);
    } else {
        assert(ends.drop_last().take(i) =~= ends.take(i));
        lemma_window_shrinks(len, ends.drop_last(), i);
    }
}

} // verus!
