//! How a tree is laid out from a walk, and why what is laid out is the
//! tree of the walk.
//!
//! The nodes are pushed as they are entered. A stack holds the nodes that
//! are entered and not yet left; a node that is left gets the index at
//! which its subtree ends. [`building`] is what holds between two events;
//! the lemmas show that each event keeps it, and that a walk which fails
//! one of the checks is not the walk of a tree.

use crate::tree::outline::{
    balanced, depth_after, entered, lemma_entered_next, lemma_entered_prefix,
    lemma_first_not_deeper, lemma_first_not_deeper_is, one_step, ranges_agree, subtree_end,
    valid_outline, Element, Entry, WalkEvent,
};
use vstd::prelude::*;

verus! {

/// A node as the tree stores it: the entry, and the index at which its
/// subtree ends. While the tree is built, zero stands for "not yet left".
#[derive(Clone, Copy, Debug)]
pub(super) struct Node {
    pub(super) element: Element,
    pub(super) depth: usize,
    pub(super) end: usize,
}

/// The outline that the nodes give.
pub(super) open spec fn outline_of(nodes: Seq<Node>) -> Seq<Entry> {
    Seq::new(nodes.len(), |i: int| Entry { element: nodes[i].element, depth: nodes[i].depth as int })
}

/// Where node `i` starts.
pub(super) open spec fn lo(nodes: Seq<Node>, i: int) -> int {
    nodes[i].element.range.lo()
}

/// Where node `i` ends.
pub(super) open spec fn hi(nodes: Seq<Node>, i: int) -> int {
    nodes[i].element.range.hi()
}

/// How the ranges of `i < j` stand while `i` may still be open.
pub(super) open spec fn pair_ok(nodes: Seq<Node>, i: int, j: int) -> bool {
    if nodes[i].end == 0 || j < nodes[i].end {
        nodes[i].element.range.encloses(nodes[j].element.range)
    } else {
        hi(nodes, i) <= lo(nodes, j)
    }
}

/// What holds of the nodes laid out so far: `open` lists the nodes that are
/// entered and not yet left, the root first; `mark` is where the node that
/// was left last, `last`, ends.
pub(super) open spec fn building(nodes: Seq<Node>, open: Seq<usize>, mark: int, last: int) -> bool {
    let n = nodes.len() as int;
    &&& forall|l: int|
        0 <= l < open.len() ==> {
            let s = (#[trigger] open[l]) as int;
            s < n && nodes[s].end == 0 && nodes[s].depth == l && mark <= hi(nodes, s)
        }
    &&& forall|l: int, k: int|
        0 <= l < open.len() && open[l] < k < n ==> #[trigger] above(nodes, k, l)
    &&& forall|i: int|
        0 <= i < n && (#[trigger] nodes[i]).end == 0 ==> nodes[i].depth < open.len()
            && open[nodes[i].depth as int] == i
    &&& forall|i: int|
        0 <= i < n && (#[trigger] nodes[i]).end != 0 ==> i < nodes[i].end <= n && hi(nodes, i)
            <= mark && (nodes[i].end == n ==> open.len() <= nodes[i].depth)
    &&& forall|i: int| 0 <= i < n ==> #[trigger] end_ok(nodes, i)
    &&& forall|i: int, k: int|
        0 <= i < k < n && nodes[i].end != 0 && k < nodes[i].end ==> #[trigger] above(
            nodes,
            k,
            nodes[i].depth as int,
        )
    &&& forall|i: int| 0 < i < n ==> #[trigger] node_step(nodes, i)
    &&& n > 0 ==> nodes[0].depth == 0 && open.len() <= nodes[n - 1].depth + 1
    &&& forall|i: int| 0 <= i < n ==> (#[trigger] nodes[i]).element.range.wf()
    &&& forall|i: int|
        0 <= i < n && (#[trigger] nodes[i]).element.token ==> (nodes[i].end == 0 ==> i == n - 1)
            && (nodes[i].end != 0 ==> nodes[i].end == i + 1)
    &&& forall|i: int, j: int| 0 <= i < j < n ==> #[trigger] pair_ok(nodes, i, j)
    &&& mark == 0 || (0 <= last < n && nodes[last].end != 0 && mark == hi(nodes, last))
    &&& 0 <= mark
}

/// The node at which the subtree of a closed node `i` ends is not deeper
/// than `i`.
pub(super) open spec fn end_ok(nodes: Seq<Node>, i: int) -> bool {
    nodes[i].end != 0 && nodes[i].end < nodes.len() ==> nodes[nodes[i].end as int].depth
        <= nodes[i].depth
}

/// Node `i` lies below the root, and at most one level below the node
/// before it.
pub(super) open spec fn node_step(nodes: Seq<Node>, i: int) -> bool {
    1 <= nodes[i].depth <= nodes[i - 1].depth + 1
}

/// Node `k` lies deeper than level `l`.
pub(super) open spec fn above(nodes: Seq<Node>, k: int, l: int) -> bool {
    nodes[k].depth > l
}

/// Entering an element keeps [`building`], where the element lies within
/// the node on top of the stack, which is no token, and starts at `mark`
/// or later.
pub(super) proof fn lemma_enter(nodes: Seq<Node>, open: Seq<usize>, mark: int, last: int, e: Element)
    requires
        building(nodes, open, mark, last),
        e.range.wf(),
        nodes.len() < usize::MAX,
        open.len() < usize::MAX,
        open.len() == 0 ==> nodes.len() == 0,
        open.len() > 0 ==> !nodes[open.last() as int].element.token
            && nodes[open.last() as int].element.range.encloses(e.range)
            && mark <= e.range.lo(),
    ensures
        building(
            nodes.push(Node { element: e, depth: open.len() as usize, end: 0 }),
            open.push(nodes.len() as usize),
            mark,
            last,
        ),
{
    let n = nodes.len() as int;
    let d = open.len() as int;
    let nodes2 = nodes.push(Node { element: e, depth: open.len() as usize, end: 0 });
    let open2 = open.push(nodes.len() as usize);
    assert forall|l: int, k: int| 0 <= l < open2.len() && open2[l] < k < n + 1 implies #[trigger] above(
        nodes2,
        k,
        l,
    ) by {
        if l < d && k < n {
            assert(above(nodes, k, l));
        }
    }
    assert forall|i: int, k: int|
        0 <= i < k < n + 1 && nodes2[i].end != 0 && k < nodes2[i].end implies #[trigger] above(
        nodes2,
        k,
        nodes2[i].depth as int,
    ) by {
        assert(above(nodes, k, nodes[i].depth as int));
    }
    assert forall|i: int|
        0 <= i < n + 1 && (#[trigger] nodes2[i]).element.token implies (nodes2[i].end == 0 ==> i
        == n) && (nodes2[i].end != 0 ==> nodes2[i].end == i + 1) by {
        if i < n && nodes[i].end == 0 {
            // an open token would be the parent of the new node
            let top = open.last() as int;
            assert(open[d - 1] == top);
            if top < i {
                assert(above(nodes, i, d - 1));
            }
        }
    }
    assert forall|i: int, j: int| 0 <= i < j < n + 1 implies #[trigger] pair_ok(nodes2, i, j) by {
        if j < n {
            assert(pair_ok(nodes, i, j));
        } else if nodes[i].end == 0 {
            let top = open.last() as int;
            assert(open[d - 1] == top);
            let l = nodes[i].depth as int;
            assert(open[l] == i);
            if i != top {
                if top < i {
                    assert(above(nodes, i, d - 1));
                }
                assert(pair_ok(nodes, i, top));
            }
        }
    }
    assert forall|i: int|
        0 <= i < n + 1 && (#[trigger] nodes2[i]).end != 0 implies i < nodes2[i].end <= n + 1 && hi(
        nodes2,
        i,
    ) <= mark && (nodes2[i].end == n + 1 ==> open2.len() <= nodes2[i].depth) by {
        assert(nodes[i].end != 0);
    }
    assert forall|i: int| 0 <= i < n + 1 implies #[trigger] end_ok(nodes2, i) by {
        if i < n {
            assert(end_ok(nodes, i));
        }
    }
    assert forall|l: int| 0 <= l < open2.len() implies {
        let s = (#[trigger] open2[l]) as int;
        s < n + 1 && nodes2[s].end == 0 && nodes2[s].depth == l && mark <= hi(nodes2, s)
    } by {
        if l < d {
            assert(open[l] < n);
        }
    }
    assert forall|i: int| 0 <= i < n + 1 && (#[trigger] nodes2[i]).end == 0 implies nodes2[i].depth
        < open2.len() && open2[nodes2[i].depth as int] == i by {
        if i < n {
            assert(nodes[i].end == 0);
        }
    }
    assert forall|i: int| 0 < i < n + 1 implies #[trigger] node_step(nodes2, i) by {
        if i < n {
            assert(node_step(nodes, i));
        }
    }
}

/// Leaving the node on top of the stack keeps [`building`].
pub(super) proof fn lemma_leave(nodes: Seq<Node>, open: Seq<usize>, mark: int, last: int)
    requires
        building(nodes, open, mark, last),
        open.len() > 0,
        nodes.len() <= usize::MAX,
    ensures
        ({
            let x = open.last() as int;
            &&& 0 <= x < nodes.len()
            &&& building(
                nodes.update(
                    x,
                    Node { element: nodes[x].element, depth: nodes[x].depth, end: nodes.len() as usize },
                ),
                open.drop_last(),
                hi(nodes, x),
                x,
            )
        }),
{
    let n = nodes.len() as int;
    let d = open.len() as int;
    let x = open.last() as int;
    assert(open[d - 1] == x);
    let nodes2 = nodes.update(
        x,
        Node { element: nodes[x].element, depth: nodes[x].depth, end: nodes.len() as usize },
    );
    let open2 = open.drop_last();
    let mark2 = hi(nodes, x);
    assert forall|l: int| 0 <= l < open2.len() implies {
        let s = (#[trigger] open2[l]) as int;
        s < n && nodes2[s].end == 0 && nodes2[s].depth == l && mark2 <= hi(nodes2, s)
    } by {
        let s = open[l] as int;
        assert(s != x);
        if x < s {
            assert(above(nodes, s, d - 1));
        }
        assert(pair_ok(nodes, s, x));
    }
    assert forall|l: int, k: int| 0 <= l < open2.len() && open2[l] < k < n implies #[trigger] above(
        nodes2,
        k,
        l,
    ) by {
        assert(above(nodes, k, l));
    }
    assert forall|i: int| 0 <= i < n && (#[trigger] nodes2[i]).end == 0 implies nodes2[i].depth
        < open2.len() && open2[nodes2[i].depth as int] == i by {
        assert(nodes[i].end == 0);
    }
    assert forall|i: int| 0 <= i < n && (#[trigger] nodes2[i]).end != 0 implies i < nodes2[i].end
        <= n && hi(nodes2, i) <= mark2 && (nodes2[i].end == n ==> open2.len() <= nodes2[i].depth) by {
        if i != x {
            assert(nodes[i].end != 0);
            if x < i {
                assert(pair_ok(nodes, x, i));
            }
        }
    }
    assert forall|i: int| 0 <= i < n implies #[trigger] end_ok(nodes2, i) by {
        assert(end_ok(nodes, i));
    }
    assert forall|i: int, k: int|
        0 <= i < k < n && nodes2[i].end != 0 && k < nodes2[i].end implies #[trigger] above(
        nodes2,
        k,
        nodes2[i].depth as int,
    ) by {
        if i == x {
            assert(above(nodes, k, d - 1));
        } else {
            assert(above(nodes, k, nodes[i].depth as int));
        }
    }
    assert forall|i: int| 0 < i < n implies #[trigger] node_step(nodes2, i) by {
        assert(node_step(nodes, i));
    }
    assert forall|i: int| 0 <= i < n && (#[trigger] nodes2[i]).element.token implies (nodes2[i].end
        == 0 ==> i == n - 1) && (nodes2[i].end != 0 ==> nodes2[i].end == i + 1) by {
        assert(nodes[i].element.token);
    }
    assert forall|i: int, j: int| 0 <= i < j < n implies #[trigger] pair_ok(nodes2, i, j) by {
        assert(pair_ok(nodes, i, j));
    }
}

/// When every node is left, the nodes are the outline of a tree, each with
/// the end of its subtree.
pub(super) proof fn lemma_finish(nodes: Seq<Node>, mark: int, last: int, len: int)
    requires
        building(nodes, Seq::empty(), mark, last),
        nodes.len() > 0,
        lo(nodes, 0) == 0,
        hi(nodes, 0) == len,
    ensures
        valid_outline(outline_of(nodes), len),
        forall|i: int|
            0 <= i < nodes.len() ==> (#[trigger] nodes[i]).end == subtree_end(outline_of(nodes), i),
{
    let o = outline_of(nodes);
    let n = nodes.len() as int;
    assert forall|i: int| 0 <= i < n implies (#[trigger] nodes[i]).end == subtree_end(o, i) by {
        let e = nodes[i].end as int;
        let d = nodes[i].depth as int;
        assert(e != 0);
        assert forall|k: int| i + 1 <= k < e implies (#[trigger] o[k]).depth > d by {
            assert(above(nodes, k, d));
        }
        assert(end_ok(nodes, i));
        lemma_first_not_deeper_is(o, d, i + 1, e);
    }
    assert forall|i: int| 0 < i < n implies #[trigger] one_step(o, i) by {
        assert(node_step(nodes, i));
    }
    assert forall|i: int| 0 <= i < n implies (#[trigger] o[i]).element.range.wf() by {
        assert(nodes[i].element.range.wf());
    }
    assert forall|i: int| 0 <= i < n && (#[trigger] o[i]).element.token implies subtree_end(o, i)
        == i + 1 by {
        assert(nodes[i].element.token);
    }
    assert forall|i: int, j: int| 0 <= i < j < n implies #[trigger] ranges_agree(o, i, j) by {
        assert(pair_ok(nodes, i, j));
        assert(nodes[i].end == subtree_end(o, i));
    }
}

/// A walk in which the depth falls to zero, or below, before the end is not
/// balanced.
pub(super) proof fn lemma_reject_depth(ev: Seq<WalkEvent>, p: int)
    requires
        0 < p <= ev.len(),
        p < ev.len() ==> depth_after(ev.take(p)) <= 0,
        p == ev.len() ==> depth_after(ev.take(p)) != 0,
    ensures
        !balanced(ev),
{
    if p == ev.len() {
        assert(ev.take(p) == ev);
    }
}

/// What the nodes laid out so far say of the entries of the whole walk, when
/// the next event enters `e`.
pub(super) proof fn lemma_next_in_whole(ev: Seq<WalkEvent>, p: int, nodes: Seq<Node>, e: Element)
    requires
        0 <= p < ev.len(),
        ev[p] == WalkEvent::Enter(e),
        outline_of(nodes) == entered(ev.take(p)),
    ensures
        nodes.len() < entered(ev).len(),
        forall|k: int| 0 <= k < nodes.len() ==> (#[trigger] entered(ev)[k]) == outline_of(nodes)[k],
        entered(ev)[nodes.len() as int] == (Entry {
            element: e,
            depth: depth_after(ev.take(p)),
        }),
{
    lemma_entered_next(ev, p);
    lemma_entered_prefix(ev, p + 1);
    let o = entered(ev);
    let pre = entered(ev.take(p + 1));
    assert(pre == outline_of(nodes).push(Entry { element: e, depth: depth_after(ev.take(p)) }));
    assert(o.take(pre.len() as int) == pre);
    assert forall|k: int| 0 <= k < nodes.len() implies (#[trigger] o[k]) == outline_of(nodes)[k] by {
        assert(o.take(pre.len() as int)[k] == pre[k]);
    }
    assert(o.take(pre.len() as int)[nodes.len() as int] == pre[nodes.len() as int]);
}

/// A walk that enters a child of a token, or an element that does not lie
/// within its parent, is not that of a tree.
pub(super) proof fn lemma_reject_parent(
    ev: Seq<WalkEvent>,
    len: int,
    p: int,
    nodes: Seq<Node>,
    open: Seq<usize>,
    mark: int,
    last: int,
    e: Element,
)
    requires
        0 <= p < ev.len(),
        ev[p] == WalkEvent::Enter(e),
        outline_of(nodes) == entered(ev.take(p)),
        open.len() == depth_after(ev.take(p)),
        building(nodes, open, mark, last),
        open.len() > 0,
        nodes[open.last() as int].element.token || !nodes[open.last() as int].element.range.encloses(
            e.range,
        ),
    ensures
        !valid_outline(entered(ev), len),
{
    lemma_next_in_whole(ev, p, nodes, e);
    let o = entered(ev);
    let n = nodes.len() as int;
    let top = open.last() as int;
    let d = open.len() as int;
    assert(open[d - 1] == top);
    assert(o[top] == outline_of(nodes)[top]);
    lemma_first_not_deeper(o, d - 1, top + 1);
    let end = subtree_end(o, top);
    if end <= n {
        if end < n {
            assert(above(nodes, end, d - 1));
            assert(o[end] == outline_of(nodes)[end]);
        }
        assert(false);
    }
    if valid_outline(o, len) {
        assert(ranges_agree(o, top, n));
        assert(o[top].element.token ==> subtree_end(o, top) == top + 1);
    }
}

/// A walk that enters an element before the end of one that it has left is
/// not that of a tree.
pub(super) proof fn lemma_reject_order(
    ev: Seq<WalkEvent>,
    len: int,
    p: int,
    nodes: Seq<Node>,
    open: Seq<usize>,
    mark: int,
    last: int,
    e: Element,
)
    requires
        0 <= p < ev.len(),
        ev[p] == WalkEvent::Enter(e),
        outline_of(nodes) == entered(ev.take(p)),
        open.len() == depth_after(ev.take(p)),
        building(nodes, open, mark, last),
        mark > e.range.lo(),
        e.range.wf(),
    ensures
        !valid_outline(entered(ev), len),
{
    lemma_next_in_whole(ev, p, nodes, e);
    let o = entered(ev);
    let n = nodes.len() as int;
    let x = last;
    let end = nodes[x].end as int;
    let d = nodes[x].depth as int;
    assert(o[x] == outline_of(nodes)[x]);
    assert forall|k: int| x + 1 <= k < end implies (#[trigger] o[k]).depth > d by {
        assert(above(nodes, k, d));
        assert(o[k] == outline_of(nodes)[k]);
    }
    assert(end_ok(nodes, x));
    if end < n {
        assert(o[end] == outline_of(nodes)[end]);
    }
    lemma_first_not_deeper_is(o, d, x + 1, end);
    if valid_outline(o, len) {
        assert(ranges_agree(o, x, n));
    }
}

/// A walk whose first element does not span the text is not that of a tree
/// over the text.
pub(super) proof fn lemma_reject_root(ev: Seq<WalkEvent>, len: int, e: Element)
    requires
        0 < ev.len(),
        ev[0] == WalkEvent::Enter(e),
        e.range.lo() != 0 || e.range.hi() != len,
    ensures
        !valid_outline(entered(ev), len),
{
    assert(ev.take(0) =~= Seq::<WalkEvent>::empty());
    assert(outline_of(Seq::<Node>::empty()) =~= entered(ev.take(0)));
    lemma_next_in_whole(ev, 0, Seq::<Node>::empty(), e);
}

} // verus!
