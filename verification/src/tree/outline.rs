//! The model of a syntax tree: the walk that the parser hands over, and the
//! outline that a walk describes.
//!
//! A walk is a sequence of events: an `Enter` for each node and token in
//! document order, and a `Leave` where its subtree ends. The outline of a
//! walk lists the elements that it enters, each with its depth. In an
//! outline the subtree of an element is the run of deeper elements that
//! follows it, so the outline says all that the walk says.

use crate::kinds::SyntaxKind;
use crate::text::TextRange;
use vstd::prelude::*;

verus! {


/// A node or a token: its kind, the bytes it spans, and which of the two
/// it is.
#[derive(Clone, Copy, Debug, PartialEq, Eq)]
pub struct Element {
    pub kind: SyntaxKind,
    pub range: TextRange,
    pub token: bool,
}

/// One step of a walk over a tree in document order.
#[derive(Clone, Copy, Debug, PartialEq, Eq)]
pub enum WalkEvent {
    /// The walk reaches an element, before any of its children.
    Enter(Element),
    /// The walk is done with the element that was entered last and not yet
    /// left.
    Leave,
}

/// An element together with the number of its ancestors.
pub struct Entry {
    pub element: Element,
    pub depth: int,
}

/// The number of elements that are entered and not yet left after `ev`.
pub open spec fn depth_after(ev: Seq<WalkEvent>) -> int
    decreases ev.len(),
{
    if ev.len() == 0 {
        0
    } else {
        depth_after(ev.drop_last()) + match ev.last() {
            WalkEvent::Enter(_) => 1int,
            WalkEvent::Leave => -1int,
        }
    }
}

/// The elements that `ev` enters, in order, each with the depth at which it
/// is entered.
pub open spec fn entered(ev: Seq<WalkEvent>) -> Seq<Entry>
    decreases ev.len(),
{
    if ev.len() == 0 {
        Seq::empty()
    } else {
        let before = entered(ev.drop_last());
        match ev.last() {
            WalkEvent::Enter(e) => before.push(
                Entry { element: e, depth: depth_after(ev.drop_last()) },
            ),
            WalkEvent::Leave => before,
        }
    }
}

/// Whether `ev` walks exactly one tree: it is not empty, it leaves every
/// element that it enters, and only its last event leaves the root.
pub open spec fn balanced(ev: Seq<WalkEvent>) -> bool {
    &&& ev.len() > 0
    &&& depth_after(ev) == 0
    &&& forall|p: int| 0 < p < ev.len() ==> depth_after(#[trigger] ev.take(p)) > 0
}

/// The first index from `j` on whose entry is not deeper than `d`, or the
/// length of `o` if there is none.
pub open spec fn first_not_deeper(o: Seq<Entry>, d: int, j: int) -> int
    decreases o.len() - j,
{
    if 0 <= j < o.len() && o[j].depth > d {
        first_not_deeper(o, d, j + 1)
    } else {
        j
    }
}

/// The index just past the descendants of entry `i`: the entries that
/// follow `i` and are deeper than it, up to the first that is not.
pub open spec fn subtree_end(o: Seq<Entry>, i: int) -> int {
    first_not_deeper(o, o[i].depth, i + 1)
}

/// How the ranges of two entries `i < j` stand to each other: a descendant
/// lies within its ancestor, and what follows a subtree starts where the
/// subtree has ended, or later.
pub open spec fn ranges_agree(o: Seq<Entry>, i: int, j: int) -> bool {
    if j < subtree_end(o, i) {
        o[i].element.range.encloses(o[j].element.range)
    } else {
        o[i].element.range.hi() <= o[j].element.range.lo()
    }
}

/// Entry `i` lies below the root and at most one level below the entry
/// before it.
pub open spec fn one_step(o: Seq<Entry>, i: int) -> bool {
    1 <= o[i].depth <= o[i - 1].depth + 1
}

/// Whether `o` lists the elements of a tree over a text of `len` bytes in
/// document order: one root at depth zero that spans the text, each later
/// entry at most one level below its predecessor, tokens without children,
/// and ranges that nest as the tree does.
pub open spec fn valid_outline(o: Seq<Entry>, len: int) -> bool {
    &&& o.len() > 0
    &&& o[0].depth == 0
    &&& o[0].element.range.lo() == 0
    &&& o[0].element.range.hi() == len
    &&& forall|i: int| 0 < i < o.len() ==> #[trigger] one_step(o, i)
    &&& forall|i: int| 0 <= i < o.len() ==> (#[trigger] o[i]).element.range.wf()
    &&& forall|i: int|
        0 <= i < o.len() && (#[trigger] o[i]).element.token ==> subtree_end(o, i) == i + 1
    &&& forall|i: int, j: int| 0 <= i < j < o.len() ==> #[trigger] ranges_agree(o, i, j)
}

/// The mathematical content of a [`SyntaxTree`]: the text and the elements
/// in document order with their depths.
pub struct TreeView {
    pub text: Seq<u8>,
    pub outline: Seq<Entry>,
}

/// The tree that the walk `ev` over `text` describes, if it describes one.
pub open spec fn tree_of(ev: Seq<WalkEvent>, text: Seq<u8>) -> Option<TreeView> {
    if balanced(ev) && valid_outline(entered(ev), text.len() as int) {
        Some(TreeView { text, outline: entered(ev) })
    } else {
        None
    }
}

/// What [`first_not_deeper`] finds: everything before it is deeper, and it
/// is not.
pub proof fn lemma_first_not_deeper(o: Seq<Entry>, d: int, j: int)
    requires
        0 <= j <= o.len(),
    ensures
        j <= first_not_deeper(o, d, j) <= o.len(),
        forall|k: int| j <= k < first_not_deeper(o, d, j) ==> (#[trigger] o[k]).depth > d,
        first_not_deeper(o, d, j) < o.len() ==> o[first_not_deeper(o, d, j)].depth <= d,
    decreases o.len() - j,
{
    if j < o.len() && o[j].depth > d {
        lemma_first_not_deeper(o, d, j + 1);
    }
}

/// An index with the two properties of [`lemma_first_not_deeper`] is the one
/// that [`first_not_deeper`] finds.
pub proof fn lemma_first_not_deeper_is(o: Seq<Entry>, d: int, j: int, e: int)
    requires
        0 <= j <= e <= o.len(),
        forall|k: int| j <= k < e ==> (#[trigger] o[k]).depth > d,
        e < o.len() ==> o[e].depth <= d,
    ensures
        first_not_deeper(o, d, j) == e,
    decreases e - j,
{
    if j < e {
        lemma_first_not_deeper_is(o, d, j + 1, e);
    }
}

/// The entries of a prefix of a walk are a prefix of the walk's entries.
pub proof fn lemma_entered_prefix(ev: Seq<WalkEvent>, p: int)
    requires
        0 <= p <= ev.len(),
    ensures
        entered(ev.take(p)).len() <= entered(ev).len(),
        entered(ev).take(entered(ev.take(p)).len() as int) == entered(ev.take(p)),
    decreases ev.len() - p,
{
    if p == ev.len() {
        assert(ev.take(p) == ev);
        assert(entered(ev).take(entered(ev).len() as int) == entered(ev));
    } else {
        let shorter = ev.drop_last();
        assert(shorter.take(p) == ev.take(p));
        lemma_entered_prefix(shorter, p);
        let n = entered(ev.take(p)).len() as int;
        assert(entered(ev).take(n) == entered(shorter).take(n));
    }
}

/// The entry that an `Enter` event adds.
pub proof fn lemma_entered_next(ev: Seq<WalkEvent>, p: int)
    requires
        0 <= p < ev.len(),
    ensures
        depth_after(ev.take(p + 1)) == depth_after(ev.take(p)) + match ev[p] {
            WalkEvent::Enter(_) => 1int,
            WalkEvent::Leave => -1int,
        },
        entered(ev.take(p + 1)) == match ev[p] {
            WalkEvent::Enter(e) => entered(ev.take(p)).push(
                Entry { element: e, depth: depth_after(ev.take(p)) },
            ),
            WalkEvent::Leave => entered(ev.take(p)),
        },
{
    assert(ev.take(p + 1).drop_last() == ev.take(p));
    assert(ev.take(p + 1).last() == ev[p]);
}

impl TreeView {
    /// The number of elements.
    pub open spec fn len(self) -> int {
        self.outline.len() as int
    }

    /// Whether the outline is that of a tree over the text.
    pub open spec fn valid(self) -> bool {
        valid_outline(self.outline, self.text.len() as int)
    }

    pub open spec fn element(self, i: int) -> Element {
        self.outline[i].element
    }

    pub open spec fn kind(self, i: int) -> SyntaxKind {
        self.outline[i].element.kind
    }

    pub open spec fn range(self, i: int) -> TextRange {
        self.outline[i].element.range
    }

    pub open spec fn is_token(self, i: int) -> bool {
        self.outline[i].element.token
    }

    /// The index just past the descendants of `i`.
    pub open spec fn end(self, i: int) -> int {
        subtree_end(self.outline, i)
    }

    /// The children of `i` from index `j` on, where `j` is a child of `i` or
    /// the end of its subtree: `j`, then the element that follows the
    /// subtree of `j`, and so on.
    pub open spec fn children_from(self, i: int, j: int) -> Seq<int>
        decreases self.len() - j,
    {
        if 0 <= i < j && j < self.end(i) && j < self.end(j) <= self.len() {
            seq![j] + self.children_from(i, self.end(j))
        } else {
            Seq::empty()
        }
    }

    /// The children of `i`, tokens included, in document order.
    pub open spec fn children(self, i: int) -> Seq<int> {
        self.children_from(i, i + 1)
    }

    /// The bytes that element `i` spans.
    pub open spec fn text_of(self, i: int) -> Seq<u8> {
        self.text.subrange(self.range(i).lo(), self.range(i).hi())
    }
}

/// In a valid outline a subtree ends after its root and within the outline,
/// and every element lies within the text.
pub proof fn lemma_subtree(t: TreeView, i: int)
    requires
        t.valid(),
        0 <= i < t.len(),
    ensures
        i < t.end(i) <= t.len(),
        t.end(0) == t.len(),
        t.range(i).wf(),
        t.range(i).hi() <= t.text.len(),
        forall|k: int| i < k < t.end(i) ==> (#[trigger] t.outline[k]).depth > t.outline[i].depth,
{
    let o = t.outline;
    lemma_first_not_deeper(o, o[i].depth, i + 1);
    assert forall|k: int| 1 <= k < o.len() implies (#[trigger] o[k]).depth > 0 by {
        assert(one_step(o, k));
    }
    lemma_first_not_deeper_is(o, 0, 1, o.len() as int);
    if i > 0 {
        assert(ranges_agree(o, 0, i));
    }
}

/// The subtree of a descendant ends within the subtree of its ancestor.
pub proof fn lemma_nested(t: TreeView, i: int, j: int)
    requires
        t.valid(),
        0 <= i < j < t.end(i),
    ensures
        j < t.end(j) <= t.end(i) <= t.len(),
{
    let o = t.outline;
    lemma_first_not_deeper(o, o[i].depth, i + 1);
    lemma_first_not_deeper(o, o[j].depth, j + 1);
}

/// What the children of `i` from `j` on are: indices within the subtree of
/// `i`, from `j` on, in rising order, each where the subtree of the one
/// before it ends.
pub proof fn lemma_children_from(t: TreeView, i: int, j: int)
    requires
        t.valid(),
        0 <= i < j <= t.end(i),
        i < t.len(),
    ensures
        forall|k: int|
            0 <= k < t.children_from(i, j).len() ==> j <= (#[trigger] t.children_from(i, j)[k])
                < t.end(i),
        forall|k: int, l: int|
            0 <= k < l < t.children_from(i, j).len() ==> t.end(
                #[trigger] t.children_from(i, j)[k],
            ) <= #[trigger] t.children_from(i, j)[l],
    decreases t.len() - j,
{
    lemma_subtree(t, i);
    if j < t.end(i) {
        lemma_nested(t, i, j);
        let next = t.end(j);
        lemma_children_from(t, i, next);
        let rest = t.children_from(i, next);
        let all = t.children_from(i, j);
        assert(all == seq![j] + rest);
        assert forall|k: int| 0 <= k < all.len() implies j <= (#[trigger] all[k]) < t.end(i) by {
            if k > 0 {
                assert(all[k] == rest[k - 1]);
            }
        }
        assert forall|k: int, l: int| 0 <= k < l < all.len() implies t.end(#[trigger] all[k])
            <= #[trigger] all[l] by {
            assert(all[l] == rest[l - 1]);
            if k > 0 {
                assert(all[k] == rest[k - 1]);
            }
        }
    }
}

impl TreeView {
    /// The last of the elements `c` that is a node, not a token.
    pub open spec fn last_node(self, c: Seq<int>) -> Option<int>
        decreases c.len(),
    {
        if c.len() == 0 {
            None
        } else if !self.is_token(c.last()) {
            Some(c.last())
        } else {
            self.last_node(c.drop_last())
        }
    }

    /// Whether one of the elements `c` is a node of kind `kind`.
    pub open spec fn has_node_of_kind(self, c: Seq<int>, kind: SyntaxKind) -> bool {
        exists|k: int| 0 <= k < c.len() && #[trigger] self.node_of_kind(c[k], kind)
    }

    /// Whether element `j` is a node of kind `kind`.
    pub open spec fn node_of_kind(self, j: int, kind: SyntaxKind) -> bool {
        !self.is_token(j) && self.kind(j) == kind
    }

    /// The last of the elements `c` up to `b` that has the kind `kind`.
    pub open spec fn last_of_kind_before(self, c: Seq<int>, b: int, kind: SyntaxKind) -> Option<int>
        decreases c.len(),
    {
        if c.len() == 0 {
            None
        } else if c.last() <= b && self.kind(c.last()) == kind {
            Some(c.last())
        } else {
            self.last_of_kind_before(c.drop_last(), b, kind)
        }
    }

    /// The first element from `from` up to `to` that has the kind `kind`.
    pub open spec fn first_of_kind(self, from: int, to: int, kind: SyntaxKind) -> Option<int>
        decreases to - from,
    {
        if from >= to {
            None
        } else if self.kind(from) == kind {
            Some(from)
        } else {
            self.first_of_kind(from + 1, to, kind)
        }
    }
}

/// The last node among `c` is one of `c`.
pub proof fn lemma_last_node(t: TreeView, c: Seq<int>)
    ensures
        t.last_node(c) matches Some(b) ==> c.contains(b) && !t.is_token(b),
    decreases c.len(),
{
    if c.len() > 0 {
        if t.is_token(c.last()) {
            lemma_last_node(t, c.drop_last());
            if t.last_node(c) is Some {
                let b = t.last_node(c).unwrap();
                let k = choose|k: int| 0 <= k < c.drop_last().len() && c.drop_last()[k] == b;
                assert(c[k] == b);
            }
        } else {
            assert(c[c.len() - 1] == c.last());
        }
    }
}

/// The element that [`TreeView::last_of_kind_before`] finds is one of `c`,
/// not after `b`, and of the kind asked for.
pub proof fn lemma_last_of_kind_before(t: TreeView, c: Seq<int>, b: int, kind: SyntaxKind)
    ensures
        t.last_of_kind_before(c, b, kind) matches Some(x) ==> c.contains(x) && x <= b && t.kind(x)
            == kind,
    decreases c.len(),
{
    if c.len() > 0 {
        if c.last() <= b && t.kind(c.last()) == kind {
            assert(c[c.len() - 1] == c.last());
        } else {
            lemma_last_of_kind_before(t, c.drop_last(), b, kind);
            if t.last_of_kind_before(c, b, kind) is Some {
                let x = t.last_of_kind_before(c, b, kind).unwrap();
                let k = choose|k: int| 0 <= k < c.drop_last().len() && c.drop_last()[k] == x;
                assert(c[k] == x);
            }
        }
    }
}

/// The element that [`TreeView::first_of_kind`] finds lies in the span
/// searched and has the kind asked for.
pub proof fn lemma_first_of_kind(t: TreeView, from: int, to: int, kind: SyntaxKind)
    ensures
        t.first_of_kind(from, to, kind) matches Some(x) ==> from <= x < to && t.kind(x) == kind,
    decreases to - from,
{
    if from < to && t.kind(from) != kind {
        lemma_first_of_kind(t, from + 1, to, kind);
    }
}

/// How two children `a < b` of `i` lie: within `i`, and `a` wholly before
/// `b`.
pub proof fn lemma_siblings(t: TreeView, i: int, a: int, b: int)
    requires
        t.valid(),
        0 <= i < t.len(),
        t.children(i).contains(a),
        t.children(i).contains(b),
        a <= b,
    ensures
        i < a <= b < t.end(i) <= t.len(),
        t.range(i).encloses(t.range(a)),
        t.range(i).encloses(t.range(b)),
        a < b ==> t.end(a) <= b && t.range(a).hi() <= t.range(b).lo(),
{
    lemma_subtree(t, i);
    lemma_children_from(t, i, i + 1);
    let c = t.children(i);
    let k = choose|k: int| 0 <= k < c.len() && c[k] == a;
    let l = choose|l: int| 0 <= l < c.len() && c[l] == b;
    assert(i < c[k] < t.end(i));
    assert(i < c[l] < t.end(i));
    assert(ranges_agree(t.outline, i, a));
    assert(ranges_agree(t.outline, i, b));
    if a < b {
        lemma_subtree(t, a);
        lemma_subtree(t, b);
        if l < k {
            assert(t.end(c[l]) <= c[k]);
        }
        assert(k < l);
        assert(t.end(c[k]) <= c[l]);
        assert(ranges_agree(t.outline, a, b));
    }
}

/// A descendant lies within its ancestor.
pub proof fn lemma_descendant(t: TreeView, i: int, j: int)
    requires
        t.valid(),
        0 <= i <= j < t.end(i),
        i < t.len(),
    ensures
        t.range(i).encloses(t.range(j)),
        t.range(j).wf(),
{
    lemma_subtree(t, i);
    lemma_subtree(t, j);
    if i < j {
        assert(ranges_agree(t.outline, i, j));
    }
}

} // verus!
