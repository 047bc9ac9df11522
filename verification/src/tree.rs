//! The syntax tree of one source text.
//!
//! The parser hands a tree over as a walk. [`SyntaxTree::from_walk`] checks
//! that the walk is that of a tree whose ranges nest, and lays the elements
//! out in document order, each with its depth and with the index at which
//! its subtree ends. The rules find their way through the tree by these.

mod layout;
pub mod outline;

pub use outline::{tree_of, Element, Entry, TreeView, WalkEvent};

use crate::kinds::SyntaxKind;
use layout::{
    building, hi, lemma_enter, lemma_finish, lemma_leave, lemma_reject_depth, lemma_reject_order,
    lemma_reject_parent, lemma_reject_root, lo, outline_of, Node,
};
use outline::{
    depth_after, entered, lemma_children_from, lemma_entered_next, lemma_nested, lemma_subtree,
    subtree_end, valid_outline,
};
use vstd::prelude::*;

verus! {

/// The syntax tree of a text: the text, and the elements of the tree in
/// document order.
#[derive(Clone, Debug)]
pub struct SyntaxTree {
    text: Vec<u8>,
    nodes: Vec<Node>,
}

impl View for SyntaxTree {
    type V = TreeView;

    closed spec fn view(&self) -> TreeView {
        TreeView { text: self.text@, outline: outline_of(self.nodes@) }
    }
}

impl SyntaxTree {
    /// The stored subtree ends are those that the outline gives.
    pub closed spec fn ends_stored(&self) -> bool {
        forall|i: int|
            0 <= i < self.nodes@.len() ==> (#[trigger] self.nodes@[i]).end == subtree_end(
                outline_of(self.nodes@),
                i,
            )
    }

    /// The tree is one: its outline is valid for its text.
    pub open spec fn wf(&self) -> bool {
        &&& valid_outline(self@.outline, self@.text.len() as int)
        &&& self.ends_stored()
    }

    /// Lays out the tree that the walk `events` over `text` describes.
    /// Gives `None` where the walk is not that of a tree over the text.
    pub fn from_walk(text: Vec<u8>, events: &Vec<WalkEvent>) -> (r: Option<SyntaxTree>)
        ensures
            match r {
                Some(t) => t.wf() && tree_of(events@, text@) == Some(t@),
                None => tree_of(events@, text@) is None,
            },
    {
        let m = events.len();
        let mut nodes: Vec<Node> = Vec::new();
        let mut open: Vec<usize> = Vec::new();
        let mut mark: u32 = 0;
        let ghost mut last: int = 0;
        let mut p: usize = 0;
        proof {
            assert(events@.take(0) =~= Seq::<WalkEvent>::empty());
            assert(outline_of(nodes@) =~= entered(events@.take(0)));
        }
        while p < m
            invariant
                m == events@.len(),
                p <= m,
                open@.len() <= nodes@.len() <= p,
                p > 0 ==> nodes@.len() > 0,
                building(nodes@, open@, mark as int, last),
                outline_of(nodes@) == entered(events@.take(p as int)),
                open@.len() == depth_after(events@.take(p as int)),
                nodes@.len() > 0 ==> lo(nodes@, 0) == 0 && hi(nodes@, 0) == text@.len(),
                forall|q: int| 0 < q < p ==> depth_after(#[trigger] events@.take(q)) > 0,
            decreases m - p,
        {
            if p > 0 && open.len() == 0 {
                proof {
                    lemma_reject_depth(events@, p as int);
                }
                return None;
            }
            proof {
                lemma_entered_next(events@, p as int);
            }
            match events[p] {
                WalkEvent::Enter(e) => {
                    let start = e.range.start();
                    let end = e.range.end();
                    if open.len() == 0 {
                        if start != 0 || end as usize != text.len() {
                            proof {
                                lemma_reject_root(events@, text@.len() as int, e);
                            }
                            return None;
                        }
                    } else {
                        let parent = nodes[open[open.len() - 1]].element;
                        if parent.token || !parent.range.contains_range(e.range) {
                            proof {
                                lemma_reject_parent(
                                    events@,
                                    text@.len() as int,
                                    p as int,
                                    nodes@,
                                    open@,
                                    mark as int,
                                    last,
                                    e,
                                );
                            }
                            return None;
                        }
                        if mark > start {
                            proof {
                                lemma_reject_order(
                                    events@,
                                    text@.len() as int,
                                    p as int,
                                    nodes@,
                                    open@,
                                    mark as int,
                                    last,
                                    e,
                                );
                            }
                            return None;
                        }
                    }
                    proof {
                        lemma_enter(nodes@, open@, mark as int, last, e);
                        assert(outline_of(
                            nodes@.push(Node { element: e, depth: open@.len() as usize, end: 0 }),
                        ) =~= outline_of(nodes@).push(
                            Entry { element: e, depth: open@.len() as int },
                        ));
                    }
                    let at = nodes.len();
                    nodes.push(Node { element: e, depth: open.len(), end: 0 });
                    open.push(at);
                },
                WalkEvent::Leave => {
                    if open.len() == 0 {
                        proof {
                            lemma_reject_depth(events@, 1);
                        }
                        return None;
                    }
                    proof {
                        lemma_leave(nodes@, open@, mark as int, last);
                    }
                    let x = open[open.len() - 1];
                    open.pop();
                    let node = nodes[x];
                    proof {
                        last = x as int;
                        assert(outline_of(
                            nodes@.update(
                                x as int,
                                Node { element: node.element, depth: node.depth, end: nodes@.len() as usize },
                            ),
                        ) =~= outline_of(nodes@));
                    }
                    mark = node.element.range.end();
                    let end = nodes.len();
                    nodes.set(x, Node { element: node.element, depth: node.depth, end });
                },
            }
            p = p + 1;
        }
        if open.len() != 0 || nodes.len() == 0 {
            proof {
                if m > 0 {
                    lemma_reject_depth(events@, m as int);
                }
            }
            return None;
        }
        proof {
            assert(events@.take(m as int) == events@);
            lemma_finish(nodes@, mark as int, last, text@.len() as int);
        }
        Some(SyntaxTree { text, nodes })
    }
}

impl SyntaxTree {
    /// The number of elements; the root is element zero.
    pub fn len(&self) -> (r: usize)
        requires
            self.wf(),
        ensures
            r == self@.len(),
            r > 0,
    {
        self.nodes.len()
    }

    /// The text that the tree was read from.
    pub fn text(&self) -> (r: &Vec<u8>)
        ensures
            r@ == self@.text,
    {
        &self.text
    }

    /// Element `i`, counted in document order.
    pub fn element(&self, i: usize) -> (r: Element)
        requires
            self.wf(),
            i < self@.len(),
        ensures
            r == self@.element(i as int),
    {
        self.nodes[i].element
    }

    /// The number of ancestors of element `i`.
    pub fn depth(&self, i: usize) -> (r: usize)
        requires
            self.wf(),
            i < self@.len(),
        ensures
            r == self@.outline[i as int].depth,
    {
        self.nodes[i].depth
    }

    /// The index just past the descendants of element `i`.
    pub fn subtree_end(&self, i: usize) -> (r: usize)
        requires
            self.wf(),
            i < self@.len(),
        ensures
            r == self@.end(i as int),
            i < r <= self@.len(),
    {
        proof {
            lemma_subtree(self@, i as int);
        }
        self.nodes[i].end
    }

    /// The children of element `i`, tokens included, in document order.
    pub fn children(&self, i: usize) -> (r: Vec<usize>)
        requires
            self.wf(),
            i < self@.len(),
        ensures
            r@.len() == self@.children(i as int).len(),
            forall|k: int| 0 <= k < r@.len() ==> (#[trigger] r@[k]) == self@.children(i as int)[k],
            forall|k: int|
                0 <= k < r@.len() ==> i < (#[trigger] self@.children(i as int)[k]) < self@.len(),
    {
        proof {
            lemma_subtree(self@, i as int);
            lemma_children_from(self@, i as int, i + 1);
        }
        let end = self.subtree_end(i);
        let mut out: Vec<usize> = Vec::new();
        let mut j = i + 1;
        let ghost all = self@.children(i as int);
        while j < end
            invariant
                self.wf(),
                i < j,
                i < self@.len(),
                end == self@.end(i as int),
                end <= self@.len(),
                j <= end,
                all == self@.children(i as int),
                all.len() == out@.len() + self@.children_from(i as int, j as int).len(),
                forall|k: int| 0 <= k < out@.len() ==> (#[trigger] out@[k]) == all[k],
                forall|k: int|
                    0 <= k < self@.children_from(i as int, j as int).len() ==> all[out@.len() + k]
                        == #[trigger] self@.children_from(i as int, j as int)[k],
            decreases end - j,
        {
            let next = self.subtree_end(j);
            proof {
                lemma_nested(self@, i as int, j as int);
                let here = self@.children_from(i as int, j as int);
                let rest = self@.children_from(i as int, next as int);
                assert(here == seq![j as int] + rest);
                assert(here[0] == j);
                assert forall|k: int| 0 <= k < rest.len() implies all[out@.len() + 1 + k]
                    == #[trigger] rest[k] by {
                    assert(here[k + 1] == rest[k]);
                }
            }
            out.push(j);
            j = next;
        }
        out
    }

    /// The bytes that element `i` spans.
    pub fn text_of(&self, i: usize) -> (r: Vec<u8>)
        requires
            self.wf(),
            i < self@.len(),
        ensures
            r@ == self@.text_of(i as int),
    {
        proof {
            lemma_subtree(self@, i as int);
        }
        let range = self.nodes[i].element.range;
        let from = range.start() as usize;
        let to = range.end() as usize;
        let mut out: Vec<u8> = Vec::new();
        let mut k = from;
        while k < to
            invariant
                from <= k <= to <= self.text@.len(),
                out@ == self.text@.subrange(from as int, k as int),
            decreases to - k,
        {
            out.push(self.text[k]);
            proof {
                assert(self.text@.subrange(from as int, k + 1) == self.text@.subrange(
                    from as int,
                    k as int,
                ).push(self.text@[k as int]));
            }
            k = k + 1;
        }
        out
    }
}

impl SyntaxTree {
    /// The last child of `i` that is a node, not a token.
    pub fn last_child(&self, i: usize) -> (r: Option<usize>)
        requires
            self.wf(),
            i < self@.len(),
        ensures
            match r {
                Some(b) => self@.last_node(self@.children(i as int)) == Some(b as int) && i < b
                    < self@.len(),
                None => self@.last_node(self@.children(i as int)) is None,
            },
    {
        let children = self.children(i);
        let ghost c = self@.children(i as int);
        let mut k = children.len();
        proof {
            assert(c.take(k as int) == c);
        }
        while k > 0
            invariant
                self.wf(),
                c == self@.children(i as int),
                k <= children@.len() == c.len(),
                forall|l: int| 0 <= l < c.len() ==> (#[trigger] children@[l]) == c[l],
                forall|l: int| 0 <= l < c.len() ==> i < (#[trigger] c[l]) < self@.len(),
                self@.last_node(c) == self@.last_node(c.take(k as int)),
            decreases k,
        {
            k = k - 1;
            let b = children[k];
            proof {
                assert(c.take(k + 1).last() == c[k as int]);
                assert(c.take(k + 1).drop_last() == c.take(k as int));
            }
            if !self.nodes[b].element.token {
                return Some(b);
            }
        }
        None
    }

    /// Whether `i` has a child that is a node of kind `kind`.
    pub fn has_child_of_kind(&self, i: usize, kind: SyntaxKind) -> (r: bool)
        requires
            self.wf(),
            i < self@.len(),
        ensures
            r == self@.has_node_of_kind(self@.children(i as int), kind),
    {
        let children = self.children(i);
        let ghost c = self@.children(i as int);
        let mut k: usize = 0;
        while k < children.len()
            invariant
                self.wf(),
                c == self@.children(i as int),
                k <= children@.len() == c.len(),
                forall|l: int| 0 <= l < c.len() ==> (#[trigger] children@[l]) == c[l],
                forall|l: int| 0 <= l < c.len() ==> i < (#[trigger] c[l]) < self@.len(),
                forall|l: int| 0 <= l < k ==> !#[trigger] self@.node_of_kind(c[l], kind),
            decreases children@.len() - k,
        {
            let element = self.nodes[children[k]].element;
            if !element.token && element.kind == kind {
                proof {
                    assert(self@.node_of_kind(c[k as int], kind));
                }
                return true;
            }
            k = k + 1;
        }
        false
    }

    /// The last child of `i`, up to the child `b`, that has the kind `kind`.
    pub fn last_child_of_kind_before(&self, i: usize, b: usize, kind: SyntaxKind) -> (r: Option<
        usize,
    >)
        requires
            self.wf(),
            i < self@.len(),
        ensures
            match r {
                Some(x) => self@.last_of_kind_before(self@.children(i as int), b as int, kind)
                    == Some(x as int),
                None => self@.last_of_kind_before(self@.children(i as int), b as int, kind)
                    is None,
            },
    {
        let children = self.children(i);
        let ghost c = self@.children(i as int);
        let mut k = children.len();
        proof {
            assert(c.take(k as int) == c);
        }
        while k > 0
            invariant
                self.wf(),
                c == self@.children(i as int),
                k <= children@.len() == c.len(),
                forall|l: int| 0 <= l < c.len() ==> (#[trigger] children@[l]) == c[l],
                forall|l: int| 0 <= l < c.len() ==> i < (#[trigger] c[l]) < self@.len(),
                self@.last_of_kind_before(c, b as int, kind) == self@.last_of_kind_before(
                    c.take(k as int),
                    b as int,
                    kind,
                ),
            decreases k,
        {
            k = k - 1;
            let x = children[k];
            proof {
                assert(c.take(k + 1).last() == c[k as int]);
                assert(c.take(k + 1).drop_last() == c.take(k as int));
            }
            if x <= b && self.nodes[x].element.kind == kind {
                return Some(x);
            }
        }
        None
    }

    /// The first element from `from` up to `to` that has the kind `kind`.
    pub fn first_of_kind(&self, from: usize, to: usize, kind: SyntaxKind) -> (r: Option<usize>)
        requires
            self.wf(),
            from <= to <= self@.len(),
        ensures
            match r {
                Some(x) => self@.first_of_kind(from as int, to as int, kind) == Some(x as int),
                None => self@.first_of_kind(from as int, to as int, kind) is None,
            },
    {
        let mut k = from;
        while k < to
            invariant
                self.wf(),
                from <= k <= to <= self@.len(),
                self@.first_of_kind(from as int, to as int, kind) == self@.first_of_kind(
                    k as int,
                    to as int,
                    kind,
                ),
            decreases to - k,
        {
            if self.nodes[k].element.kind == kind {
                return Some(k);
            }
            k = k + 1;
        }
        None
    }
}

} // verus!
