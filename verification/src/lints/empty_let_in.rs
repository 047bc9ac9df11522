//! The rule against a `let in` that binds nothing.

use crate::kinds::{SyntaxKind, NODE_INHERIT, NODE_KEY_VALUE, NODE_LET_IN};
use crate::report::{Report, ReportView, Suggestion, SuggestionView};
use crate::tree::outline::{lemma_last_node, lemma_siblings, lemma_subtree};
use crate::tree::{SyntaxTree, TreeView};
use vstd::prelude::*;

verus! {

/// Finds `let in` expressions without a binding and without an inherited
/// name, and suggests the body in their place.
#[derive(Clone, Copy, Debug, PartialEq, Eq)]
pub struct EmptyLetIn;

impl EmptyLetIn {
    /// What the rule reports of element `node` of the tree `t`: nothing,
    /// unless the element is a `let in` node without bindings and inherits
    /// that has a body; then one span, the whole expression, with the
    /// suggestion to put the text of the body in its place.
    pub open spec fn finds(t: TreeView, node: int) -> Option<ReportView> {
        let children = t.children(node);
        if t.node_of_kind(node, NODE_LET_IN) && !t.has_node_of_kind(children, NODE_KEY_VALUE)
            && !t.has_node_of_kind(children, NODE_INHERIT) {
            match t.last_node(children) {
                Some(body) => Some(
                    ReportView::new("Useless let-in expression"@, 2).suggest(
                        t.range(node),
                        "This let-in expression has no entries"@,
                        SuggestionView { at: t.range(node), fix: t.text_of(body) },
                    ),
                ),
                None => None,
            }
        } else {
            None
        }
    }

    pub fn name() -> (r: &'static str)
        ensures
            r@ == "empty let-in"@,
    {
        "empty let-in"
    }

    pub fn note() -> (r: &'static str)
        ensures
            r@ == "Useless let-in expression"@,
    {
        "Useless let-in expression"
    }

    pub fn code() -> (r: u32)
        ensures
            r == 2,
    {
        2
    }

    /// Whether the rule looks at elements of kind `kind`.
    pub fn match_with(kind: SyntaxKind) -> (r: bool)
        ensures
            r == (kind == NODE_LET_IN),
    {
        kind == NODE_LET_IN
    }

    /// The report of this rule, with nothing said yet.
    pub fn report() -> (r: Report)
        ensures
            r@ == ReportView::new("Useless let-in expression"@, 2),
    {
        Report::new(Self::note(), Self::code())
    }

    /// Looks at element `node` of `tree`.
    pub fn validate(&self, tree: &SyntaxTree, node: usize) -> (r: Option<Report>)
        requires
            tree.wf(),
            node < tree@.len(),
        ensures
            match r {
                Some(report) => Self::finds(tree@, node as int) == Some(report@),
                None => Self::finds(tree@, node as int) is None,
            },
    {
        let element = tree.element(node);
        if element.token || element.kind != NODE_LET_IN {
            return None;
        }
        if tree.has_child_of_kind(node, NODE_KEY_VALUE) {
            return None;
        }
        if tree.has_child_of_kind(node, NODE_INHERIT) {
            return None;
        }
        match tree.last_child(node) {
            Some(body) => {
                let at = element.range;
                let replacement = tree.text_of(body);
                let message = "This let-in expression has no entries";
                Some(Self::report().suggest(at, message, Suggestion::new(at, replacement)))
            },
            None => None,
        }
    }
}

/// The edit that the rule suggests lies within the node that it is
/// suggested for, and its replacement is a part of that node's text.
pub proof fn lemma_empty_let_in_within(t: TreeView, node: int)
    requires
        t.valid(),
        0 <= node < t.len(),
        EmptyLetIn::finds(t, node) is Some,
    ensures
        EmptyLetIn::finds(t, node).unwrap().diagnostics.len() == 1,
        EmptyLetIn::finds(t, node).unwrap().diagnostics[0].suggestion matches Some(s) && s.at
            == t.range(node) && s.at.wf() && s.at.hi() <= t.text.len() && exists|body: int|
            node < body < t.end(node) && t.range(node).encloses(t.range(body)) && s.fix
                == #[trigger] t.text_of(body),
{
    let children = t.children(node);
    let body = t.last_node(children).unwrap();
    lemma_last_node(t, children);
    lemma_siblings(t, node, body, body);
    lemma_subtree(t, node);
    assert(t.text_of(body) == t.text_of(body));
}

} // verus!
