//! The rule against a `let in` whose body is a `let in`.

use crate::kinds::{SyntaxKind, NODE_LET_IN, TOKEN_IN, TOKEN_LET};
use crate::report::{Report, ReportView, Suggestion, SuggestionView};
use crate::text::TextRange;
use crate::tree::outline::{
    lemma_descendant, lemma_first_of_kind, lemma_last_node, lemma_last_of_kind_before,
    lemma_siblings, lemma_subtree,
};
use crate::tree::{SyntaxTree, TreeView};
use vstd::prelude::*;

verus! {

/// Finds a `let in` whose body is itself a `let in`, and suggests to make
/// one of the two: to delete what stands from the outer `in` to the inner
/// `let`, both included.
#[derive(Clone, Copy, Debug, PartialEq, Eq)]
pub struct CollapsibleLetIn;

impl CollapsibleLetIn {
    /// What the rule reports of element `node` of the tree `t`: nothing,
    /// unless the element is a `let in` node whose body, its last child
    /// node, is a `let in` node too, an `in` stands among the children before
    /// the body, and a `let` stands in the body. Then two spans: the whole
    /// expression, and the body with the suggestion to delete the bytes from
    /// the start of the last such `in` to the end of the first such `let`.
    pub open spec fn finds(t: TreeView, node: int) -> Option<ReportView> {
        let children = t.children(node);
        if t.node_of_kind(node, NODE_LET_IN) {
            match t.last_node(children) {
                Some(body) => if t.kind(body) == NODE_LET_IN {
                    match (
                        t.last_of_kind_before(children, body, TOKEN_IN),
                        t.first_of_kind(body, t.end(body), TOKEN_LET),
                    ) {
                        (Some(outer_in), Some(inner_let)) => Some(
                            ReportView::new("These let-in expressions are collapsible"@, 6).diagnostic(
                                t.range(node),
                                "This `let in` expression contains a nested `let in` expression"@,
                            ).suggest(
                                t.range(body),
                                "This `let in` expression is nested"@,
                                SuggestionView {
                                    at: TextRange::spec_new(
                                        t.range(outer_in).lo(),
                                        t.range(inner_let).hi(),
                                    ),
                                    fix: Seq::empty(),
                                },
                            ),
                        ),
                        _ => None,
                    }
                } else {
                    None
                },
                None => None,
            }
        } else {
            None
        }
    }

    pub fn name() -> (r: &'static str)
        ensures
            r@ == "collapsible let in"@,
    {
        "collapsible let in"
    }

    pub fn note() -> (r: &'static str)
        ensures
            r@ == "These let-in expressions are collapsible"@,
    {
        "These let-in expressions are collapsible"
    }

    pub fn code() -> (r: u32)
        ensures
            r == 6,
    {
        6
    }

    /// Whether the rule looks at elements of kind `kind`.
    pub fn match_with(kind: SyntaxKind) -> (r: bool)
        ensures
            r == (kind == NODE_LET_IN),
    {
        kind == NODE_LET_IN
    }

    /// The report of this rule, with nothing said yet.
    pub fn report() -> (r: Report)
        ensures
            r@ == ReportView::new("These let-in expressions are collapsible"@, 6),
    {
        Report::new(Self::note(), Self::code())
    }

    /// Looks at element `node` of `tree`.
    pub fn validate(&self, tree: &SyntaxTree, node: usize) -> (r: Option<Report>)
        requires
            tree.wf(),
            node < tree@.len(),
        ensures
            match r {
                Some(report) => Self::finds(tree@, node as int) == Some(report@),
                None => Self::finds(tree@, node as int) is None,
            },
    {
        let element = tree.element(node);
        if element.token || element.kind != NODE_LET_IN {
            return None;
        }
        let body = match tree.last_child(node) {
            Some(body) => body,
            None => {
                return None;
            },
        };
        let inner = tree.element(body);
        if inner.kind != NODE_LET_IN {
            return None;
        }
        let first_annotation = element.range;
        let first_message = "This `let in` expression contains a nested `let in` expression";
        let second_annotation = inner.range;
        let second_message = "This `let in` expression is nested";
        let outer_in = match tree.last_child_of_kind_before(node, body, TOKEN_IN) {
            Some(found) => found,
            None => {
                return None;
            },
        };
        let inner_let = match tree.first_of_kind(body, tree.subtree_end(body), TOKEN_LET) {
            Some(found) => found,
            None => {
                return None;
            },
        };
        proof {
            lemma_collapsible_bounds(tree@, node as int);
            lemma_last_of_kind_before(tree@, tree@.children(node as int), body as int, TOKEN_IN);
            lemma_first_of_kind(tree@, body as int, tree@.end(body as int), TOKEN_LET);
            lemma_last_node(tree@, tree@.children(node as int));
            lemma_siblings(tree@, node as int, outer_in as int, body as int);
        }
        let start = tree.element(outer_in).range.start();
        let end = tree.element(inner_let).range.end();
        let replacement_at = TextRange::new(start, end);
        let replacement: Vec<u8> = Vec::new();
        Some(
            Self::report().diagnostic(first_annotation, first_message).suggest(
                second_annotation,
                second_message,
                Suggestion::new(replacement_at, replacement),
            ),
        )
    }
}

/// The edit that the rule suggests is a range: it starts, with the `in`,
/// before it ends, with the `let`, and lies within the node that it is
/// suggested for.
pub proof fn lemma_collapsible_bounds(t: TreeView, node: int)
    requires
        t.valid(),
        0 <= node < t.len(),
        t.last_node(t.children(node)) matches Some(body) && t.kind(body) == NODE_LET_IN
            && t.last_of_kind_before(t.children(node), body, TOKEN_IN) is Some && t.first_of_kind(
            body,
            t.end(body),
            TOKEN_LET,
        ) is Some,
    ensures
        ({
            let body = t.last_node(t.children(node)).unwrap();
            let outer_in = t.last_of_kind_before(t.children(node), body, TOKEN_IN).unwrap();
            let inner_let = t.first_of_kind(body, t.end(body), TOKEN_LET).unwrap();
            &&& t.range(node).lo() <= t.range(outer_in).lo() <= t.range(inner_let).hi() <= t.range(
                node,
            ).hi() <= t.text.len()
            &&& t.range(node).hi() <= u32::MAX
        }),
{
    let children = t.children(node);
    let body = t.last_node(children).unwrap();
    let outer_in = t.last_of_kind_before(children, body, TOKEN_IN).unwrap();
    let inner_let = t.first_of_kind(body, t.end(body), TOKEN_LET).unwrap();
    lemma_last_node(t, children);
    lemma_last_of_kind_before(t, children, body, TOKEN_IN);
    lemma_siblings(t, node, outer_in, body);
    lemma_first_of_kind(t, body, t.end(body), TOKEN_LET);
    lemma_descendant(t, body, inner_let);
    lemma_subtree(t, node);
    lemma_subtree(t, outer_in);
}

} // verus!
