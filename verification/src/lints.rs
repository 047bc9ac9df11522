//! The rules of the linter.

pub mod collapsible_let_in;
pub mod empty_let_in;

use crate::kinds::SyntaxKind;
use crate::report::{Report, ReportView};
use crate::tree::{SyntaxTree, TreeView};
use collapsible_let_in::CollapsibleLetIn;
use empty_let_in::EmptyLetIn;
use vstd::prelude::*;

verus! {

/// A rule: a check of one element of a syntax tree that reports what it
/// finds there, or nothing.
#[derive(Clone, Copy, Debug, PartialEq, Eq)]
pub enum Lint {
    EmptyLetIn(EmptyLetIn),
    CollapsibleLetIn(CollapsibleLetIn),
}

impl Lint {
    /// Whether the rule looks at elements of kind `kind`.
    pub open spec fn matches(self, kind: SyntaxKind) -> bool {
        kind == crate::kinds::NODE_LET_IN
    }

    /// The number that identifies the rule.
    pub open spec fn number(self) -> u32 {
        match self {
            Lint::EmptyLetIn(_) => 2,
            Lint::CollapsibleLetIn(_) => 6,
        }
    }

    /// What the rule reports of element `node` of the tree `t`.
    pub open spec fn finds(self, t: TreeView, node: int) -> Option<ReportView> {
        match self {
            Lint::EmptyLetIn(_) => EmptyLetIn::finds(t, node),
            Lint::CollapsibleLetIn(_) => CollapsibleLetIn::finds(t, node),
        }
    }

    /// The name of the rule.
    pub open spec fn title(self) -> Seq<char> {
        match self {
            Lint::EmptyLetIn(_) => "empty let-in"@,
            Lint::CollapsibleLetIn(_) => "collapsible let in"@,
        }
    }

    /// What the rule is about.
    pub open spec fn about(self) -> Seq<char> {
        match self {
            Lint::EmptyLetIn(_) => "Useless let-in expression"@,
            Lint::CollapsibleLetIn(_) => "These let-in expressions are collapsible"@,
        }
    }

    /// The name of the rule.
    pub fn name(&self) -> (r: &'static str)
        ensures
            r@ == self.title(),
    {
        match self {
            Lint::EmptyLetIn(_) => EmptyLetIn::name(),
            Lint::CollapsibleLetIn(_) => CollapsibleLetIn::name(),
        }
    }

    /// What the rule is about.
    pub fn note(&self) -> (r: &'static str)
        ensures
            r@ == self.about(),
    {
        match self {
            Lint::EmptyLetIn(_) => EmptyLetIn::note(),
            Lint::CollapsibleLetIn(_) => CollapsibleLetIn::note(),
        }
    }

    /// The number that identifies the rule.
    pub fn code(&self) -> (r: u32)
        ensures
            r == self.number(),
    {
        match self {
            Lint::EmptyLetIn(_) => EmptyLetIn::code(),
            Lint::CollapsibleLetIn(_) => CollapsibleLetIn::code(),
        }
    }

    /// Whether the rule looks at elements of kind `kind`.
    pub fn match_with(&self, kind: SyntaxKind) -> (r: bool)
        ensures
            r == self.matches(kind),
    {
        match self {
            Lint::EmptyLetIn(_) => EmptyLetIn::match_with(kind),
            Lint::CollapsibleLetIn(_) => CollapsibleLetIn::match_with(kind),
        }
    }

    /// The kinds of element that the rule looks at, each once.
    pub fn match_kind(&self) -> (r: Vec<SyntaxKind>)
        ensures
            forall|kind: SyntaxKind| r@.contains(kind) <==> self.matches(kind),
            r@.no_duplicates(),
    {
        let mut kinds: Vec<SyntaxKind> = Vec::new();
        kinds.push(crate::kinds::NODE_LET_IN);
        proof {
            assert(kinds@[0] == crate::kinds::NODE_LET_IN);
        }
        kinds
    }

    /// Looks at element `node` of `tree`.
    pub fn validate(&self, tree: &SyntaxTree, node: usize) -> (r: Option<Report>)
        requires
            tree.wf(),
            node < tree@.len(),
        ensures
            match r {
                Some(report) => self.finds(tree@, node as int) == Some(report@),
                None => self.finds(tree@, node as int) is None,
            },
    {
        match self {
            Lint::EmptyLetIn(rule) => rule.validate(tree, node),
            Lint::CollapsibleLetIn(rule) => rule.validate(tree, node),
        }
    }
}

/// All rules, in the order in which they are registered.
pub open spec fn all_lints() -> Seq<Lint> {
    seq![Lint::EmptyLetIn(EmptyLetIn), Lint::CollapsibleLetIn(CollapsibleLetIn)]
}

/// All rules, in the order in which they are registered.
pub fn lints() -> (r: Vec<Lint>)
    ensures
        r@ == all_lints(),
{
    let mut all: Vec<Lint> = Vec::new();
    all.push(Lint::EmptyLetIn(EmptyLetIn));
    all.push(Lint::CollapsibleLetIn(CollapsibleLetIn));
    proof {
        assert(all@ =~= all_lints());
    }
    all
}

} // verus!
