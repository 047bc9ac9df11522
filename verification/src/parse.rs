//! The parser, as the linter sees it: a source text goes in; the walk of its
//! syntax tree and the list of its syntax errors come out.

use crate::text::TextRange;
use crate::tree::{Element, WalkEvent};
use vstd::prelude::*;
use vstd::utf8::encode_utf8;

verus! {

/// A syntax error: where the parser met it, unless it met it at the end of
/// the text, and what the parser says of it.
#[derive(Clone, Debug, PartialEq, Eq)]
pub struct ParseError {
    pub at: Option<TextRange>,
    pub message: String,
}

/// The mathematical content of a [`ParseError`].
pub struct ParseErrorView {
    pub at: Option<TextRange>,
    pub message: Seq<char>,
}

impl View for ParseError {
    type V = ParseErrorView;

    open spec fn view(&self) -> ParseErrorView {
        ParseErrorView { at: self.at, message: self.message@ }
    }
}

/// The contents of each error in `errors`.
pub open spec fn error_views(errors: Seq<ParseError>) -> Seq<ParseErrorView> {
    Seq::new(errors.len(), |i: int| errors[i]@)
}

impl ParseError {
    /// An error with the message `message`, found in the bytes from `at.0`
    /// up to `at.1` where `at` is given.
    pub fn new(at: Option<(u32, u32)>, message: String) -> (r: ParseError)
        requires
            at matches Some(bounds) ==> bounds.0 <= bounds.1,
        ensures
            r.message == message,
            match at {
                Some(bounds) => r.at == Some(
                    TextRange::spec_new(bounds.0 as int, bounds.1 as int),
                ),
                None => r.at is None,
            },
    {
        let at = match at {
            Some(bounds) => Some(TextRange::new(bounds.0, bounds.1)),
            None => None,
        };
        ParseError { at, message }
    }
}

impl Element {
    /// The element of kind `kind` that spans the bytes from `start` up to
    /// `end`.
    pub fn new(kind: u16, start: u32, end: u32, token: bool) -> (r: Element)
        requires
            start <= end,
        ensures
            r.kind == kind,
            r.range == TextRange::spec_new(start as int, end as int),
            r.token == token,
    {
        Element { kind, range: TextRange::new(start, end), token }
    }
}

/// The walk that the parser's tree for the text `src` gives.
pub uninterp spec fn parsed_walk(src: Seq<char>) -> Seq<WalkEvent>;

/// The errors that the parser finds in the text `src`.
pub uninterp spec fn parsed_errors(src: Seq<char>) -> Seq<ParseErrorView>;

/// Whether a text is short enough to be parsed: its offsets fit 32 bits.
pub open spec fn parsable(src: Seq<char>) -> bool {
    encode_utf8(src).len() <= u32::MAX
}

/// Whether `src` is short enough to be parsed.
pub fn can_parse(src: &str) -> (r: bool)
    ensures
        r == parsable(src@),
{
    src.as_bytes().len() <= u32::MAX as usize
}

/// Parses `src` with `rnix::parse` and walks the tree, root first, with
/// `SyntaxNode::preorder_with_tokens`. Each event is handed on as it comes:
/// an element's kind as its number, its range as two offsets. The contract
/// only gives the result a name: the walk depends on the text alone.
#[verifier::external_body]
pub(crate) fn parse_walk(src: &str) -> (r: Vec<WalkEvent>)
    requires
        parsable(src@),
    ensures
        r@ == parsed_walk(src@),
{
    let mut walk = Vec::new();
    for event in rnix::parse(src).node().preorder_with_tokens() {
        walk.push(match event {
            rnix::WalkEvent::Enter(e) => WalkEvent::Enter(Element::new(
                e.kind() as u16, e.text_range().start().into(),
                e.text_range().end().into(), e.as_token().is_some(),
            )),
            rnix::WalkEvent::Leave(_) => WalkEvent::Leave,
        });
    }
    walk
}

/// Parses `src` with `rnix::parse` and lists the errors with `AST::errors`,
/// each with the range that its variant carries, if it carries one, and with
/// the text that its `Display` impl writes. The contract only gives the
/// result a name: the errors depend on the text alone.
#[verifier::external_body]
pub(crate) fn parse_errors(src: &str) -> (r: Vec<ParseError>)
    requires
        parsable(src@),
    ensures
        error_views(r@) == parsed_errors(src@),
{
    let mut errors = Vec::new();
    for e in rnix::parse(src).errors() {
        let at = match &e {
            rnix::parser::ParseError::Unexpected(r) => Some(*r),
            rnix::parser::ParseError::UnexpectedExtra(r) => Some(*r),
            rnix::parser::ParseError::UnexpectedWanted(_, r, _) => Some(*r),
            rnix::parser::ParseError::UnexpectedDoubleBind(r) => Some(*r),
            rnix::parser::ParseError::DuplicatedArgs(r, _) => Some(*r),
            _ => None,
        };
        errors.push(ParseError::new(at.map(|r| (r.start().into(), r.end().into())), e.to_string()));
    }
    errors
}

} // verus!
