//! A linter for Nix expressions.
//!
//! The parser's syntax tree of a text is laid out as a [`tree::SyntaxTree`].
//! The rules in [`lints`] each look at one element of the tree and report
//! what they find there, with a suggested edit where they have one. The
//! engine in [`lint`] asks the rules that the [`registry`] holds for the
//! kind of each element, in document order. The engine in [`fix`] makes the
//! suggested edits that do not conflict, pass after pass, or the one edit at
//! a position.

pub mod fix;
pub mod kinds;
pub mod lint;
pub mod lints;
pub mod parse;
pub mod registry;
pub mod report;
pub mod session;
pub mod strings;
pub mod text;
pub mod tree;
