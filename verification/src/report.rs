//! What a rule reports: annotated spans of the source text, and for some of
//! them a suggested edit.

use crate::parse::{ParseError, ParseErrorView};
use crate::strings::{capitalize, capitalized};
use crate::text::TextRange;
use vstd::prelude::*;

verus! {

/// How grave a report is.
#[derive(Clone, Copy, Debug, PartialEq, Eq, Structural)]
pub enum Severity {
    Warn,
    Error,
    Hint,
}

impl Default for Severity {
    fn default() -> (r: Severity)
        ensures
            r == Severity::Warn,
    {
        Severity::Warn
    }
}

/// A suggested edit: the bytes of the range `at` are to be replaced by
/// `fix`. An empty `fix` deletes them.
#[derive(Clone, Debug, PartialEq, Eq)]
pub struct Suggestion {
    pub at: TextRange,
    pub fix: Vec<u8>,
}

/// The mathematical content of a [`Suggestion`].
pub struct SuggestionView {
    pub at: TextRange,
    pub fix: Seq<u8>,
}

impl View for Suggestion {
    type V = SuggestionView;

    open spec fn view(&self) -> SuggestionView {
        SuggestionView { at: self.at, fix: self.fix@ }
    }
}

impl Suggestion {
    /// The suggestion to replace the bytes of `at` by `fix`.
    pub fn new(at: TextRange, fix: Vec<u8>) -> (r: Suggestion)
        ensures
            r@ == (SuggestionView { at, fix: fix@ }),
    {
        Suggestion { at, fix }
    }
}

/// The contents of each suggestion in `suggestions`.
pub open spec fn suggestion_views(suggestions: Seq<Suggestion>) -> Seq<SuggestionView> {
    Seq::new(suggestions.len(), |i: int| suggestions[i]@)
}

/// One annotated span, with the edit that is suggested for it, if any.
#[derive(Clone, Debug, PartialEq, Eq)]
pub struct Diagnostic {
    pub at: TextRange,
    pub message: String,
    pub suggestion: Option<Suggestion>,
}

/// The mathematical content of a [`Diagnostic`].
pub struct DiagnosticView {
    pub at: TextRange,
    pub message: Seq<char>,
    pub suggestion: Option<SuggestionView>,
}

impl View for Diagnostic {
    type V = DiagnosticView;

    open spec fn view(&self) -> DiagnosticView {
        DiagnosticView {
            at: self.at,
            message: self.message@,
            suggestion: match self.suggestion {
                Some(s) => Some(s@),
                None => None,
            },
        }
    }
}

impl Diagnostic {
    /// A span with a message and no suggestion.
    pub fn new(at: TextRange, message: String) -> (r: Diagnostic)
        ensures
            r@ == (DiagnosticView { at, message: message@, suggestion: None }),
    {
        Diagnostic { at, message, suggestion: None }
    }

    /// A span with a message and a suggested edit.
    pub fn suggest(at: TextRange, message: String, suggestion: Suggestion) -> (r: Diagnostic)
        ensures
            r@ == (DiagnosticView { at, message: message@, suggestion: Some(suggestion@) }),
    {
        Diagnostic { at, message, suggestion: Some(suggestion) }
    }
}

/// The contents of each diagnostic in `diagnostics`.
pub open spec fn diagnostic_views(diagnostics: Seq<Diagnostic>) -> Seq<DiagnosticView> {
    Seq::new(diagnostics.len(), |i: int| diagnostics[i]@)
}

/// What one rule has to say of one node.
#[derive(Clone, Debug, PartialEq, Eq)]
pub struct Report {
    /// What the rule is about, in general.
    pub note: &'static str,
    /// The number that identifies the rule.
    pub code: u32,
    pub severity: Severity,
    pub diagnostics: Vec<Diagnostic>,
}

/// The mathematical content of a [`Report`].
pub struct ReportView {
    pub note: Seq<char>,
    pub code: u32,
    pub severity: Severity,
    pub diagnostics: Seq<DiagnosticView>,
}

impl View for Report {
    type V = ReportView;

    open spec fn view(&self) -> ReportView {
        ReportView {
            note: self.note@,
            code: self.code,
            severity: self.severity,
            diagnostics: diagnostic_views(self.diagnostics@),
        }
    }
}

/// The contents of each report in `reports`.
pub open spec fn report_views(reports: Seq<Report>) -> Seq<ReportView> {
    Seq::new(reports.len(), |i: int| reports[i]@)
}

impl ReportView {
    /// The report of a rule with the note `note` and the number `code`, with
    /// nothing said yet.
    pub open spec fn new(note: Seq<char>, code: u32) -> ReportView {
        ReportView { note, code, severity: Severity::Warn, diagnostics: Seq::empty() }
    }

    /// The report with one more span, without a suggestion.
    pub open spec fn diagnostic(self, at: TextRange, message: Seq<char>) -> ReportView {
        ReportView {
            diagnostics: self.diagnostics.push(DiagnosticView { at, message, suggestion: None }),
            ..self
        }
    }

    /// The report with one more span, with a suggestion.
    pub open spec fn suggest(
        self,
        at: TextRange,
        message: Seq<char>,
        suggestion: SuggestionView,
    ) -> ReportView {
        ReportView {
            diagnostics: self.diagnostics.push(
                DiagnosticView { at, message, suggestion: Some(suggestion) },
            ),
            ..self
        }
    }

    /// The report with the severity `severity`.
    pub open spec fn severity(self, severity: Severity) -> ReportView {
        ReportView { severity, ..self }
    }

    /// The report that stands for the syntax error `err`: one span, where the
    /// error is, or the empty range at the start of the text if the error has
    /// no place, with the parser's message, its first letter a capital.
    pub open spec fn from_parse_err(err: ParseErrorView) -> ReportView {
        ReportView::new("Syntax error"@, 0).diagnostic(
            match err.at {
                Some(at) => at,
                None => TextRange::spec_new(0, 0),
            },
            capitalized(err.message),
        ).severity(Severity::Error)
    }
}

impl Report {
    /// The report of a rule with the note `note` and the number `code`, with
    /// nothing said yet.
    pub fn new(note: &'static str, code: u32) -> (r: Report)
        ensures
            r@ == ReportView::new(note@, code),
    {
        let r = Report { note, code, severity: Severity::Warn, diagnostics: Vec::new() };
        proof {
            assert(r@.diagnostics == Seq::<DiagnosticView>::empty());
        }
        r
    }

    /// Adds a span with a message.
    pub fn diagnostic(self, at: TextRange, message: &str) -> (r: Report)
        ensures
            r@ == self@.diagnostic(at, message@),
    {
        let mut r = self;
        r.diagnostics.push(Diagnostic::new(at, message.to_owned()));
        proof {
            assert(r@.diagnostics == self@.diagnostics.push(
                DiagnosticView { at, message: message@, suggestion: None },
            ));
        }
        r
    }

    /// Adds a span with a message and a suggested edit.
    pub fn suggest(self, at: TextRange, message: &str, suggestion: Suggestion) -> (r: Report)
        ensures
            r@ == self@.suggest(at, message@, suggestion@),
    {
        let mut r = self;
        let ghost edit = suggestion@;
        r.diagnostics.push(Diagnostic::suggest(at, message.to_owned(), suggestion));
        proof {
            assert(r@.diagnostics == self@.diagnostics.push(
                DiagnosticView { at, message: message@, suggestion: Some(edit) },
            ));
        }
        r
    }

    /// Sets the severity.
    pub fn severity(self, severity: Severity) -> (r: Report)
        ensures
            r@ == self@.severity(severity),
    {
        let mut r = self;
        r.severity = severity;
        r
    }

    /// The report that stands for a syntax error. It suggests nothing.
    pub fn from_parse_err(err: &ParseError) -> (r: Report)
        ensures
            r@ == ReportView::from_parse_err(err@),
    {
        let at = match err.at {
            Some(at) => at,
            None => TextRange::empty(0),
        };
        let message = capitalize(err.message.as_str());
        Report::new("Syntax error", 0).diagnostic(at, message.as_str()).severity(Severity::Error)
    }
}

} // verus!
