//! The candidate edits of a pass: every suggestion that the lint engine's
//! reports carry, in the order of the reports.

use crate::lint::{error_reports, node_reports, tree_reports};
use crate::lints::collapsible_let_in::{lemma_collapsible_bounds, CollapsibleLetIn};
use crate::lints::empty_let_in::{lemma_empty_let_in_within, EmptyLetIn};
use crate::lints::Lint;
use crate::parse::ParseErrorView;
use crate::registry::bucket_of;
use crate::report::{
    report_views, suggestion_views, DiagnosticView, Report, ReportView,
    Suggestion, SuggestionView,
};
use crate::fix::apply::append_bytes;
use crate::text::TextRange;
use crate::tree::TreeView;
use vstd::prelude::*;

verus! {

/// The suggestions that the diagnostics `d` carry, in order.
pub open spec fn diagnostic_suggestions(d: Seq<DiagnosticView>) -> Seq<SuggestionView>
    decreases d.len(),
{
    if d.len() == 0 {
        Seq::empty()
    } else {
        let before = diagnostic_suggestions(d.drop_last());
        match d.last().suggestion {
            Some(s) => before.push(s),
            None => before,
        }
    }
}

/// The suggestions that the reports carry, in order.
pub open spec fn suggestions_of(reports: Seq<ReportView>) -> Seq<SuggestionView>
    decreases reports.len(),
{
    if reports.len() == 0 {
        Seq::empty()
    } else {
        suggestions_of(reports.drop_last()) + diagnostic_suggestions(reports.last().diagnostics)
    }
}

/// Whether every edit that the report suggests is a range within a text of
/// `len` bytes.
pub open spec fn report_fits(r: ReportView, len: int) -> bool {
    forall|k: int|
        0 <= k < r.diagnostics.len() ==> ((#[trigger] r.diagnostics[k]).suggestion matches Some(s)
            ==> s.at.wf() && s.at.hi() <= len)
}

/// Whether every edit that the reports suggest is a range within a text of
/// `len` bytes.
pub open spec fn reports_fit(reports: Seq<ReportView>, len: int) -> bool {
    forall|i: int| 0 <= i < reports.len() ==> report_fits(#[trigger] reports[i], len)
}

/// Whether every edit of `c` is a range within a text of `len` bytes.
pub open spec fn edits_fit(c: Seq<SuggestionView>, len: int) -> bool {
    forall|j: int| 0 <= j < c.len() ==> (#[trigger] c[j]).at.wf() && c[j].at.hi() <= len
}

/// The suggestions of two lists of reports, one after the other, are those
/// of the one followed by those of the other.
pub proof fn lemma_suggestions_of_add(a: Seq<ReportView>, b: Seq<ReportView>)
    ensures
        suggestions_of(a + b) == suggestions_of(a) + suggestions_of(b),
    decreases b.len(),
{
    if b.len() == 0 {
        assert(a + b =~= a);
        assert(suggestions_of(a) + suggestions_of(b) =~= suggestions_of(a));
    } else {
        assert((a + b).drop_last() =~= a + b.drop_last());
        assert((a + b).last() == b.last());
        lemma_suggestions_of_add(a, b.drop_last());
        assert(suggestions_of(a) + suggestions_of(b.drop_last()) + diagnostic_suggestions(
            b.last().diagnostics,
        ) =~= suggestions_of(a) + (suggestions_of(b.drop_last()) + diagnostic_suggestions(
            b.last().diagnostics,
        )));
    }
}

/// The reports that stand for syntax errors suggest nothing: no pass of
/// the fix engine acts on a syntax error.
pub proof fn lemma_errors_suggest_nothing(errors: Seq<ParseErrorView>)
    ensures
        suggestions_of(error_reports(errors)).len() == 0,
    decreases errors.len(),
{
    let reports = error_reports(errors);
    if errors.len() > 0 {
        assert(reports.drop_last() =~= error_reports(errors.drop_last()));
        lemma_errors_suggest_nothing(errors.drop_last());
        let d = reports.last().diagnostics;
        assert(d.len() == 1);
        assert(d.drop_last() =~= Seq::<DiagnosticView>::empty());
        assert(diagnostic_suggestions(d.drop_last()).len() == 0);
        assert(d.last().suggestion is None);
    }
}

/// The suggestions of diagnostics whose edits fit a text fit the text.
proof fn lemma_diagnostic_suggestions_fit(d: Seq<DiagnosticView>, len: int)
    requires
        forall|k: int|
            0 <= k < d.len() ==> ((#[trigger] d[k]).suggestion matches Some(s) ==> s.at.wf()
                && s.at.hi() <= len),
    ensures
        edits_fit(diagnostic_suggestions(d), len),
    decreases d.len(),
{
    if d.len() > 0 {
        assert forall|k: int| 0 <= k < d.drop_last().len() implies ((#[trigger] d.drop_last()[k]).suggestion matches Some(
            s,
        ) ==> s.at.wf() && s.at.hi() <= len) by {
            assert(d.drop_last()[k] == d[k]);
        }
        lemma_diagnostic_suggestions_fit(d.drop_last(), len);
        assert(d.last() == d[d.len() - 1]);
    }
}

/// The edits of reports that fit a text fit the text.
pub proof fn lemma_suggestions_fit(reports: Seq<ReportView>, len: int)
    requires
        reports_fit(reports, len),
    ensures
        edits_fit(suggestions_of(reports), len),
    decreases reports.len(),
{
    if reports.len() > 0 {
        assert forall|i: int| 0 <= i < reports.drop_last().len() implies report_fits(
            #[trigger] reports.drop_last()[i],
            len,
        ) by {
            assert(reports.drop_last()[i] == reports[i]);
        }
        lemma_suggestions_fit(reports.drop_last(), len);
        assert(report_fits(reports[reports.len() - 1], len));
        lemma_diagnostic_suggestions_fit(reports.last().diagnostics, len);
    }
}

/// Every edit that a rule suggests for an element of a tree is a range
/// within the element, and so within the text.
pub proof fn lemma_rule_fits(rule: Lint, t: TreeView, node: int)
    requires
        t.valid(),
        0 <= node < t.len(),
        rule.finds(t, node) is Some,
    ensures
        report_fits(rule.finds(t, node).unwrap(), t.text.len() as int),
        forall|k: int|
            0 <= k < rule.finds(t, node).unwrap().diagnostics.len() ==> ((
            #[trigger] rule.finds(t, node).unwrap().diagnostics[k]).suggestion matches Some(s)
                ==> t.range(node).encloses(s.at)),
{
    broadcast use TextRange::lemma_spec_new;

    crate::tree::outline::lemma_subtree(t, node);
    match rule {
        Lint::EmptyLetIn(_) => {
            lemma_empty_let_in_within(t, node);
        },
        Lint::CollapsibleLetIn(_) => {
            lemma_collapsible_bounds(t, node);
        },
    }
}

/// Every edit that rules suggest for one element is a range within the
/// text.
proof fn lemma_node_reports_fit(t: TreeView, rules: Seq<Lint>, node: int)
    requires
        t.valid(),
        0 <= node < t.len(),
    ensures
        reports_fit(node_reports(t, rules, node), t.text.len() as int),
    decreases rules.len(),
{
    if rules.len() > 0 {
        lemma_node_reports_fit(t, rules.drop_last(), node);
        if rules.last().finds(t, node) is Some {
            lemma_rule_fits(rules.last(), t, node);
        }
    }
}

/// Every edit that the rules suggest for a tree is a range within the
/// tree's text.
pub proof fn lemma_tree_reports_fit(t: TreeView, rules: Seq<Lint>, upto: int)
    requires
        t.valid(),
        0 <= upto <= t.len(),
    ensures
        reports_fit(tree_reports(t, rules, upto), t.text.len() as int),
    decreases upto,
{
    if upto > 0 {
        lemma_tree_reports_fit(t, rules, upto - 1);
        lemma_node_reports_fit(t, bucket_of(rules, t.kind(upto - 1)), upto - 1);
    }
}

/// A copy of `bytes`.
fn copy_bytes(bytes: &Vec<u8>) -> (r: Vec<u8>)
    ensures
        r@ == bytes@,
{
    let mut out: Vec<u8> = Vec::new();
    append_bytes(&mut out, bytes, 0, bytes.len());
    proof {
        assert(bytes@.subrange(0, bytes@.len() as int) =~= bytes@);
    }
    out
}

/// Collects the suggestions that the reports carry, in order.
pub fn suggestions(reports: &Vec<Report>) -> (r: Vec<Suggestion>)
    ensures
        suggestion_views(r@) == suggestions_of(report_views(reports@)),
{
    let mut out: Vec<Suggestion> = Vec::new();
    let mut i: usize = 0;
    proof {
        assert(report_views(reports@).take(0) =~= Seq::<ReportView>::empty());
        assert(suggestion_views(out@) =~= Seq::<SuggestionView>::empty());
    }
    while i < reports.len()
        invariant
            i <= reports@.len(),
            suggestion_views(out@) == suggestions_of(report_views(reports@).take(i as int)),
        decreases reports@.len() - i,
    {
        let report = &reports[i];
        let ghost before = suggestion_views(out@);
        let ghost d = report@.diagnostics;
        let mut k: usize = 0;
        proof {
            assert(d.take(0) =~= Seq::<DiagnosticView>::empty());
            assert(before + diagnostic_suggestions(d.take(0)) =~= before);
        }
        while k < report.diagnostics.len()
            invariant
                d == report@.diagnostics,
                d.len() == report.diagnostics@.len(),
                k <= d.len(),
                suggestion_views(out@) == before + diagnostic_suggestions(d.take(k as int)),
            decreases d.len() - k,
        {
            proof {
                assert(d.take(k + 1).drop_last() =~= d.take(k as int));
                assert(d.take(k + 1).last() == report.diagnostics@[k as int]@);
            }
            match &report.diagnostics[k].suggestion {
                Some(s) => {
                    let ghost old_views = suggestion_views(out@);
                    let copy = Suggestion::new(s.at, copy_bytes(&s.fix));
                    out.push(copy);
                    proof {
                        assert(suggestion_views(out@) =~= old_views.push(s@));
                        assert(before + diagnostic_suggestions(d.take(k as int)).push(s@)
                            =~= old_views.push(s@));
                    }
                },
                None => {},
            }
            k = k + 1;
        }
        proof {
            assert(d.take(d.len() as int) =~= d);
            let views = report_views(reports@);
            assert(views.take(i + 1).drop_last() =~= views.take(i as int));
            assert(views.take(i + 1).last() == report@);
        }
        i = i + 1;
    }
    proof {
        assert(report_views(reports@).take(reports@.len() as int) =~= report_views(reports@));
    }
    out
}

} // verus!
