//! The lint engine: every rule that applies to an element is asked about
//! it, element by element in document order; the syntax errors follow.

use crate::lints::Lint;
use crate::parse::{
    error_views, parsable, parse_errors, parse_walk, parsed_errors, parsed_walk, ParseError,
    ParseErrorView,
};
use crate::registry::{bucket_of, LintMap};
use crate::report::{report_views, Report, ReportView};
use crate::tree::{tree_of, SyntaxTree, TreeView, WalkEvent};
use vstd::prelude::*;
use vstd::utf8::encode_utf8;

verus! {

/// The number by which a file is known.
#[derive(Clone, Copy, Debug, PartialEq, Eq, Structural)]
pub struct FileId(pub u32);

/// A file to lint: its number and its text.
#[derive(Clone, Copy, Debug)]
pub struct VfsEntry<'a> {
    pub file_id: FileId,
    pub contents: &'a str,
}

/// What linting one file gave.
#[derive(Debug)]
pub struct LintResult {
    pub file_id: FileId,
    pub reports: Vec<Report>,
}

/// What the rules `rules`, asked in order, report of element `node`.
pub open spec fn node_reports(t: TreeView, rules: Seq<Lint>, node: int) -> Seq<ReportView>
    decreases rules.len(),
{
    if rules.len() == 0 {
        Seq::empty()
    } else {
        let before = node_reports(t, rules.drop_last(), node);
        match rules.last().finds(t, node) {
            Some(report) => before.push(report),
            None => before,
        }
    }
}

/// What the rules `rules` report of the first `upto` elements of the tree:
/// element by element in document order, and for each element the rules
/// that look at its kind, in the order of `rules`.
pub open spec fn tree_reports(t: TreeView, rules: Seq<Lint>, upto: int) -> Seq<ReportView>
    decreases upto,
{
    if upto <= 0 {
        Seq::empty()
    } else {
        tree_reports(t, rules, upto - 1) + node_reports(
            t,
            bucket_of(rules, t.kind(upto - 1)),
            upto - 1,
        )
    }
}

/// The reports that stand for the syntax errors `errors`, one for each.
pub open spec fn error_reports(errors: Seq<ParseErrorView>) -> Seq<ReportView> {
    Seq::new(errors.len(), |i: int| ReportView::from_parse_err(errors[i]))
}

/// What linting gives for a parsed text: the reports of the rules on the
/// tree, if the parser's walk was that of a tree, then the reports of the
/// syntax errors.
pub open spec fn lint_reports(
    tree: Option<TreeView>,
    errors: Seq<ParseErrorView>,
    rules: Seq<Lint>,
) -> Seq<ReportView> {
    (match tree {
        Some(t) => tree_reports(t, rules, t.len()),
        None => Seq::empty(),
    }) + error_reports(errors)
}

/// What linting the text `src` with the rules `rules` gives.
pub open spec fn linted(src: Seq<char>, rules: Seq<Lint>) -> Seq<ReportView> {
    lint_reports(tree_of(parsed_walk(src), encode_utf8(src)), parsed_errors(src), rules)
}

/// Asks the rules of `lints` about every element of `tree`.
pub fn lint_tree(tree: &SyntaxTree, lints: &LintMap) -> (r: Vec<Report>)
    requires
        tree.wf(),
        lints.wf(),
    ensures
        report_views(r@) == tree_reports(tree@, lints@, tree@.len()),
{
    let mut reports: Vec<Report> = Vec::new();
    let n = tree.len();
    let mut node: usize = 0;
    proof {
        assert(report_views(reports@) =~= tree_reports(tree@, lints@, 0));
    }
    while node < n
        invariant
            tree.wf(),
            lints.wf(),
            n == tree@.len(),
            node <= n,
            report_views(reports@) == tree_reports(tree@, lints@, node as int),
        decreases n - node,
    {
        let kind = tree.element(node).kind;
        let ghost before = report_views(reports@);
        match lints.get(kind) {
            Some(rules) => {
                let mut k: usize = 0;
                proof {
                    assert(rules@.take(0) =~= Seq::<Lint>::empty());
                    assert(before + node_reports(tree@, rules@.take(0), node as int) =~= before);
                }
                while k < rules.len()
                    invariant
                        tree.wf(),
                        node < tree@.len(),
                        k <= rules@.len(),
                        report_views(reports@) == before + node_reports(
                            tree@,
                            rules@.take(k as int),
                            node as int,
                        ),
                    decreases rules@.len() - k,
                {
                    let found = rules[k].validate(tree, node);
                    proof {
                        assert(rules@.take(k + 1).drop_last() == rules@.take(k as int));
                        assert(rules@.take(k + 1).last() == rules@[k as int]);
                    }
                    match found {
                        Some(report) => {
                            let ghost old_views = report_views(reports@);
                            reports.push(report);
                            proof {
                                assert(report_views(reports@) =~= old_views.push(report@));
                                assert(before + node_reports(
                                    tree@,
                                    rules@.take(k as int),
                                    node as int,
                                ).push(report@) =~= old_views.push(report@));
                            }
                        },
                        None => {},
                    }
                    k = k + 1;
                }
                proof {
                    assert(rules@.take(rules@.len() as int) == rules@);
                }
            },
            None => {
                proof {
                    assert(bucket_of(lints@, kind) =~= Seq::<Lint>::empty());
                    assert(before + node_reports(tree@, bucket_of(lints@, kind), node as int)
                        =~= before);
                }
            },
        }
        node = node + 1;
    }
    reports
}

/// Lints a text that has been parsed: `walk` is the walk of its tree and
/// `errors` are its syntax errors. Where the walk is not that of a tree
/// over the text, only the errors are reported.
pub fn lint_parsed(
    text: Vec<u8>,
    walk: &Vec<WalkEvent>,
    errors: &Vec<ParseError>,
    lints: &LintMap,
) -> (r: Vec<Report>)
    requires
        lints.wf(),
    ensures
        report_views(r@) == lint_reports(tree_of(walk@, text@), error_views(errors@), lints@),
{
    let ghost tree_view = tree_of(walk@, text@);
    let mut reports = match SyntaxTree::from_walk(text, walk) {
        Some(tree) => lint_tree(&tree, lints),
        None => Vec::new(),
    };
    let ghost from_tree = report_views(reports@);
    proof {
        assert(tree_view is None ==> from_tree =~= Seq::<ReportView>::empty());
        assert(from_tree + error_reports(error_views(errors@).take(0)) =~= from_tree);
    }
    let mut k: usize = 0;
    while k < errors.len()
        invariant
            k <= errors@.len(),
            report_views(reports@) == from_tree + error_reports(error_views(errors@).take(k as int)),
        decreases errors@.len() - k,
    {
        let ghost old_views = report_views(reports@);
        let report = Report::from_parse_err(&errors[k]);
        reports.push(report);
        proof {
            assert(report_views(reports@) =~= old_views.push(report@));
            assert(error_reports(error_views(errors@).take(k + 1)) =~= error_reports(
                error_views(errors@).take(k as int),
            ).push(report@));
        }
        k = k + 1;
    }
    proof {
        assert(error_views(errors@).take(errors@.len() as int) == error_views(errors@));
    }
    reports
}

/// Lints one file with the rules of `lints`. The result depends on the
/// text and on the rules alone: linting the same text with the same rules
/// gives the same reports in the same order.
pub fn lint_with(vfs_entry: VfsEntry, lints: &LintMap) -> (r: LintResult)
    requires
        parsable(vfs_entry.contents@),
        lints.wf(),
    ensures
        r.file_id == vfs_entry.file_id,
        report_views(r.reports@) == linted(vfs_entry.contents@, lints@),
{
    let file_id = vfs_entry.file_id;
    let source = vfs_entry.contents;
    let walk = parse_walk(source);
    let errors = parse_errors(source);
    let reports = lint_parsed(source.as_bytes_vec(), &walk, &errors, lints);
    LintResult { file_id, reports }
}

/// Lints one file with all rules.
pub fn lint(vfs_entry: VfsEntry) -> (r: LintResult)
    requires
        parsable(vfs_entry.contents@),
    ensures
        r.file_id == vfs_entry.file_id,
        report_views(r.reports@) == linted(vfs_entry.contents@, crate::lints::all_lints()),
{
    lint_with(vfs_entry, &LintMap::lint_map())
}

} // verus!
