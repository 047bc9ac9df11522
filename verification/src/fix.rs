//! The fix engine: it takes the edits that the rules suggest for a text,
//! settles which of them can be made together, makes them, and goes over
//! the new text again, until a pass finds nothing to do or the passes
//! allowed are used up.

pub mod apply;
pub mod candidates;
pub mod resolve;
pub mod targeted;

use crate::lint::{lint_tree, linted, tree_reports};
use crate::lints::{all_lints, Lint};
use crate::parse::{parsable, parse_walk, parsed_errors, parsed_walk};
use crate::registry::LintMap;
use crate::report::{suggestion_views, SuggestionView};
use crate::strings::string_from_utf8;
use crate::tree::{tree_of, SyntaxTree, TreeView, WalkEvent};
use apply::{applied, apply, fits};
use candidates::{
    lemma_errors_suggest_nothing, lemma_suggestions_fit, lemma_suggestions_of_add,
    lemma_tree_reports_fit, suggestions, suggestions_of,
};
use resolve::{lemma_resolution_separated, positions, resolution, resolve};
pub use targeted::{single, single_with, SingleFixErr};
use vstd::prelude::*;
use vstd::utf8::{decode_utf8, encode_utf8, valid_utf8};

verus! {

/// The number of passes that [`all`] makes at most.
pub const MAX_PASSES: usize = 8;

/// A fixed text, and the number of passes that changed it.
#[derive(Clone, Debug, PartialEq, Eq)]
pub struct FixResult {
    pub src: String,
    pub passes: usize,
}

/// The candidate edits of a pass over a tree: what the rules suggest.
pub open spec fn candidates_of(tree: Option<TreeView>, rules: Seq<Lint>) -> Seq<SuggestionView> {
    match tree {
        Some(t) => suggestions_of(tree_reports(t, rules, t.len())),
        None => Seq::empty(),
    }
}

/// What one pass makes of the text `text` with the tree `tree`: nothing
/// where no edit is accepted, else the text with the accepted edits made.
pub open spec fn pass_on(tree: Option<TreeView>, text: Seq<u8>, rules: Seq<Lint>) -> Option<
    Seq<u8>,
> {
    let c = candidates_of(tree, rules);
    let accepted = resolution(c);
    if accepted.len() == 0 {
        None
    } else {
        Some(applied(text, c, accepted))
    }
}

/// The text that one pass over `src` leaves, where the pass changes the
/// text and leaves a text that can be parsed again.
pub open spec fn next_text(src: Seq<char>, rules: Seq<Lint>) -> Option<Seq<char>> {
    match pass_on(tree_of(parsed_walk(src), encode_utf8(src)), encode_utf8(src), rules) {
        Some(bytes) => if valid_utf8(bytes) && bytes.len() <= u32::MAX {
            Some(decode_utf8(bytes))
        } else {
            None
        },
        None => None,
    }
}

/// The text after at most `passes` passes over `src`, and the number of
/// passes that changed it: the passes end with the first that finds
/// nothing to do.
pub open spec fn fixed(src: Seq<char>, rules: Seq<Lint>, passes: nat) -> (Seq<char>, nat)
    decreases passes,
{
    if passes == 0 {
        (src, 0)
    } else {
        match next_text(src, rules) {
            Some(next) => {
                let rest = fixed(next, rules, (passes - 1) as nat);
                (rest.0, rest.1 + 1)
            },
            None => (src, 0),
        }
    }
}

/// Where no report of the lint engine carries a suggestion, a pass finds
/// nothing to do, and any number of passes leaves the text as it is.
pub proof fn lemma_nothing_suggested(src: Seq<char>, rules: Seq<Lint>, passes: nat)
    requires
        suggestions_of(linted(src, rules)).len() == 0,
    ensures
        next_text(src, rules) is None,
        fixed(src, rules, passes) == (src, 0nat),
{
    let tree = tree_of(parsed_walk(src), encode_utf8(src));
    let from_tree = match tree {
        Some(t) => tree_reports(t, rules, t.len()),
        None => Seq::empty(),
    };
    let from_errors = crate::lint::error_reports(parsed_errors(src));
    lemma_suggestions_of_add(from_tree, from_errors);
    lemma_errors_suggest_nothing(parsed_errors(src));
    assert(candidates_of(tree, rules).len() == 0);
}

/// The passes that follow a pass that found nothing to do find nothing to
/// do: with more passes allowed the result is the same.
pub proof fn lemma_fixed_stays(src: Seq<char>, rules: Seq<Lint>, k: nat, more: nat)
    requires
        next_text(fixed(src, rules, k).0, rules) is None,
    ensures
        fixed(src, rules, k + more) == fixed(src, rules, k),
    decreases k,
{
    if k == 0 {
        if more > 0 {
            assert(fixed(src, rules, more) == (src, 0nat));
        }
    } else {
        match next_text(src, rules) {
            Some(next) => {
                lemma_fixed_stays(next, rules, (k - 1) as nat, more);
                assert((k + more - 1) as nat == (k - 1) as nat + more);
            },
            None => {},
        }
    }
}

/// Where some number of passes up to the limit leaves a text in which a
/// pass finds nothing to do, [`all`] gives that text, and on its own
/// result finds nothing to do.
pub proof fn lemma_convergence(src: Seq<char>, rules: Seq<Lint>, k: nat)
    requires
        k <= MAX_PASSES,
        next_text(fixed(src, rules, k).0, rules) is None,
    ensures
        fixed(src, rules, MAX_PASSES as nat) == fixed(src, rules, k),
        next_text(fixed(src, rules, MAX_PASSES as nat).0, rules) is None,
        forall|n: nat|
            fixed(fixed(src, rules, MAX_PASSES as nat).0, rules, n) == (
                fixed(src, rules, MAX_PASSES as nat).0,
                0nat,
            ),
{
    lemma_fixed_stays(src, rules, k, (MAX_PASSES - k) as nat);
    assert(k + (MAX_PASSES - k) as nat == MAX_PASSES as nat);
    let end = fixed(src, rules, MAX_PASSES as nat).0;
    assert forall|n: nat| fixed(end, rules, n) == (end, 0nat) by {
        if n > 0 {
            assert(next_text(end, rules) is None);
        }
    }
}

/// The passes that end before the limit end with a text in which a pass
/// finds nothing to do.
pub proof fn lemma_early_end(src: Seq<char>, rules: Seq<Lint>, passes: nat)
    requires
        fixed(src, rules, passes).1 < passes,
    ensures
        next_text(fixed(src, rules, passes).0, rules) is None,
    decreases passes,
{
    if passes > 0 {
        match next_text(src, rules) {
            Some(next) => {
                lemma_early_end(next, rules, (passes - 1) as nat);
            },
            None => {},
        }
    }
}

/// One pass over a text that has been parsed: `walk` is the walk of its
/// tree. Gives the new text, or `None` where no edit is accepted.
pub fn fix_parsed(text: Vec<u8>, walk: &Vec<WalkEvent>, lints: &LintMap) -> (r: Option<Vec<u8>>)
    requires
        lints.wf(),
    ensures
        match r {
            Some(bytes) => pass_on(tree_of(walk@, text@), text@, lints@) == Some(bytes@),
            None => pass_on(tree_of(walk@, text@), text@, lints@) is None,
        },
{
    let ghost bytes = text@;
    let tree = match SyntaxTree::from_walk(text, walk) {
        Some(tree) => tree,
        None => {
            return None;
        },
    };
    let reports = lint_tree(&tree, lints);
    let found = suggestions(&reports);
    let accepted = resolve(&found);
    if accepted.len() == 0 {
        return None;
    }
    proof {
        let c = suggestion_views(found@);
        lemma_tree_reports_fit(tree@, lints@, tree@.len());
        lemma_suggestions_fit(tree_reports(tree@, lints@, tree@.len()), bytes.len() as int);
        lemma_resolution_separated(c, 0);
        assert(fits(bytes.len() as int, c, positions(accepted@)));
    }
    Some(apply(tree.text(), &found, &accepted))
}

/// One pass over `src`. Gives the new text, or `None` where the pass
/// finds nothing to do or leaves what cannot be parsed again.
pub fn pass(src: &str, lints: &LintMap) -> (r: Option<String>)
    requires
        parsable(src@),
        lints.wf(),
    ensures
        match r {
            Some(next) => next_text(src@, lints@) == Some(next@) && parsable(next@),
            None => next_text(src@, lints@) is None,
        },
{
    broadcast use vstd::utf8::encode_utf8_decode_utf8;

    let walk = parse_walk(src);
    let bytes = match fix_parsed(src.as_bytes_vec(), &walk, lints) {
        Some(bytes) => bytes,
        None => {
            return None;
        },
    };
    if bytes.len() > u32::MAX as usize {
        return None;
    }
    string_from_utf8(bytes)
}

/// Fixes `src` with the rules of `lints`: passes over the text, each over
/// what the one before it left, until one finds nothing to do, and no more
/// than [`MAX_PASSES`]. Gives `None` where the first pass finds nothing to
/// do.
pub fn all_with(src: &str, lints: &LintMap) -> (r: Option<FixResult>)
    requires
        parsable(src@),
        lints.wf(),
    ensures
        match r {
            Some(result) => next_text(src@, lints@) is Some && result.src@ == fixed(
                src@,
                lints@,
                MAX_PASSES as nat,
            ).0 && result.passes == fixed(src@, lints@, MAX_PASSES as nat).1 && 1 <= result.passes
                <= MAX_PASSES,
            None => next_text(src@, lints@) is None,
        },
{
    let mut text = match pass(src, lints) {
        Some(next) => next,
        None => {
            return None;
        },
    };
    let mut passes: usize = 1;
    while passes < MAX_PASSES
        invariant
            lints.wf(),
            1 <= passes <= MAX_PASSES,
            parsable(text@),
            fixed(src@, lints@, MAX_PASSES as nat).0 == fixed(
                text@,
                lints@,
                (MAX_PASSES - passes) as nat,
            ).0,
            fixed(src@, lints@, MAX_PASSES as nat).1 == fixed(
                text@,
                lints@,
                (MAX_PASSES - passes) as nat,
            ).1 + passes,
        ensures
            1 <= passes <= MAX_PASSES,
            fixed(src@, lints@, MAX_PASSES as nat) == (text@, passes as nat),
        decreases MAX_PASSES - passes,
    {
        match pass(text.as_str(), lints) {
            Some(next) => {
                text = next;
                passes = passes + 1;
            },
            None => {
                break ;
            },
        }
    }
    Some(FixResult { src: text, passes })
}

/// Fixes `src` with all rules.
pub fn all(src: &str) -> (r: Option<FixResult>)
    requires
        parsable(src@),
    ensures
        match r {
            Some(result) => next_text(src@, all_lints()) is Some && result.src@ == fixed(
                src@,
                all_lints(),
                MAX_PASSES as nat,
            ).0 && result.passes == fixed(src@, all_lints(), MAX_PASSES as nat).1,
            None => next_text(src@, all_lints()) is None,
        },
{
    all_with(src, &LintMap::lint_map())
}

} // verus!
