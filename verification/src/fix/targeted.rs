//! The targeted fix: exactly one edit, chosen by a position in the text.
//!
//! A position is a line and a column. Lines are counted from one, and
//! line zero is taken as line one; a line ends with its line feed. The
//! column is the number of bytes between the start of the line and the
//! position: column zero is the first byte of the line.

use crate::fix::apply::{append_bytes, replaced};
use crate::fix::candidates::{
    edits_fit, lemma_errors_suggest_nothing, lemma_suggestions_fit, lemma_suggestions_of_add,
    lemma_tree_reports_fit, suggestions, suggestions_of,
};
use crate::fix::{candidates_of, FixResult};
use crate::lint::{error_reports, lint_tree, linted, tree_reports};
use crate::lints::{all_lints, Lint};
use crate::parse::{parsable, parse_walk, parsed_errors, parsed_walk};
use crate::registry::LintMap;
use crate::report::{suggestion_views, Suggestion, SuggestionView};
use crate::strings::string_from_utf8;
use crate::tree::{tree_of, SyntaxTree, WalkEvent};
use vstd::prelude::*;
use vstd::utf8::{encode_utf8, valid_utf8};

verus! {

/// Why a targeted fix was not made.
#[derive(Clone, Copy, Debug, PartialEq, Eq)]
pub enum SingleFixErr {
    /// The position, a line and a column, lies beyond the end of the text.
    OutOfBounds(usize, usize),
    /// No suggested edit covers the position.
    NoOp,
    /// The edit would leave bytes that are not a text.
    NotText,
}

/// The index of the first line feed in `text` at `from` or later, or the
/// length of `text` if there is none.
pub open spec fn next_newline(text: Seq<u8>, from: int) -> int
    decreases text.len() - from,
{
    if from < 0 || from >= text.len() {
        text.len() as int
    } else if text[from] == 10 {
        from
    } else {
        next_newline(text, from + 1)
    }
}

/// The offset at which line `line` starts, or the length of the text if
/// the text has fewer lines.
pub open spec fn line_start(text: Seq<u8>, line: nat) -> int
    decreases line,
{
    if line <= 1 {
        0
    } else {
        let feed = next_newline(text, line_start(text, (line - 1) as nat));
        if feed >= text.len() {
            text.len() as int
        } else {
            feed + 1
        }
    }
}

/// The offset of the position, if it lies in the text.
pub open spec fn offset_of(text: Seq<u8>, line: nat, col: nat) -> Option<int> {
    let offset = line_start(text, line) + col;
    if offset < text.len() {
        Some(offset)
    } else {
        None
    }
}

/// The number of bytes that candidate `i` replaces.
pub open spec fn width(c: Seq<SuggestionView>, i: int) -> int {
    c[i].at.hi() - c[i].at.lo()
}

/// The candidate among the first `n` that is chosen for `offset`: of those
/// whose range covers the offset the one that replaces the fewest bytes,
/// and of several such the first.
pub open spec fn selected(c: Seq<SuggestionView>, offset: int, n: int) -> Option<int>
    decreases n,
{
    if n <= 0 {
        None
    } else {
        let before = selected(c, offset, n - 1);
        if c[n - 1].at.covers(offset) && (before is None || width(c, n - 1) < width(
            c,
            before.unwrap(),
        )) {
            Some(n - 1)
        } else {
            before
        }
    }
}

/// What a targeted fix at the position makes of the bytes `text` with the
/// candidate edits `c`: the bytes with the chosen edit made.
pub open spec fn single_on(text: Seq<u8>, c: Seq<SuggestionView>, line: nat, col: nat) -> Result<
    Seq<u8>,
    SingleFixErr,
> {
    match offset_of(text, line, col) {
        None => Err(SingleFixErr::OutOfBounds(line as usize, col as usize)),
        Some(offset) => match selected(c, offset, c.len() as int) {
            None => Err(SingleFixErr::NoOp),
            Some(j) => Ok(replaced(text, c[j])),
        },
    }
}

/// What a targeted fix makes of its result as a text: the bytes must be
/// valid UTF-8.
pub open spec fn as_text(made: Result<Seq<u8>, SingleFixErr>) -> Result<Seq<u8>, SingleFixErr> {
    match made {
        Ok(bytes) => if valid_utf8(bytes) {
            Ok(bytes)
        } else {
            Err(SingleFixErr::NotText)
        },
        Err(e) => Err(e),
    }
}

/// What a targeted fix at the position makes of the text `src`: the bytes
/// of the new text.
pub open spec fn single_fixed(src: Seq<char>, rules: Seq<Lint>, line: nat, col: nat) -> Result<
    Seq<u8>,
    SingleFixErr,
> {
    as_text(
        single_on(
            encode_utf8(src),
            candidates_of(tree_of(parsed_walk(src), encode_utf8(src)), rules),
            line,
            col,
        ),
    )
}

/// What [`selected`] chooses covers the offset, and no candidate that
/// covers the offset replaces fewer bytes, nor as many and comes before
/// it; it chooses one wherever a candidate covers the offset.
pub proof fn lemma_selected(c: Seq<SuggestionView>, offset: int, n: int)
    requires
        0 <= n <= c.len(),
    ensures
        match selected(c, offset, n) {
            Some(j) => 0 <= j < n && c[j].at.covers(offset) && forall|i: int|
                0 <= i < n && (#[trigger] c[i]).at.covers(offset) ==> width(c, j) < width(c, i) || (
                width(c, j) == width(c, i) && j <= i),
            None => forall|i: int| 0 <= i < n ==> !(#[trigger] c[i]).at.covers(offset),
        },
    decreases n,
{
    if n > 0 {
        lemma_selected(c, offset, n - 1);
    }
}

/// A targeted fix changes nothing outside the range of the edit that it
/// makes: that edit covers the position, the bytes before its range stay
/// where they are, and the bytes after its range follow the replacement
/// in their order.
pub proof fn lemma_single_keeps_the_rest(
    text: Seq<u8>,
    c: Seq<SuggestionView>,
    line: nat,
    col: nat,
)
    requires
        edits_fit(c, text.len() as int),
        single_on(text, c, line, col) is Ok,
    ensures
        ({
            let offset = offset_of(text, line, col).unwrap();
            let edit = c[selected(c, offset, c.len() as int).unwrap()];
            let made = single_on(text, c, line, col).unwrap();
            &&& edit.at.covers(offset)
            &&& made.len() == text.len() - (edit.at.hi() - edit.at.lo()) + edit.fix.len()
            &&& forall|i: int| 0 <= i < edit.at.lo() ==> made[i] == text[i]
            &&& forall|i: int|
                edit.at.hi() <= i < text.len() ==> made[i - edit.at.hi() + edit.at.lo()
                    + edit.fix.len()] == text[i]
        }),
{
    let offset = offset_of(text, line, col).unwrap();
    lemma_selected(c, offset, c.len() as int);
    let edit = c[selected(c, offset, c.len() as int).unwrap()];
    crate::fix::apply::lemma_replaced_outside(text, edit);
}

/// The candidates of a targeted fix are the suggestions of the lint
/// engine's reports: the syntax errors add none.
pub proof fn lemma_candidates_are_linted(src: Seq<char>, rules: Seq<Lint>)
    ensures
        candidates_of(tree_of(parsed_walk(src), encode_utf8(src)), rules) == suggestions_of(
            linted(src, rules),
        ),
{
    let tree = tree_of(parsed_walk(src), encode_utf8(src));
    let from_tree = match tree {
        Some(t) => tree_reports(t, rules, t.len()),
        None => Seq::empty(),
    };
    let from_errors = error_reports(parsed_errors(src));
    lemma_suggestions_of_add(from_tree, from_errors);
    lemma_errors_suggest_nothing(parsed_errors(src));
    assert(suggestions_of(from_tree) + suggestions_of(from_errors) =~= suggestions_of(from_tree));
    assert(suggestions_of(Seq::<crate::report::ReportView>::empty()) =~= Seq::<
        SuggestionView,
    >::empty());
}

/// Once the text has ended, every later line starts at its end.
proof fn lemma_line_start_at_end(text: Seq<u8>, l: nat, line: nat)
    requires
        1 <= l <= line,
        line_start(text, l) == text.len(),
    ensures
        line_start(text, line) == text.len(),
    decreases line - l,
{
    if l < line {
        assert(line_start(text, l + 1) == text.len());
        lemma_line_start_at_end(text, l + 1, line);
    }
}

/// The offset of the position in `text`: the start of line `line`, and
/// `col` bytes on.
pub fn pos_to_byte(line: usize, col: usize, text: &Vec<u8>) -> (r: Result<u32, SingleFixErr>)
    requires
        text@.len() <= u32::MAX,
    ensures
        match r {
            Ok(offset) => offset_of(text@, line as nat, col as nat) == Some(offset as int),
            Err(e) => offset_of(text@, line as nat, col as nat) is None && e
                == SingleFixErr::OutOfBounds(line, col),
        },
{
    let len = text.len();
    let mut at: usize = 0;
    let mut l: usize = 1;
    while l < line && at < len
        invariant
            len == text@.len(),
            1 <= l,
            l <= line || (line == 0 && l == 1),
            at <= len,
            at == line_start(text@, l as nat),
        decreases line - l,
    {
        let mut feed = at;
        while feed < len && text[feed] != 10
            invariant
                len == text@.len(),
                at <= feed <= len,
                next_newline(text@, at as int) == next_newline(text@, feed as int),
            decreases len - feed,
        {
            feed = feed + 1;
        }
        at = if feed >= len {
            len
        } else {
            feed + 1
        };
        l = l + 1;
    }
    proof {
        if l < line {
            lemma_line_start_at_end(text@, l as nat, line as nat);
        }
    }
    if col >= len - at {
        return Err(SingleFixErr::OutOfBounds(line, col));
    }
    Ok((at + col) as u32)
}

/// Chooses the candidate for `offset`.
pub fn select(candidates: &Vec<Suggestion>, offset: u32) -> (r: Option<usize>)
    ensures
        match r {
            Some(j) => selected(
                suggestion_views(candidates@),
                offset as int,
                candidates@.len() as int,
            ) == Some(j as int) && j < candidates@.len(),
            None => selected(suggestion_views(candidates@), offset as int, candidates@.len() as int)
                is None,
        },
{
    let ghost c = suggestion_views(candidates@);
    let mut best: Option<usize> = None;
    let mut best_width: u32 = 0;
    let mut i: usize = 0;
    while i < candidates.len()
        invariant
            c == suggestion_views(candidates@),
            i <= candidates@.len(),
            match best {
                Some(j) => selected(c, offset as int, i as int) == Some(j as int) && j < i
                    && best_width == width(c, j as int),
                None => selected(c, offset as int, i as int) is None,
            },
        decreases candidates@.len() - i,
    {
        let at = candidates[i].at;
        if at.contains(offset) && (best.is_none() || at.len() < best_width) {
            best = Some(i);
            best_width = at.len();
        }
        i = i + 1;
    }
    best
}

/// The targeted fix on a text that has been parsed: `walk` is the walk of
/// its tree. Makes the one edit that is chosen for the position, and no
/// other.
pub fn single_parsed(
    line: usize,
    col: usize,
    text: Vec<u8>,
    walk: &Vec<WalkEvent>,
    lints: &LintMap,
) -> (r: Result<FixResult, SingleFixErr>)
    requires
        lints.wf(),
        text@.len() <= u32::MAX,
    ensures
        match r {
            Ok(result) => as_text(
                single_on(
                    text@,
                    candidates_of(tree_of(walk@, text@), lints@),
                    line as nat,
                    col as nat,
                ),
            ) == Ok::<Seq<u8>, SingleFixErr>(encode_utf8(result.src@)) && result.passes == 1,
            Err(e) => as_text(
                single_on(
                    text@,
                    candidates_of(tree_of(walk@, text@), lints@),
                    line as nat,
                    col as nat,
                ),
            ) == Err::<Seq<u8>, SingleFixErr>(e),
        },
{
    let offset = match pos_to_byte(line, col, &text) {
        Ok(offset) => offset,
        Err(e) => {
            return Err(e);
        },
    };
    let ghost bytes = text@;
    let tree = match SyntaxTree::from_walk(text, walk) {
        Some(tree) => tree,
        None => {
            return Err(SingleFixErr::NoOp);
        },
    };
    let found = suggestions(&lint_tree(&tree, lints));
    let j = match select(&found, offset) {
        Some(j) => j,
        None => {
            return Err(SingleFixErr::NoOp);
        },
    };
    proof {
        lemma_tree_reports_fit(tree@, lints@, tree@.len());
        lemma_suggestions_fit(tree_reports(tree@, lints@, tree@.len()), bytes.len() as int);
        assert(suggestion_views(found@)[j as int] == found@[j as int]@);
    }
    let edit = &found[j];
    let source = tree.text();
    let mut out: Vec<u8> = Vec::new();
    append_bytes(&mut out, source, 0, edit.at.start() as usize);
    append_bytes(&mut out, &edit.fix, 0, edit.fix.len());
    append_bytes(&mut out, source, edit.at.end() as usize, source.len());
    proof {
        assert(edit.fix@.subrange(0, edit.fix@.len() as int) =~= edit.fix@);
        assert(out@ =~= replaced(bytes, edit@));
    }
    match string_from_utf8(out) {
        Some(text) => Ok(FixResult { src: text, passes: 1 }),
        None => Err(SingleFixErr::NotText),
    }
}

/// The targeted fix with the rules of `lints`: makes the one edit that is
/// chosen for the position, and leaves every byte outside its range as it
/// is.
pub fn single_with(line: usize, col: usize, src: &str, lints: &LintMap) -> (r: Result<
    FixResult,
    SingleFixErr,
>)
    requires
        parsable(src@),
        lints.wf(),
    ensures
        match r {
            Ok(result) => single_fixed(src@, lints@, line as nat, col as nat) == Ok::<
                Seq<u8>,
                SingleFixErr,
            >(encode_utf8(result.src@)) && result.passes == 1,
            Err(e) => single_fixed(src@, lints@, line as nat, col as nat) == Err::<
                Seq<u8>,
                SingleFixErr,
            >(e),
        },
{
    let walk = parse_walk(src);
    single_parsed(line, col, src.as_bytes_vec(), &walk, lints)
}

/// The targeted fix with all rules.
pub fn single(line: usize, col: usize, src: &str) -> (r: Result<FixResult, SingleFixErr>)
    requires
        parsable(src@),
    ensures
        match r {
            Ok(result) => single_fixed(src@, all_lints(), line as nat, col as nat) == Ok::<
                Seq<u8>,
                SingleFixErr,
            >(encode_utf8(result.src@)) && result.passes == 1,
            Err(e) => single_fixed(src@, all_lints(), line as nat, col as nat) == Err::<
                Seq<u8>,
                SingleFixErr,
            >(e),
        },
{
    single_with(line, col, src, &LintMap::lint_map())
}

} // verus!
