//! Making the accepted edits.
//!
//! What the edits give is defined by making them one at a time, the one
//! with the highest start offset first, so that the offsets of those still
//! to be made stay valid. [`apply`] makes them in one pass over the text
//! from left to right, and is proved to give the same.

use crate::fix::resolve::positions;
use crate::report::{suggestion_views, Suggestion, SuggestionView};
use vstd::prelude::*;

verus! {

/// The text with the bytes of `s.at` replaced by `s.fix`.
pub open spec fn replaced(text: Seq<u8>, s: SuggestionView) -> Seq<u8> {
    text.subrange(0, s.at.lo()) + s.fix + text.subrange(s.at.hi(), text.len() as int)
}

/// The text with the edits `accepted` among `c` made, the last of them
/// first.
pub open spec fn applied(text: Seq<u8>, c: Seq<SuggestionView>, accepted: Seq<int>) -> Seq<u8>
    decreases accepted.len(),
{
    if accepted.len() == 0 {
        text
    } else {
        applied(replaced(text, c[accepted.last()]), c, accepted.drop_last())
    }
}

/// Whether the edits `accepted` among `c` can be made to a text of `len`
/// bytes: each is a candidate and lies within the text, and each starts
/// where the one before it has ended, or later.
pub open spec fn fits(len: int, c: Seq<SuggestionView>, accepted: Seq<int>) -> bool {
    &&& forall|k: int|
        0 <= k < accepted.len() ==> {
            let j = #[trigger] accepted[k];
            0 <= j < c.len() && c[j].at.wf() && c[j].at.hi() <= len
        }
    &&& forall|k: int, l: int|
        0 <= k < l < accepted.len() ==> c[#[trigger] accepted[k]].at.hi()
            <= c[#[trigger] accepted[l]].at.lo()
}

/// Where the text has been read up to when the first `k` edits are made.
pub open spec fn cursor(c: Seq<SuggestionView>, accepted: Seq<int>, k: int) -> int {
    if k <= 0 {
        0
    } else {
        c[accepted[k - 1]].at.hi()
    }
}

/// What a pass from left to right has written when the first `k` edits are
/// made: for each of them the text since the edit before it, and its
/// replacement.
pub open spec fn stitched(text: Seq<u8>, c: Seq<SuggestionView>, accepted: Seq<int>, k: int) -> Seq<
    u8,
>
    decreases k,
{
    if k <= 0 {
        Seq::empty()
    } else {
        stitched(text, c, accepted, k - 1) + text.subrange(
            cursor(c, accepted, k - 1),
            c[accepted[k - 1]].at.lo(),
        ) + c[accepted[k - 1]].fix
    }
}

/// What is written for the first `k` edits depends on these edits alone,
/// and on the text before the end of the last of them.
proof fn lemma_stitched_local(
    t1: Seq<u8>,
    t2: Seq<u8>,
    c: Seq<SuggestionView>,
    a1: Seq<int>,
    a2: Seq<int>,
    k: int,
    bound: int,
)
    requires
        0 <= k <= a1.len(),
        k <= a2.len(),
        forall|l: int| 0 <= l < k ==> a1[l] == a2[l],
        fits(t1.len() as int, c, a1),
        0 <= bound <= t1.len(),
        bound <= t2.len(),
        forall|l: int| 0 <= l < k ==> c[#[trigger] a1[l]].at.hi() <= bound,
        forall|i: int| 0 <= i < bound ==> t1[i] == t2[i],
    ensures
        stitched(t1, c, a1, k) == stitched(t2, c, a2, k),
    decreases k,
{
    if k > 0 {
        lemma_stitched_local(t1, t2, c, a1, a2, k - 1, bound);
        let from = cursor(c, a1, k - 1);
        let to = c[a1[k - 1]].at.lo();
        if k > 1 {
            assert(c[a1[k - 2]].at.hi() <= c[a1[k - 1]].at.lo());
        }
        assert(cursor(c, a2, k - 1) == from);
        assert(t1.subrange(from, to) =~= t2.subrange(from, to));
    }
}

/// Making the edits one at a time from the last to the first gives what a
/// pass from left to right writes, followed by the rest of the text.
pub proof fn lemma_applied_is_stitched(text: Seq<u8>, c: Seq<SuggestionView>, accepted: Seq<int>)
    requires
        fits(text.len() as int, c, accepted),
    ensures
        applied(text, c, accepted) == stitched(text, c, accepted, accepted.len() as int)
            + text.subrange(cursor(c, accepted, accepted.len() as int), text.len() as int),
    decreases accepted.len(),
{
    let n = accepted.len() as int;
    if n == 0 {
        assert(stitched(text, c, accepted, 0) + text.subrange(0, text.len() as int) =~= text);
    } else {
        let last = c[accepted[n - 1]];
        let shorter = accepted.drop_last();
        let edited = replaced(text, last);
        let from = cursor(c, shorter, n - 1);
        if n > 1 {
            assert(c[accepted[n - 2]].at.hi() <= c[accepted[n - 1]].at.lo());
        }
        assert(from <= last.at.lo());
        assert forall|k: int| 0 <= k < shorter.len() implies {
            let j = #[trigger] shorter[k];
            0 <= j < c.len() && c[j].at.wf() && c[j].at.hi() <= edited.len()
        } by {
            assert(shorter[k] == accepted[k]);
            assert(c[accepted[k]].at.hi() <= c[accepted[n - 1]].at.lo());
        }
        assert forall|k: int, l: int| 0 <= k < l < shorter.len() implies c[#[trigger] shorter[k]].at.hi()
            <= c[#[trigger] shorter[l]].at.lo() by {
            assert(shorter[k] == accepted[k] && shorter[l] == accepted[l]);
        }
        lemma_applied_is_stitched(edited, c, shorter);
        assert forall|l: int| 0 <= l < n - 1 implies c[#[trigger] shorter[l]].at.hi()
            <= last.at.lo() by {
            assert(shorter[l] == accepted[l]);
            assert(c[accepted[l]].at.hi() <= c[accepted[n - 1]].at.lo());
        }
        lemma_stitched_local(edited, text, c, shorter, accepted, n - 1, last.at.lo());
        assert(edited.subrange(from, edited.len() as int) =~= text.subrange(from, last.at.lo())
            + last.fix + text.subrange(last.at.hi(), text.len() as int));
        assert(cursor(c, accepted, n - 1) == from);
        assert(applied(text, c, accepted) =~= stitched(text, c, accepted, n) + text.subrange(
            last.at.hi(),
            text.len() as int,
        ));
    }
}

/// An edit leaves the bytes before its range where they are, and those
/// after its range in their order, behind the replacement.
pub proof fn lemma_replaced_outside(text: Seq<u8>, s: SuggestionView)
    requires
        s.at.wf(),
        s.at.hi() <= text.len(),
    ensures
        replaced(text, s).len() == text.len() - (s.at.hi() - s.at.lo()) + s.fix.len(),
        forall|i: int| 0 <= i < s.at.lo() ==> replaced(text, s)[i] == text[i],
        forall|i: int|
            s.at.hi() <= i < text.len() ==> replaced(text, s)[i - s.at.hi() + s.at.lo()
                + s.fix.len()] == text[i],
        forall|i: int| 0 <= i < s.fix.len() ==> replaced(text, s)[s.at.lo() + i] == s.fix[i],
{
}

/// Appends the bytes of `source` from `from` up to `to`.
pub fn append_bytes(out: &mut Vec<u8>, source: &Vec<u8>, from: usize, to: usize)
    requires
        from <= to <= source@.len(),
    ensures
        final(out)@ == old(out)@ + source@.subrange(from as int, to as int),
{
    let mut k = from;
    proof {
        assert(out@ + source@.subrange(from as int, from as int) =~= out@);
    }
    while k < to
        invariant
            from <= k <= to <= source@.len(),
            out@ == old(out)@ + source@.subrange(from as int, k as int),
        decreases to - k,
    {
        out.push(source[k]);
        proof {
            assert(source@.subrange(from as int, k + 1) =~= source@.subrange(
                from as int,
                k as int,
            ).push(source@[k as int]));
        }
        k = k + 1;
    }
}

/// Makes the edits `accepted` among `candidates` to `text`, in one pass
/// from left to right.
pub fn apply(text: &Vec<u8>, candidates: &Vec<Suggestion>, accepted: &Vec<usize>) -> (r: Vec<u8>)
    requires
        fits(text@.len() as int, suggestion_views(candidates@), positions(accepted@)),
    ensures
        r@ == applied(text@, suggestion_views(candidates@), positions(accepted@)),
{
    let ghost c = suggestion_views(candidates@);
    let ghost a = positions(accepted@);
    let mut out: Vec<u8> = Vec::new();
    let mut at: usize = 0;
    let mut k: usize = 0;
    while k < accepted.len()
        invariant
            c == suggestion_views(candidates@),
            a == positions(accepted@),
            fits(text@.len() as int, c, a),
            k <= accepted@.len(),
            at == cursor(c, a, k as int),
            at <= text@.len(),
            out@ == stitched(text@, c, a, k as int),
        decreases accepted@.len() - k,
    {
        proof {
            assert(a[k as int] == accepted@[k as int]);
            if k > 0 {
                assert(c[a[k - 1]].at.hi() <= c[a[k as int]].at.lo());
            }
        }
        let edit = &candidates[accepted[k]];
        let start = edit.at.start() as usize;
        let end = edit.at.end() as usize;
        append_bytes(&mut out, text, at, start);
        append_bytes(&mut out, &edit.fix, 0, edit.fix.len());
        proof {
            assert(edit.fix@.subrange(0, edit.fix@.len() as int) =~= edit.fix@);
        }
        at = end;
        k = k + 1;
    }
    append_bytes(&mut out, text, at, text.len());
    proof {
        lemma_applied_is_stitched(text@, c, a);
    }
    out
}

} // verus!
