//! Which of the suggested edits are made in one pass.
//!
//! The candidates are taken by rising start offset, those that start at
//! the same offset in the order of the list. A candidate is accepted if it
//! is clear of every edit accepted before it. Since the accepted edits lie
//! one after the other, that is the case exactly where it starts after the
//! start of the last one, and not before its end.

use crate::report::{suggestion_views, Suggestion, SuggestionView};
use vstd::prelude::*;

verus! {

/// The indices in `v`, as integers.
pub open spec fn positions(v: Seq<usize>) -> Seq<int> {
    Seq::new(v.len(), |k: int| v[k] as int)
}

/// Whether candidate `i` is taken before candidate `j`.
pub open spec fn precedes(c: Seq<SuggestionView>, i: int, j: int) -> bool {
    c[i].at.lo() < c[j].at.lo() || (c[i].at.lo() == c[j].at.lo() && i < j)
}

/// The candidate among the first `n` that is taken first of those that
/// start at `from` or later.
pub open spec fn earliest_from(c: Seq<SuggestionView>, from: int, n: int) -> Option<int>
    decreases n,
{
    if n <= 0 {
        None
    } else {
        let before = earliest_from(c, from, n - 1);
        let lo = c[n - 1].at.lo();
        if lo >= from && (before is None || lo < c[before.unwrap()].at.lo()) {
            Some(n - 1)
        } else {
            before
        }
    }
}

/// The least offset at which an edit that is clear of `s` and not before
/// it can start.
pub open spec fn clear_of(s: SuggestionView) -> int {
    if s.at.hi() > s.at.lo() {
        s.at.hi()
    } else {
        s.at.lo() + 1
    }
}

/// The candidates that are accepted among those that start at `from` or
/// later, in the order in which they are taken.
pub open spec fn resolution_from(c: Seq<SuggestionView>, from: int) -> Seq<int>
    decreases u32::MAX + 2 - from,
{
    match earliest_from(c, from, c.len() as int) {
        Some(j) => if c[j].at.wf() && c[j].at.lo() >= from {
            seq![j] + resolution_from(c, clear_of(c[j]))
        } else {
            Seq::empty()
        },
        None => Seq::empty(),
    }
}

/// The candidates that are accepted, in the order in which they are taken.
pub open spec fn resolution(c: Seq<SuggestionView>) -> Seq<int> {
    resolution_from(c, 0)
}

/// All ranges of `c` are well formed.
pub open spec fn ranges_wf(c: Seq<SuggestionView>) -> bool {
    forall|i: int| 0 <= i < c.len() ==> (#[trigger] c[i]).at.wf()
}

/// What [`earliest_from`] finds: a candidate that starts at `from` or
/// later and that is taken before every other such candidate.
pub proof fn lemma_earliest(c: Seq<SuggestionView>, from: int, n: int)
    requires
        0 <= n <= c.len(),
    ensures
        match earliest_from(c, from, n) {
            Some(j) => 0 <= j < n && c[j].at.lo() >= from && forall|i: int|
                0 <= i < n && (#[trigger] c[i]).at.lo() >= from && i != j ==> precedes(c, j, i),
            None => forall|i: int| 0 <= i < n ==> (#[trigger] c[i]).at.lo() < from,
        },
    decreases n,
{
    if n > 0 {
        lemma_earliest(c, from, n - 1);
    }
}

/// The accepted candidates are candidates, start at `from` or later, rise
/// strictly, and each starts where the one before it has ended, or later.
pub proof fn lemma_resolution_separated(c: Seq<SuggestionView>, from: int)
    ensures
        forall|k: int|
            0 <= k < resolution_from(c, from).len() ==> {
                let j = #[trigger] resolution_from(c, from)[k];
                0 <= j < c.len() && c[j].at.wf() && c[j].at.lo() >= from
            },
        forall|k: int, l: int|
            0 <= k < l < resolution_from(c, from).len() ==> {
                let a = c[#[trigger] resolution_from(c, from)[k]].at;
                let b = c[#[trigger] resolution_from(c, from)[l]].at;
                a.lo() < b.lo() && a.hi() <= b.lo()
            },
    decreases u32::MAX + 2 - from,
{
    lemma_earliest(c, from, c.len() as int);
    match earliest_from(c, from, c.len() as int) {
        Some(j) => {
            if c[j].at.wf() && c[j].at.lo() >= from {
                let rest = resolution_from(c, clear_of(c[j]));
                let all = resolution_from(c, from);
                lemma_resolution_separated(c, clear_of(c[j]));
                assert(all == seq![j] + rest);
                assert forall|k: int| 0 <= k < all.len() implies {
                    let i = #[trigger] all[k];
                    0 <= i < c.len() && c[i].at.wf() && c[i].at.lo() >= from
                } by {
                    if k > 0 {
                        assert(all[k] == rest[k - 1]);
                    }
                }
                assert forall|k: int, l: int| 0 <= k < l < all.len() implies {
                    let a = c[#[trigger] all[k]].at;
                    let b = c[#[trigger] all[l]].at;
                    a.lo() < b.lo() && a.hi() <= b.lo()
                } by {
                    assert(all[l] == rest[l - 1]);
                    if k > 0 {
                        assert(all[k] == rest[k - 1]);
                    }
                }
            }
        },
        None => {},
    }
}

/// No two accepted edits overlap: none shares a byte, or a start, with
/// another.
pub proof fn lemma_no_overlap(c: Seq<SuggestionView>, k: int, l: int)
    requires
        0 <= k < resolution(c).len(),
        0 <= l < resolution(c).len(),
        k != l,
    ensures
        !c[resolution(c)[k]].at.overlaps(c[resolution(c)[l]].at),
        resolution(c)[k] != resolution(c)[l],
{
    lemma_resolution_separated(c, 0);
    let r = resolution(c);
    if k < l {
        assert(c[r[k]].at.hi() <= c[r[l]].at.lo());
    } else {
        assert(c[r[l]].at.hi() <= c[r[k]].at.lo());
    }
}

/// A candidate that is not accepted overlaps an accepted one that is taken
/// before it: nothing is turned down without a conflict.
pub proof fn lemma_rejected_conflicts(c: Seq<SuggestionView>, from: int, j: int)
    requires
        ranges_wf(c),
        0 <= j < c.len(),
        c[j].at.lo() >= from,
        !resolution_from(c, from).contains(j),
    ensures
        exists|k: int|
            0 <= k < resolution_from(c, from).len() && precedes(
                c,
                #[trigger] resolution_from(c, from)[k],
                j,
            ) && c[resolution_from(c, from)[k]].at.overlaps(c[j].at),
    decreases u32::MAX + 2 - from,
{
    lemma_earliest(c, from, c.len() as int);
    let first = earliest_from(c, from, c.len() as int).unwrap();
    let all = resolution_from(c, from);
    let rest = resolution_from(c, clear_of(c[first]));
    assert(all == seq![first] + rest);
    assert(all[0] == first);
    if j == first {
        assert(all.contains(j));
    } else if c[j].at.lo() < clear_of(c[first]) {
        assert(precedes(c, all[0], j));
    } else {
        if rest.contains(j) {
            let k = choose|k: int| 0 <= k < rest.len() && rest[k] == j;
            assert(all[k + 1] == j);
        }
        lemma_rejected_conflicts(c, clear_of(c[first]), j);
        let k = choose|k: int|
            0 <= k < rest.len() && precedes(c, #[trigger] rest[k], j) && c[rest[k]].at.overlaps(
                c[j].at,
            );
        assert(all[k + 1] == rest[k]);
    }
}

/// Settles which of the candidate edits are made: the indices of the
/// accepted ones, by rising start offset.
pub fn resolve(candidates: &Vec<Suggestion>) -> (accepted: Vec<usize>)
    ensures
        positions(accepted@) == resolution(suggestion_views(candidates@)),
{
    let ghost c = suggestion_views(candidates@);
    let n = candidates.len();
    let mut accepted: Vec<usize> = Vec::new();
    let mut from: u64 = 0;
    proof {
        assert(positions(accepted@) + resolution_from(c, 0) =~= resolution(c));
    }
    loop
        invariant
            c == suggestion_views(candidates@),
            n == candidates@.len(),
            from <= u32::MAX + 1,
            resolution(c) == positions(accepted@) + resolution_from(c, from as int),
        ensures
            positions(accepted@) == resolution(c),
        decreases u32::MAX + 2 - from,
    {
        let mut best: Option<usize> = None;
        let mut best_start: u64 = 0;
        let mut i: usize = 0;
        while i < n
            invariant
                c == suggestion_views(candidates@),
                n == candidates@.len(),
                i <= n,
                match best {
                    Some(j) => earliest_from(c, from as int, i as int) == Some(j as int) && j < i
                        && best_start == c[j as int].at.lo(),
                    None => earliest_from(c, from as int, i as int) is None,
                },
            decreases n - i,
        {
            let start = candidates[i].at.start() as u64;
            if start >= from && (best.is_none() || start < best_start) {
                best = Some(i);
                best_start = start;
            }
            i = i + 1;
        }
        match best {
            Some(j) => {
                let at = candidates[j].at;
                let start = at.start();
                let end = at.end();
                proof {
                    lemma_earliest(c, from as int, n as int);
                    let rest = resolution_from(c, clear_of(c[j as int]));
                    assert(resolution_from(c, from as int) == seq![j as int] + rest);
                    assert(positions(accepted@.push(j)) =~= positions(accepted@) + seq![j as int]);
                    assert(positions(accepted@) + (seq![j as int] + rest) =~= (positions(accepted@)
                        + seq![j as int]) + rest);
                }
                accepted.push(j);
                from = if end > start {
                    end as u64
                } else {
                    start as u64 + 1
                };
            },
            None => {
                proof {
                    assert(positions(accepted@) + Seq::<int>::empty() =~= positions(accepted@));
                }
                break ;
            },
        }
    }
    accepted
}

} // verus!
