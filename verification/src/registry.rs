//! The registry of rules: for each kind of element, the rules that look at
//! elements of that kind, in the order in which they were registered.

use crate::kinds::SyntaxKind;
use crate::lints::{all_lints, lints, Lint};
use std::collections::HashMap;
use vstd::prelude::*;

verus! {

broadcast use vstd::std_specs::hash::group_hash_axioms;

/// The rules among `rules` that look at elements of kind `kind`, in the
/// order of `rules`.
pub open spec fn bucket_of(rules: Seq<Lint>, kind: SyntaxKind) -> Seq<Lint>
    decreases rules.len(),
{
    if rules.len() == 0 {
        Seq::empty()
    } else {
        let before = bucket_of(rules.drop_last(), kind);
        if rules.last().matches(kind) {
            before.push(rules.last())
        } else {
            before
        }
    }
}

/// The first rule among `rules` with the number `code`.
pub open spec fn rule_with_code(rules: Seq<Lint>, code: u32) -> Option<Lint>
    decreases rules.len(),
{
    if rules.len() == 0 {
        None
    } else if rules[0].number() == code {
        Some(rules[0])
    } else {
        rule_with_code(rules.drop_first(), code)
    }
}

/// The registry: the rules, and for each kind the rules that apply to it.
pub struct LintMap {
    rules: Vec<Lint>,
    buckets: HashMap<SyntaxKind, Vec<Lint>>,
}

impl View for LintMap {
    type V = Seq<Lint>;

    closed spec fn view(&self) -> Seq<Lint> {
        self.rules@
    }
}

/// Whether `buckets` holds, for each kind that a rule among `rules` looks
/// at, those rules, and nothing for any other kind; `extra` is a rule that
/// is registered, after `rules`, for the kinds `done` only.
spec fn sorted_into(
    buckets: Map<SyntaxKind, Vec<Lint>>,
    rules: Seq<Lint>,
    extra: Lint,
    done: Seq<SyntaxKind>,
) -> bool {
    forall|kind: SyntaxKind|
        {
            let expected = if done.contains(kind) {
                bucket_of(rules, kind).push(extra)
            } else {
                bucket_of(rules, kind)
            };
            &&& #[trigger] buckets.contains_key(kind) <==> expected.len() > 0
            &&& buckets.contains_key(kind) ==> buckets[kind]@ == expected
        }
}

impl LintMap {
    /// Every bucket holds the rules that look at its kind, in order.
    pub closed spec fn wf(&self) -> bool {
        forall|kind: SyntaxKind|
            {
                &&& #[trigger] self.buckets@.contains_key(kind) <==> bucket_of(self.rules@, kind).len()
                    > 0
                &&& self.buckets@.contains_key(kind) ==> self.buckets@[kind]@ == bucket_of(
                    self.rules@,
                    kind,
                )
            }
    }

    /// The registry of the rules `rules`.
    pub fn lint_map_of(rules: &Vec<Lint>) -> (r: LintMap)
        ensures
            r.wf(),
            r@ == rules@,
    {
        let mut buckets: HashMap<SyntaxKind, Vec<Lint>> = HashMap::new();
        let mut all: Vec<Lint> = Vec::new();
        let mut n: usize = 0;
        while n < rules.len()
            invariant
                n <= rules@.len(),
                all@ == rules@.take(n as int),
                forall|kind: SyntaxKind|
                    {
                        &&& #[trigger] buckets@.contains_key(kind) <==> bucket_of(all@, kind).len()
                            > 0
                        &&& buckets@.contains_key(kind) ==> buckets@[kind]@ == bucket_of(all@, kind)
                    },
            decreases rules@.len() - n,
        {
            let rule = rules[n];
            let kinds = rule.match_kind();
            let mut j: usize = 0;
            proof {
                assert(kinds@.take(0) =~= Seq::<SyntaxKind>::empty());
            }
            while j < kinds.len()
                invariant
                    j <= kinds@.len(),
                    kinds@.no_duplicates(),
                    sorted_into(buckets@, all@, rule, kinds@.take(j as int)),
                decreases kinds@.len() - j,
            {
                let kind = kinds[j];
                let mut bucket = match buckets.remove(&kind) {
                    Some(bucket) => bucket,
                    None => Vec::new(),
                };
                proof {
                    assert(!kinds@.take(j as int).contains(kind)) by {
                        if kinds@.take(j as int).contains(kind) {
                            let k = choose|k: int|
                                0 <= k < j && kinds@.take(j as int)[k] == kind;
                            assert(kinds@[k] == kinds@[j as int]);
                        }
                    }
                    assert(bucket@ == bucket_of(all@, kind));
                }
                bucket.push(rule);
                let ghost before = buckets@;
                buckets.insert(kind, bucket);
                proof {
                    let done = kinds@.take(j as int);
                    let next = kinds@.take(j + 1);
                    assert(next == done.push(kind));
                    assert forall|other: SyntaxKind|
                        {
                            let expected = if next.contains(other) {
                                bucket_of(all@, other).push(rule)
                            } else {
                                bucket_of(all@, other)
                            };
                            &&& #[trigger] buckets@.contains_key(other) <==> expected.len() > 0
                            &&& buckets@.contains_key(other) ==> buckets@[other]@ == expected
                        } by {
                        if other != kind {
                            assert(next.contains(other) <==> done.contains(other)) by {
                                if done.contains(other) {
                                    let k = choose|k: int| 0 <= k < done.len() && done[k] == other;
                                    assert(next[k] == other);
                                }
                                if next.contains(other) {
                                    let k = choose|k: int| 0 <= k < next.len() && next[k] == other;
                                    assert(done[k] == other);
                                }
                            }
                            assert(before.contains_key(other) <==> buckets@.contains_key(other));
                        } else {
                            assert(next[j as int] == kind);
                        }
                    }
                }
                j = j + 1;
            }
            proof {
                let longer = rules@.take(n + 1);
                assert(longer.drop_last() == all@);
                assert(longer.last() == rule);
                assert(kinds@.take(kinds@.len() as int) == kinds@);
                assert forall|kind: SyntaxKind|
                    {
                        &&& #[trigger] buckets@.contains_key(kind) <==> bucket_of(longer, kind).len()
                            > 0
                        &&& buckets@.contains_key(kind) ==> buckets@[kind]@ == bucket_of(longer, kind)
                    } by {
                    assert(kinds@.contains(kind) <==> rule.matches(kind));
                }
                assert(all@.push(rule) == longer);
            }
            all.push(rule);
            n = n + 1;
        }
        proof {
            assert(rules@.take(rules@.len() as int) == rules@);
        }
        LintMap { rules: all, buckets }
    }

    /// The registry of all rules of the linter.
    pub fn lint_map() -> (r: LintMap)
        ensures
            r.wf(),
            r@ == all_lints(),
    {
        let all = lints();
        LintMap::lint_map_of(&all)
    }

    /// All registered rules, in the order of registration.
    pub fn all(&self) -> (r: &Vec<Lint>)
        ensures
            r@ == self@,
    {
        &self.rules
    }

    /// The rules that look at elements of kind `kind`, in the order of
    /// registration; `None` where there is none.
    pub fn get(&self, kind: SyntaxKind) -> (r: Option<&Vec<Lint>>)
        requires
            self.wf(),
        ensures
            match r {
                Some(bucket) => bucket@ == bucket_of(self@, kind) && bucket@.len() > 0,
                None => bucket_of(self@, kind).len() == 0,
            },
    {
        let r = self.buckets.get(&kind);
        proof {
            assert(self.buckets@.contains_key(kind) <==> bucket_of(self.rules@, kind).len() > 0);
        }
        r
    }

    /// The first registered rule with the number `code`.
    pub fn by_code(&self, code: u32) -> (r: Option<Lint>)
        ensures
            r == rule_with_code(self@, code),
    {
        let mut n: usize = 0;
        proof {
            assert(self.rules@.skip(0) == self.rules@);
        }
        while n < self.rules.len()
            invariant
                n <= self.rules@.len(),
                rule_with_code(self.rules@, code) == rule_with_code(self.rules@.skip(n as int), code),
            decreases self.rules@.len() - n,
        {
            let rule = self.rules[n];
            proof {
                assert(self.rules@.skip(n as int).drop_first() == self.rules@.skip(n + 1));
            }
            if rule.code() == code {
                return Some(rule);
            }
            n = n + 1;
        }
        None
    }
}

} // verus!
