//! The per-path score accumulator.
//!
//! A `ScoreMap` maps a relative file path (as bytes) to an accumulated score.
//! Its meaning is the function `spec_get`, the saturating sum of the values of
//! all entries carrying the path; the representation keeps each path at most
//! once. Because addition of contributions saturates and is associative and
//! commutative, merging partial maps in any grouping yields the same totals.

use vstd::prelude::*;
use crate::arith::{sat_add, sat_add_spec, lemma_sat_add_assoc};

verus! {

/// Equality of two byte strings, reflected to their views.
pub fn bytes_eq(a: &Vec<u8>, b: &Vec<u8>) -> (r: bool)
    ensures
        r <==> a@ == b@,
{
    let r = a == b;
    proof {
        if r {
            assert(a@ =~= b@);
        } else {
            if a@ == b@ {
                assert(a.len() == b.len());
                assert(forall|i: int| 0 <= i < a@.len() ==> a@[i] == b@[i]);
                assert(false);
            }
        }
    }
    r
}

pub struct ScoreMap {
    pub entries: Vec<(Vec<u8>, u64)>,
}

/// The saturating sum of the values of all entries whose path is `p`.
pub open spec fn pairs_sum(s: Seq<(Vec<u8>, u64)>, p: Seq<u8>) -> int
    decreases s.len(),
{
    if s.len() == 0 {
        0
    } else {
        sat_add_spec(
            pairs_sum(s.drop_last(), p),
            if s.last().0@ == p {
                s.last().1 as int
            } else {
                0
            },
        )
    }
}

pub proof fn lemma_pairs_sum_bounds(s: Seq<(Vec<u8>, u64)>, p: Seq<u8>)
    ensures
        0 <= pairs_sum(s, p) <= u64::MAX,
    decreases s.len(),
{
    if s.len() > 0 {
        lemma_pairs_sum_bounds(s.drop_last(), p);
    }
}

impl ScoreMap {
    /// The score of path `p`: zero when no entry carries it.
    pub open spec fn spec_get(self, p: Seq<u8>) -> int {
        pairs_sum(self.entries@, p)
    }

    /// Each path occurs in at most one entry.
    pub open spec fn wf(self) -> bool {
        forall|i: int, j: int|
            0 <= i < j < self.entries@.len() ==> self.entries@[i].0@ != self.entries@[j].0@
    }

    pub fn new() -> (r: ScoreMap)
        ensures
            r.wf(),
            forall|p: Seq<u8>| r.spec_get(p) == 0,
    {
        ScoreMap { entries: Vec::new() }
    }

    /// Read one path's accumulated score.
    pub fn get(&self, path: &Vec<u8>) -> (r: u64)
        requires
            self.wf(),
        ensures
            r == self.spec_get(path@),
    {
        let n = self.entries.len();
        let mut i: usize = 0;
        while i < n
            invariant
                n == self.entries@.len(),
                i <= n,
                self.wf(),
                forall|j: int| 0 <= j < i ==> self.entries@[j].0@ != path@,
            decreases n - i,
        {
            if bytes_eq(&self.entries[i].0, path) {
                let v = self.entries[i].1;
                proof {
                    lemma_pairs_sum_unique(self.entries@, path@, i as int);
                }
                return v;
            }
            i = i + 1;
        }
        proof {
            lemma_pairs_sum_absent(self.entries@, path@);
        }
        0
    }

    /// Add `amount` to `path`'s score, saturating; other paths are unchanged.
    pub fn add_score(&mut self, path: &Vec<u8>, amount: u64)
        requires
            old(self).wf(),
        ensures
            final(self).wf(),
            forall|p: Seq<u8>|
                final(self).spec_get(p) == if p == path@ {
                    sat_add_spec(old(self).spec_get(p), amount as int)
                } else {
                    old(self).spec_get(p)
                },
    {
        let n = self.entries.len();
        let mut i: usize = 0;
        while i < n
            invariant
                n == self.entries@.len(),
                i <= n,
                self.wf(),
                *self == *old(self),
                forall|j: int| 0 <= j < i ==> self.entries@[j].0@ != path@,
            decreases n - i,
        {
            if bytes_eq(&self.entries[i].0, path) {
                let v = sat_add(self.entries[i].1, amount);
                let key = path.clone();
                proof {
                    assert(key@ =~= path@);
                }
                let ghost s1 = self.entries@;
                self.entries[i] = (key, v);
                proof {
                    assert forall|p: Seq<u8>|
                        pairs_sum(self.entries@, p) == (if p == path@ {
                            sat_add_spec(pairs_sum(s1, p), amount as int)
                        } else {
                            pairs_sum(s1, p)
                        }) by {
                        lemma_pairs_sum_bump(s1, self.entries@, i as int, amount, p);
                    }
                }
                return ;
            }
            i = i + 1;
        }
        let key = path.clone();
        proof {
            assert(key@ =~= path@);
        }
        let ghost s1 = self.entries@;
        self.entries.push((key, amount));
        proof {
            assert(self.entries@.drop_last() =~= s1);
            assert forall|p: Seq<u8>|
                pairs_sum(self.entries@, p) == (if p == path@ {
                    sat_add_spec(pairs_sum(s1, p), amount as int)
                } else {
                    pairs_sum(s1, p)
                }) by {
                lemma_pairs_sum_bounds(s1, p);
            }
        }
    }

    /// Pointwise saturating addition of `other` into `self`.
    pub fn merge_from(&mut self, other: &ScoreMap)
        requires
            old(self).wf(),
        ensures
            final(self).wf(),
            forall|p: Seq<u8>|
                final(self).spec_get(p) == sat_add_spec(
                    old(self).spec_get(p),
                    other.spec_get(p),
                ),
    {
        let n = other.entries.len();
        let mut i: usize = 0;
        while i < n
            invariant
                n == other.entries@.len(),
                i <= n,
                self.wf(),
                forall|p: Seq<u8>|
                    self.spec_get(p) == sat_add_spec(
                        old(self).spec_get(p),
                        pairs_sum(other.entries@.take(i as int), p),
                    ),
            decreases n - i,
        {
            let ghost before = *self;
            self.add_score(&other.entries[i].0, other.entries[i].1);
            proof {
                let ghost key = other.entries@[i as int].0@;
                let ghost v = other.entries@[i as int].1;
                assert forall|p: Seq<u8>|
                    self.spec_get(p) == sat_add_spec(
                        old(self).spec_get(p),
                        pairs_sum(other.entries@.take(i as int + 1), p),
                    ) by {
                    assert(other.entries@.take(i as int + 1).drop_last() =~= other.entries@.take(
                        i as int,
                    ));
                    lemma_pairs_sum_bounds(other.entries@.take(i as int), p);
                    lemma_pairs_sum_bounds(old(self).entries@, p);
                    if p == key {
                        lemma_sat_add_assoc(
                            old(self).spec_get(p),
                            pairs_sum(other.entries@.take(i as int), p),
                            v as int,
                        );
                    }
                }
            }
            i = i + 1;
        }
        proof {
            assert(other.entries@.take(n as int) =~= other.entries@);
        }
    }
}

/// A consuming merge, for combining partial maps pairwise.
pub fn merged(a: ScoreMap, b: ScoreMap) -> (r: ScoreMap)
    requires
        a.wf(),
    ensures
        r.wf(),
        forall|p: Seq<u8>| r.spec_get(p) == sat_add_spec(a.spec_get(p), b.spec_get(p)),
{
    let mut a = a;
    a.merge_from(&b);
    a
}

/// With unique paths, the sum at a present path is that entry's value.
pub proof fn lemma_pairs_sum_unique(s: Seq<(Vec<u8>, u64)>, p: Seq<u8>, i: int)
    requires
        0 <= i < s.len(),
        s[i].0@ == p,
        forall|j: int, k: int| 0 <= j < k < s.len() ==> s[j].0@ != s[k].0@,
    ensures
        pairs_sum(s, p) == s[i].1,
    decreases s.len(),
{
    if i == s.len() - 1 {
        lemma_pairs_sum_absent(s.drop_last(), p);
    } else {
        lemma_pairs_sum_unique(s.drop_last(), p, i);
        lemma_pairs_sum_bounds(s.drop_last(), p);
    }
}

/// A path carried by no entry sums to zero.
pub proof fn lemma_pairs_sum_absent(s: Seq<(Vec<u8>, u64)>, p: Seq<u8>)
    requires
        forall|j: int| 0 <= j < s.len() ==> s[j].0@ != p,
    ensures
        pairs_sum(s, p) == 0,
    decreases s.len(),
{
    if s.len() > 0 {
        lemma_pairs_sum_absent(s.drop_last(), p);
    }
}

/// Raising one entry's value by `amount` (saturating) raises the sum at its
/// path by `amount` and leaves every other path's sum unchanged.
pub proof fn lemma_pairs_sum_bump(
    s1: Seq<(Vec<u8>, u64)>,
    s2: Seq<(Vec<u8>, u64)>,
    i: int,
    amount: u64,
    p: Seq<u8>,
)
    requires
        s1.len() == s2.len(),
        0 <= i < s1.len(),
        forall|j: int| 0 <= j < s1.len() && j != i ==> s2[j] == s1[j],
        s2[i].0@ == s1[i].0@,
        s2[i].1 as int == sat_add_spec(s1[i].1 as int, amount as int),
    ensures
        pairs_sum(s2, p) == if s1[i].0@ == p {
            sat_add_spec(pairs_sum(s1, p), amount as int)
        } else {
            pairs_sum(s1, p)
        },
    decreases s1.len(),
{
    lemma_pairs_sum_bounds(s1.drop_last(), p);
    if i == s1.len() - 1 {
        assert(s2.drop_last() =~= s1.drop_last());
        if s1[i].0@ == p {
            lemma_sat_add_assoc(pairs_sum(s1.drop_last(), p), s1[i].1 as int, amount as int);
        }
    } else {
        lemma_pairs_sum_bump(s1.drop_last(), s2.drop_last(), i, amount, p);
        if s1[i].0@ == p {
            lemma_pairs_sum_bounds(s1, p);
            lemma_sat_add_assoc(
                pairs_sum(s1.drop_last(), p),
                amount as int,
                if s1.last().0@ == p {
                    s1.last().1 as int
                } else {
                    0
                },
            );
            lemma_sat_add_assoc(
                pairs_sum(s1.drop_last(), p),
                if s1.last().0@ == p {
                    s1.last().1 as int
                } else {
                    0
                },
                amount as int,
            );
        }
    }
}

} // verus!
