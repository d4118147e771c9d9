//! The scoring engine: what each commit contributes to each path, and the
//! laws that make chunked, cached processing equal to a straight walk.

use vstd::prelude::*;
use vstd::arithmetic::div_mod::{
    lemma_div_basics, lemma_div_is_ordered_by_denominator, lemma_div_pos_is_pos,
};
use crate::arith::{
    age_days, age_of, contrib_spec, contrib_amount, sat_add_spec, lemma_sat_add_assoc, AGE_MAX,
};
use crate::score_map::ScoreMap;
use crate::score_map::bytes_eq;
use crate::statics::{CommitStatics, statics_view};

verus! {

/// The optional path filter, as a set of path views.
pub open spec fn filter_view(f: Option<Vec<Vec<u8>>>) -> Option<Seq<Seq<u8>>> {
    match f {
        None => None,
        Some(v) => Some(v@.map_values(|x: Vec<u8>| x@)),
    }
}

/// Whether a path passes the filter: no filter admits every path.
pub open spec fn passes(fv: Option<Seq<Seq<u8>>>, p: Seq<u8>) -> bool {
    match fv {
        None => true,
        Some(s) => s.contains(p),
    }
}

pub fn passes_filter(filter: &Option<Vec<Vec<u8>>>, path: &Vec<u8>) -> (r: bool)
    ensures
        r == passes(filter_view(*filter), path@),
{
    match filter {
        None => true,
        Some(f) => {
            let ghost s = filter_view(*filter)->Some_0;
            let n = f.len();
            let mut i: usize = 0;
            while i < n
                invariant
                    n == f@.len(),
                    i <= n,
                    s == f@.map_values(|x: Vec<u8>| x@),
                    filter_view(*filter) == Some(s),
                    forall|j: int| 0 <= j < i ==> f@[j]@ != path@,
                decreases n - i,
            {
                if bytes_eq(&f[i], path) {
                    proof {
                        assert(s[i as int] == path@);
                        assert(s.contains(path@));
                    }
                    return true;
                }
                i = i + 1;
            }
            proof {
                assert forall|j: int| 0 <= j < s.len() implies s[j] != path@ by {
                    assert(s[j] == f@[j]@);
                }
                assert(!s.contains(path@));
            }
            false
        },
    }
}

/// Everything the engine needs of one commit: its recorded time, its parent
/// count, and its cached statics.
#[derive(Clone)]
pub struct CommitData {
    pub time_secs: i64,
    pub parent_count: u64,
    pub statics: CommitStatics,
}

/// What a statics list contributes to path `p` under a filter, decayed by
/// `age`: the saturating sum over its entries carrying `p`, each admitted only
/// if `p` passes the filter.
pub open spec fn entries_score(
    es: Seq<(Seq<u8>, u64)>,
    fv: Option<Seq<Seq<u8>>>,
    age: int,
    p: Seq<u8>,
) -> int
    decreases es.len(),
{
    if es.len() == 0 {
        0
    } else {
        sat_add_spec(
            entries_score(es.drop_last(), fv, age, p),
            if es.last().0 == p && passes(fv, es.last().0) {
                contrib_spec(es.last().1, age)
            } else {
                0
            },
        )
    }
}

/// One commit's contribution to path `p`: zero for a merge commit (more than
/// one parent), else its statics decayed by the commit's age at `now`.
pub open spec fn commit_score(
    c: CommitData,
    fv: Option<Seq<Seq<u8>>>,
    now: int,
    p: Seq<u8>,
) -> int {
    if c.parent_count > 1 {
        0
    } else {
        entries_score(statics_view(c.statics), fv, age_of(now, c.time_secs as int), p)
    }
}

/// A commit sequence's total contribution to path `p`.
pub open spec fn chunk_score(
    cs: Seq<CommitData>,
    fv: Option<Seq<Seq<u8>>>,
    now: int,
    p: Seq<u8>,
) -> int
    decreases cs.len(),
{
    if cs.len() == 0 {
        0
    } else {
        sat_add_spec(
            chunk_score(cs.drop_last(), fv, now, p),
            commit_score(cs.last(), fv, now, p),
        )
    }
}

pub proof fn lemma_age_nonneg(now: int, t: int)
    ensures
        age_of(now, t) >= 0,
{
    if now > t {
        lemma_div_pos_is_pos(now - t, 86400);
    }
}

pub proof fn lemma_contrib_bounds(penalty: u64, age: int)
    requires
        age >= 0,
    ensures
        0 <= contrib_spec(penalty, age) <= penalty,
{
    let d = (age + 1) * (age + 1);
    assert(1 <= (age + 1) * (age + 1)) by (nonlinear_arith)
        requires
            age >= 0,
    ;
    lemma_div_pos_is_pos(penalty as int, d);
    lemma_div_is_ordered_by_denominator(penalty as int, 1, d);
    lemma_div_basics(penalty as int);
}

pub proof fn lemma_entries_bounds(
    es: Seq<(Seq<u8>, u64)>,
    fv: Option<Seq<Seq<u8>>>,
    age: int,
    p: Seq<u8>,
)
    requires
        age >= 0,
    ensures
        0 <= entries_score(es, fv, age, p) <= u64::MAX,
    decreases es.len(),
{
    if es.len() > 0 {
        lemma_entries_bounds(es.drop_last(), fv, age, p);
        lemma_contrib_bounds(es.last().1, age);
    }
}

pub proof fn lemma_commit_bounds(c: CommitData, fv: Option<Seq<Seq<u8>>>, now: int, p: Seq<u8>)
    ensures
        0 <= commit_score(c, fv, now, p) <= u64::MAX,
{
    lemma_age_nonneg(now, c.time_secs as int);
    if c.parent_count <= 1 {
        lemma_entries_bounds(statics_view(c.statics), fv, age_of(now, c.time_secs as int), p);
    }
}

pub proof fn lemma_chunk_bounds(cs: Seq<CommitData>, fv: Option<Seq<Seq<u8>>>, now: int, p: Seq<u8>)
    ensures
        0 <= chunk_score(cs, fv, now, p) <= u64::MAX,
    decreases cs.len(),
{
    if cs.len() > 0 {
        lemma_chunk_bounds(cs.drop_last(), fv, now, p);
        lemma_commit_bounds(cs.last(), fv, now, p);
    }
}

/// Score a gathered sequence of commits: the exact, filtered, decayed,
/// saturating accumulation that `chunk_score` states.
pub fn score_commits(data: &Vec<CommitData>, filter: &Option<Vec<Vec<u8>>>, now: i64) -> (r:
    ScoreMap)
    ensures
        r.wf(),
        forall|p: Seq<u8>| r.spec_get(p) == chunk_score(data@, filter_view(*filter), now as int, p),
{
    let ghost fv = filter_view(*filter);
    let mut map = ScoreMap::new();
    let n = data.len();
    let mut j: usize = 0;
    proof {
        assert(data@.take(0) =~= Seq::<CommitData>::empty());
    }
    while j < n
        invariant
            n == data@.len(),
            j <= n,
            map.wf(),
            fv == filter_view(*filter),
            forall|p: Seq<u8>|
                map.spec_get(p) == chunk_score(data@.take(j as int), fv, now as int, p),
        decreases n - j,
    {
        let c = &data[j];
        proof {
            assert(data@.take(j as int + 1).drop_last() =~= data@.take(j as int));
            assert(data@.take(j as int + 1).last() == data@[j as int]);
        }
        if c.parent_count <= 1 {
            let age = age_days(now, c.time_secs);
            let ghost sv = statics_view(c.statics);
            let m = c.statics.contribs.len();
            let mut k: usize = 0;
            proof {
                assert(sv.take(0) =~= Seq::<(Seq<u8>, u64)>::empty());
                assert forall|p: Seq<u8>|
                    map.spec_get(p) == sat_add_spec(
                        chunk_score(data@.take(j as int), fv, now as int, p),
                        entries_score(sv.take(0), fv, age as int, p),
                    ) by {
                    lemma_chunk_bounds(data@.take(j as int), fv, now as int, p);
                }
            }
            while k < m
                invariant
                    k <= m,
                    m == c.statics.contribs@.len(),
                    n == data@.len(),
                    j < n,
                    c == &data[j as int],
                    sv == statics_view(c.statics),
                    age as int == age_of(now as int, c.time_secs as int),
                    age <= AGE_MAX,
                    map.wf(),
                    fv == filter_view(*filter),
                    forall|p: Seq<u8>|
                        map.spec_get(p) == sat_add_spec(
                            chunk_score(data@.take(j as int), fv, now as int, p),
                            entries_score(sv.take(k as int), fv, age as int, p),
                        ),
                decreases m - k,
            {
                let pc = &c.statics.contribs[k];
                proof {
                    assert(sv.take(k as int + 1).drop_last() =~= sv.take(k as int));
                    assert(sv.take(k as int + 1).last() == sv[k as int]);
                    assert(sv[k as int] == (pc.path@, pc.penalty));
                    lemma_age_nonneg(now as int, c.time_secs as int);
                }
                if passes_filter(filter, &pc.path) {
                    let amt = contrib_amount(pc.penalty, age);
                    if amt > 0 {
                        map.add_score(&pc.path, amt);
                    }
                    proof {
                        assert forall|p: Seq<u8>|
                            map.spec_get(p) == sat_add_spec(
                                chunk_score(data@.take(j as int), fv, now as int, p),
                                entries_score(sv.take(k as int + 1), fv, age as int, p),
                            ) by {
                            let chunk = chunk_score(data@.take(j as int), fv, now as int, p);
                            let entr = entries_score(sv.take(k as int), fv, age as int, p);
                            lemma_chunk_bounds(data@.take(j as int), fv, now as int, p);
                            lemma_entries_bounds(sv.take(k as int), fv, age as int, p);
                            lemma_contrib_bounds(pc.penalty, age as int);
                            if amt > 0 && p == pc.path@ {
                                lemma_sat_add_assoc(chunk, entr, contrib_spec(pc.penalty, age as int));
                            }
                        }
                    }
                } else {
                    proof {
                        assert forall|p: Seq<u8>|
                            map.spec_get(p) == sat_add_spec(
                                chunk_score(data@.take(j as int), fv, now as int, p),
                                entries_score(sv.take(k as int + 1), fv, age as int, p),
                            ) by {
                            lemma_entries_bounds(sv.take(k as int), fv, age as int, p);
                        }
                    }
                }
                k = k + 1;
            }
            proof {
                assert(sv.take(m as int) =~= sv);
                assert forall|p: Seq<u8>|
                    map.spec_get(p) == chunk_score(data@.take(j as int + 1), fv, now as int, p)
                    by {
                    assert(commit_score(data@[j as int], fv, now as int, p) == entries_score(
                        sv,
                        fv,
                        age as int,
                        p,
                    ));
                }
            }
        } else {
            proof {
                assert forall|p: Seq<u8>|
                    map.spec_get(p) == chunk_score(data@.take(j as int + 1), fv, now as int, p)
                    by {
                    assert(commit_score(data@[j as int], fv, now as int, p) == 0);
                    lemma_chunk_bounds(data@.take(j as int), fv, now as int, p);
                }
            }
        }
        j = j + 1;
    }
    proof {
        assert(data@.take(n as int) =~= data@);
    }
    map
}

/// A merge commit (two or more parents) contributes nothing to any path,
/// under any filter, at any reference time.
pub proof fn lemma_merge_commit_scores_zero(
    c: CommitData,
    fv: Option<Seq<Seq<u8>>>,
    now: int,
    p: Seq<u8>,
)
    requires
        c.parent_count >= 2,
    ensures
        commit_score(c, fv, now, p) == 0,
{
}

/// A path the filter rejects scores zero over any commit sequence.
pub proof fn lemma_non_passing_scores_zero(
    cs: Seq<CommitData>,
    fv: Option<Seq<Seq<u8>>>,
    now: int,
    p: Seq<u8>,
)
    requires
        !passes(fv, p),
    ensures
        chunk_score(cs, fv, now, p) == 0,
    decreases cs.len(),
{
    if cs.len() > 0 {
        lemma_non_passing_scores_zero(cs.drop_last(), fv, now, p);
        let c = cs.last();
        if c.parent_count <= 1 {
            lemma_entries_non_passing(
                statics_view(c.statics),
                fv,
                age_of(now, c.time_secs as int),
                p,
            );
        }
    }
}

proof fn lemma_entries_non_passing(
    es: Seq<(Seq<u8>, u64)>,
    fv: Option<Seq<Seq<u8>>>,
    age: int,
    p: Seq<u8>,
)
    requires
        !passes(fv, p),
    ensures
        entries_score(es, fv, age, p) == 0,
    decreases es.len(),
{
    if es.len() > 0 {
        lemma_entries_non_passing(es.drop_last(), fv, age, p);
    }
}

proof fn lemma_entries_filter_invariant(es: Seq<(Seq<u8>, u64)>, f: Seq<Seq<u8>>, age: int, p: Seq<u8>)
    requires
        f.contains(p),
    ensures
        entries_score(es, Some(f), age, p) == entries_score(es, None, age, p),
    decreases es.len(),
{
    if es.len() > 0 {
        lemma_entries_filter_invariant(es.drop_last(), f, age, p);
    }
}

/// A filter does not change the score of a path it includes: filtering only
/// restricts which paths appear, never how much an included path scores.
pub proof fn lemma_filter_keeps_included_scores(
    cs: Seq<CommitData>,
    f: Seq<Seq<u8>>,
    now: int,
    p: Seq<u8>,
)
    requires
        f.contains(p),
    ensures
        chunk_score(cs, Some(f), now, p) == chunk_score(cs, None, now, p),
    decreases cs.len(),
{
    if cs.len() > 0 {
        lemma_filter_keeps_included_scores(cs.drop_last(), f, now, p);
        let c = cs.last();
        if c.parent_count <= 1 {
            lemma_entries_filter_invariant(
                statics_view(c.statics),
                f,
                age_of(now, c.time_secs as int),
                p,
            );
        }
    }
}

/// The totals of a partition of the commit sequence, merged chunk by chunk.
pub open spec fn chunks_total(
    chunks: Seq<Seq<CommitData>>,
    fv: Option<Seq<Seq<u8>>>,
    now: int,
    p: Seq<u8>,
) -> int
    decreases chunks.len(),
{
    if chunks.len() == 0 {
        0
    } else {
        sat_add_spec(
            chunks_total(chunks.drop_last(), fv, now, p),
            chunk_score(chunks.last(), fv, now, p),
        )
    }
}

/// Scoring two runs of commits separately and adding equals scoring their
/// concatenation.
pub proof fn lemma_chunk_score_concat(
    a: Seq<CommitData>,
    b: Seq<CommitData>,
    fv: Option<Seq<Seq<u8>>>,
    now: int,
    p: Seq<u8>,
)
    ensures
        chunk_score(a + b, fv, now, p) == sat_add_spec(
            chunk_score(a, fv, now, p),
            chunk_score(b, fv, now, p),
        ),
    decreases b.len(),
{
    lemma_chunk_bounds(a, fv, now, p);
    if b.len() == 0 {
        assert(a + b =~= a);
    } else {
        assert((a + b).drop_last() =~= a + b.drop_last());
        assert((a + b).last() == b.last());
        lemma_chunk_score_concat(a, b.drop_last(), fv, now, p);
        lemma_chunk_bounds(b.drop_last(), fv, now, p);
        lemma_commit_bounds(b.last(), fv, now, p);
        lemma_sat_add_assoc(
            chunk_score(a, fv, now, p),
            chunk_score(b.drop_last(), fv, now, p),
            commit_score(b.last(), fv, now, p),
        );
    }
}

/// Partition invariance: splitting a commit sequence into chunks of any
/// sizes, scoring each chunk on its own, and merging the partial totals
/// yields exactly the score of the whole sequence. Chunk boundaries and
/// processing order cannot change any path's score.
pub proof fn lemma_partition_invariance(
    chunks: Seq<Seq<CommitData>>,
    fv: Option<Seq<Seq<u8>>>,
    now: int,
    p: Seq<u8>,
)
    ensures
        chunks_total(chunks, fv, now, p) == chunk_score(chunks.flatten(), fv, now, p),
    decreases chunks.len(),
{
    chunks.lemma_flatten_and_flatten_alt_are_equivalent();
    if chunks.len() == 0 {
        assert(chunks.flatten() =~= Seq::<CommitData>::empty());
    } else {
        lemma_partition_invariance(chunks.drop_last(), fv, now, p);
        chunks.drop_last().lemma_flatten_and_flatten_alt_are_equivalent();
        lemma_chunk_score_concat(chunks.drop_last().flatten(), chunks.last(), fv, now, p);
        assert(chunks.flatten_alt() == chunks.drop_last().flatten_alt() + chunks.last());
    }
}

} // verus!
