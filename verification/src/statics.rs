//! The time-independent, cacheable part of one commit's contribution.
//!
//! A commit's diff yields one record per changed entry: the post-change path
//! and the post-change content identifier (lowercase hex). An entry scores
//! only if it has a path and its identifier is not the null (all-zero)
//! identifier, which marks a deletion. The scorable entries, paired with the
//! size penalty of their content, form the commit's `CommitStatics`.

use vstd::prelude::*;
use crate::arith::SCALE;

verus! {

/// One changed entry of a commit's diff, as the backend reports it.
pub struct DeltaRecord {
    /// The post-change path; absent for entries the backend cannot name.
    pub path: Option<Vec<u8>>,
    /// The post-change content identifier, in lowercase hex.
    pub new_id: Vec<u8>,
}

/// One scorable contribution: a path and its size penalty in score units.
#[derive(Clone)]
pub struct PathContribution {
    pub path: Vec<u8>,
    pub penalty: u64,
}

/// The cacheable list of contributions of one commit.
#[derive(Clone)]
pub struct CommitStatics {
    pub contribs: Vec<PathContribution>,
}

/// The mathematical content of a statics record: (path, penalty) pairs.
pub open spec fn statics_view(s: CommitStatics) -> Seq<(Seq<u8>, u64)> {
    s.contribs@.map_values(|c: PathContribution| (c.path@, c.penalty))
}

impl CommitStatics {
    /// Every penalty lies in (0, 1] in score units.
    pub open spec fn wf(self) -> bool {
        forall|i: int|
            0 <= i < self.contribs@.len() ==> 1 <= #[trigger] self.contribs@[i].penalty <= SCALE
    }

    pub fn new() -> (r: CommitStatics)
        ensures
            r.wf(),
            statics_view(r) == Seq::<(Seq<u8>, u64)>::empty(),
    {
        let r = CommitStatics { contribs: Vec::new() };
        proof {
            assert(statics_view(r) =~= Seq::<(Seq<u8>, u64)>::empty());
        }
        r
    }
}

/// The null content identifier: every hex digit is '0'. It denotes absent
/// content, i.e. a deletion.
pub open spec fn is_null_id(id: Seq<u8>) -> bool {
    forall|i: int| 0 <= i < id.len() ==> id[i] == 48u8
}

/// Whether a diff record contributes at all: it must carry a path and its
/// post-change identifier must denote content.
pub open spec fn delta_scores(d: DeltaRecord) -> bool {
    &&& d.path is Some
    &&& !is_null_id(d.new_id@)
}

/// The scorable (path, content identifier) pairs of a diff, in order.
pub open spec fn scorable_of(ds: Seq<DeltaRecord>) -> Seq<(Seq<u8>, Seq<u8>)>
    decreases ds.len(),
{
    if ds.len() == 0 {
        Seq::empty()
    } else {
        let rest = scorable_of(ds.drop_last());
        if delta_scores(ds.last()) {
            rest.push((ds.last().path->Some_0@, ds.last().new_id@))
        } else {
            rest
        }
    }
}

/// A deleted file contributes nothing: a record whose post-change identifier
/// is null leaves the scorable entries of a diff unchanged, even though the
/// record itself appears in the diff.
pub proof fn lemma_deletion_contributes_nothing(ds: Seq<DeltaRecord>, d: DeltaRecord)
    requires
        is_null_id(d.new_id@),
    ensures
        scorable_of(ds.push(d)) == scorable_of(ds),
{
    assert(ds.push(d).drop_last() =~= ds);
}

/// A record the backend cannot name contributes nothing either.
pub proof fn lemma_unnamed_contributes_nothing(ds: Seq<DeltaRecord>, d: DeltaRecord)
    requires
        d.path is None,
    ensures
        scorable_of(ds.push(d)) == scorable_of(ds),
{
    assert(ds.push(d).drop_last() =~= ds);
}

/// The views of a vector of scorable pairs.
pub open spec fn pair_views(s: Seq<(Vec<u8>, Vec<u8>)>) -> Seq<(Seq<u8>, Seq<u8>)> {
    s.map_values(|e: (Vec<u8>, Vec<u8>)| (e.0@, e.1@))
}

fn is_null_id_exec(id: &Vec<u8>) -> (r: bool)
    ensures
        r == is_null_id(id@),
{
    let n = id.len();
    let mut i: usize = 0;
    while i < n
        invariant
            n == id@.len(),
            i <= n,
            forall|j: int| 0 <= j < i ==> id@[j] == 48u8,
        decreases n - i,
    {
        if id[i] != 48u8 {
            return false;
        }
        i = i + 1;
    }
    true
}

/// Filter a diff down to its scorable entries, in order.
pub fn scorable_entries(ds: &Vec<DeltaRecord>) -> (r: Vec<(Vec<u8>, Vec<u8>)>)
    ensures
        pair_views(r@) == scorable_of(ds@),
{
    let mut r: Vec<(Vec<u8>, Vec<u8>)> = Vec::new();
    let n = ds.len();
    let mut i: usize = 0;
    proof {
        assert(pair_views(r@) =~= scorable_of(ds@.take(0)));
    }
    while i < n
        invariant
            n == ds@.len(),
            i <= n,
            pair_views(r@) == scorable_of(ds@.take(i as int)),
        decreases n - i,
    {
        proof {
            assert(ds@.take(i as int + 1).drop_last() =~= ds@.take(i as int));
            assert(ds@.take(i as int + 1).last() == ds@[i as int]);
        }
        match &ds[i].path {
            Some(p) => {
                if !is_null_id_exec(&ds[i].new_id) {
                    let entry = (p.clone(), ds[i].new_id.clone());
                    proof {
                        assert(entry.0@ =~= ds@[i as int].path->Some_0@);
                        assert(entry.1@ =~= ds@[i as int].new_id@);
                    }
                    r.push(entry);
                    proof {
                        assert(pair_views(r@) =~= scorable_of(ds@.take(i as int + 1)));
                    }
                }
            },
            None => {},
        }
        proof {
            assert(pair_views(r@) =~= scorable_of(ds@.take(i as int + 1)));
        }
        i = i + 1;
    }
    proof {
        assert(ds@.take(n as int) =~= ds@);
    }
    r
}

} // verus!
