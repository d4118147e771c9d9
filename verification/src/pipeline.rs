//! The orchestration around the verified scoring core: walking the history,
//! memoizing blob sizes, caching per-commit statics, and fanning chunks out
//! to workers.

use vstd::prelude::*;
use rayon::slice::ParallelSlice;
use rayon::iter::ParallelIterator;
use crate::arith::penalty_fp;
use crate::backend::{
    BackendError, blob_size, cache_get, cache_open, cache_put, canonical_repo_path, commit_diff,
    commit_meta, diff_records, now_secs, repo_discover, repo_open, revwalk_first_parent,
    revwalk_next, sha256_of, sha256_bytes,
};
use crate::codec::{decode_statics, encode_statics};
use crate::engine::{
    CommitData, filter_view, passes, score_commits, lemma_non_passing_scores_zero,
};
use crate::score_map::{ScoreMap, bytes_eq, merged, lemma_pairs_sum_unique};
use crate::statics::{CommitStatics, PathContribution, scorable_entries};

verus! {

/// Commits handed to one worker at a time.
pub const COMMITS_PER_WORKER: usize = 250;

/// The hex digit (lowercase) for a value below sixteen.
pub open spec fn hex_digit(n: u8) -> u8
    recommends
        n < 16,
{
    if n < 10 {
        (48 + n) as u8
    } else {
        (87 + n) as u8
    }
}

/// Lowercase hex of a byte string: two digits per byte, in order.
pub open spec fn hex_of(b: Seq<u8>) -> Seq<u8>
    decreases b.len(),
{
    if b.len() == 0 {
        Seq::empty()
    } else {
        hex_of(b.drop_last()) + seq![hex_digit(b.last() / 16), hex_digit(b.last() % 16)]
    }
}

/// Render bytes as lowercase hex.
pub fn to_hex(bytes: &Vec<u8>) -> (r: Vec<u8>)
    ensures
        r@ == hex_of(bytes@),
{
    let mut r: Vec<u8> = Vec::new();
    let n = bytes.len();
    let mut i: usize = 0;
    proof {
        assert(bytes@.take(0) =~= Seq::<u8>::empty());
    }
    while i < n
        invariant
            n == bytes@.len(),
            i <= n,
            r@ == hex_of(bytes@.take(i as int)),
        decreases n - i,
    {
        let b = bytes[i];
        let hi = b / 16;
        let lo = b % 16;
        if hi < 10 {
            r.push(48 + hi);
        } else {
            r.push(87 + hi);
        }
        if lo < 10 {
            r.push(48 + lo);
        } else {
            r.push(87 + lo);
        }
        proof {
            assert(bytes@.take(i as int + 1).drop_last() =~= bytes@.take(i as int));
            assert(bytes@.take(i as int + 1).last() == bytes@[i as int]);
            assert(r@ =~= hex_of(bytes@.take(i as int + 1)));
        }
        i = i + 1;
    }
    proof {
        assert(bytes@.take(n as int) =~= bytes@);
    }
    r
}

/// The cache store's name for a repository: the first sixteen digest bytes of
/// the canonical path, in hex.
pub fn cache_db_name(canonical: &Vec<u8>) -> (r: Vec<u8>)
    ensures
        r@ == hex_of(sha256_of(canonical@).subrange(0, 16)),
{
    let mut digest = sha256_bytes(canonical);
    digest.truncate(16);
    to_hex(&digest)
}

/// A worker's short-lived memo of blob sizes, keyed by content identifier.
pub struct SizeMemo {
    pub entries: Vec<(Vec<u8>, u64)>,
}

impl SizeMemo {
    /// The memo holds `v` for key `k`.
    pub open spec fn has(self, k: Seq<u8>, v: u64) -> bool {
        exists|i: int|
            0 <= i < self.entries@.len() && self.entries@[i].0@ == k && self.entries@[i].1 == v
    }

    pub fn new() -> (r: SizeMemo)
        ensures
            r.entries@.len() == 0,
    {
        SizeMemo { entries: Vec::new() }
    }

    pub fn lookup(&self, key: &Vec<u8>) -> (r: Option<u64>)
        ensures
            r matches Some(v) ==> self.has(key@, v),
    {
        let n = self.entries.len();
        let mut i: usize = 0;
        while i < n
            invariant
                n == self.entries@.len(),
                i <= n,
            decreases n - i,
        {
            if bytes_eq(&self.entries[i].0, key) {
                let v = self.entries[i].1;
                proof {
                    assert(self.entries@[i as int].0@ == key@ && self.entries@[i as int].1 == v);
                }
                return Some(v);
            }
            i = i + 1;
        }
        None
    }

    pub fn store(&mut self, key: &Vec<u8>, v: u64)
        ensures
            final(self).has(key@, v),
    {
        let k = key.clone();
        proof {
            assert(k@ =~= key@);
        }
        self.entries.push((k, v));
        proof {
            let last = self.entries@.len() - 1;
            assert(self.entries@[last].0@ == key@ && self.entries@[last].1 == v);
        }
    }
}

/// The byte size of a content identifier, memoized for the worker's batch; an
/// unreadable blob counts as empty.
fn blob_size_memo(repo: &git2::Repository, id_hex: &Vec<u8>, memo: &mut SizeMemo) -> (r: u64) {
    match memo.lookup(id_hex) {
        Some(v) => v,
        None => {
            let s = match blob_size(repo, id_hex) {
                Ok(s) => s,
                Err(_) => 0,
            };
            memo.store(id_hex, s);
            s
        },
    }
}

/// Pair each scorable entry with the size penalty of its content.
fn statics_from_scorable(
    repo: &git2::Repository,
    entries: &Vec<(Vec<u8>, Vec<u8>)>,
    memo: &mut SizeMemo,
) -> (r: CommitStatics)
    ensures
        r.wf(),
        r.contribs@.len() == entries@.len(),
        forall|i: int| 0 <= i < entries@.len() ==> (#[trigger] r.contribs@[i]).path@ == entries@[i].0@,
{
    let mut contribs: Vec<PathContribution> = Vec::new();
    let n = entries.len();
    let mut i: usize = 0;
    while i < n
        invariant
            n == entries@.len(),
            i <= n,
            contribs@.len() == i,
            forall|j: int| 0 <= j < i ==> 1 <= (#[trigger] contribs@[j]).penalty <= crate::arith::SCALE,
            forall|j: int| 0 <= j < i ==> (#[trigger] contribs@[j]).path@ == entries@[j].0@,
        decreases n - i,
    {
        let size = blob_size_memo(repo, &entries[i].1, memo);
        let penalty = penalty_fp(size);
        let path = entries[i].0.clone();
        proof {
            assert(path@ =~= entries@[i as int].0@);
        }
        contribs.push(PathContribution { path, penalty });
        i = i + 1;
    }
    CommitStatics { contribs }
}

/// Compute one commit's statics from its diff against its single parent (or
/// the empty tree). The diff is taken unfiltered, so the record depends on
/// the commit alone and can be cached for every later run; the path filter
/// is applied downstream, at scoring time. Any backend failure for this
/// commit yields an empty record: one unreadable commit must not stop the
/// batch.
pub fn compute_statics_for_commit(
    repo: &git2::Repository,
    id_hex: &Vec<u8>,
    memo: &mut SizeMemo,
) -> (r: CommitStatics)
    ensures
        r.wf(),
{
    let meta = match commit_meta(repo, id_hex) {
        Ok(m) => m,
        Err(_) => return CommitStatics::new(),
    };
    if meta.parent_count > 1 {
        return CommitStatics::new();
    }
    let diff = match commit_diff(repo, id_hex) {
        Ok(d) => d,
        Err(_) => return CommitStatics::new(),
    };
    let deltas = diff_records(&diff);
    let entries = scorable_entries(&deltas);
    statics_from_scorable(repo, &entries, memo)
}

/// Look a commit's statics up in the store, or compute and store them. A
/// stored record that does not decode reads as a miss and is recomputed and
/// overwritten, so the store heals itself.
pub fn get_commit_statistics(
    repo: &git2::Repository,
    id_hex: &Vec<u8>,
    db: &sled::Db,
    memo: &mut SizeMemo,
) -> (r: CommitStatics)
    ensures
        r.wf(),
{
    match cache_get(db, id_hex) {
        Some(bytes) => {
            match decode_statics(&bytes) {
                Some(s) => {
                    return s;
                },
                None => {},
            }
        },
        None => {},
    }
    let statics = compute_statics_for_commit(repo, id_hex, memo);
    let encoded = encode_statics(&statics);
    cache_put(db, id_hex, &encoded);
    statics
}

/// The number of commits a walk may yield: a zero or absent cap means the
/// whole first-parent history.
pub open spec fn effective_cap(m: Option<usize>) -> int {
    match m {
        None => usize::MAX as int,
        Some(k) => if k == 0 {
            usize::MAX as int
        } else {
            k as int
        },
    }
}

/// An absent cap and a cap of zero mean the same unbounded walk.
pub proof fn lemma_absent_and_zero_caps_agree()
    ensures
        effective_cap(None) == effective_cap(Some(0usize)),
{
}

/// The commit identifiers of the first-parent walk from head, newest first,
/// at most the cap. A walk error is fatal: without a valid walk there is no
/// meaningful partial result.
pub fn collect_commit_ids(repo: &git2::Repository, max_commits: Option<usize>) -> (r: Result<
    Vec<Vec<u8>>,
    BackendError,
>)
    ensures
        r matches Ok(v) ==> v@.len() <= effective_cap(max_commits),
{
    let limit: usize = match max_commits {
        None => usize::MAX,
        Some(k) => if k == 0 {
            usize::MAX
        } else {
            k
        },
    };
    let mut walk = match revwalk_first_parent(repo) {
        Ok(w) => w,
        Err(e) => return Err(e),
    };
    let mut ids: Vec<Vec<u8>> = Vec::new();
    while ids.len() < limit
        invariant
            ids@.len() <= limit,
            limit as int <= effective_cap(max_commits),
        decreases limit - ids@.len(),
    {
        match revwalk_next(&mut walk) {
            None => break ,
            Some(Ok(id)) => ids.push(id),
            Some(Err(e)) => return Err(e),
        }
    }
    Ok(ids)
}

/// Score one chunk of commit identifiers: open a worker-private repository
/// handle and size memo, gather each commit's metadata and cached statics,
/// and run the verified scorer. A chunk whose repository cannot be opened
/// scores nothing.
pub fn process_chunk(
    repo_path: &str,
    chunk: &[Vec<u8>],
    filter: &Option<Vec<Vec<u8>>>,
    now: i64,
    db: &sled::Db,
) -> (r: ScoreMap)
    ensures
        r.wf(),
        forall|p: Seq<u8>| !passes(filter_view(*filter), p) ==> r.spec_get(p) == 0,
{
    let repo = match repo_open(repo_path) {
        Ok(r) => r,
        Err(_) => return ScoreMap::new(),
    };
    let mut memo = SizeMemo::new();
    let mut data: Vec<CommitData> = Vec::new();
    let n = chunk.len();
    let mut i: usize = 0;
    while i < n
        invariant
            n == chunk@.len(),
            i <= n,
        decreases n - i,
    {
        match commit_meta(&repo, &chunk[i]) {
            Ok(meta) => {
                let statics = get_commit_statistics(&repo, &chunk[i], db, &mut memo);
                data.push(
                    CommitData {
                        time_secs: meta.time_secs,
                        parent_count: meta.parent_count,
                        statics,
                    },
                );
            },
            Err(_) => {},
        }
        i = i + 1;
    }
    let r = score_commits(&data, filter, now);
    proof {
        assert forall|p: Seq<u8>| !passes(filter_view(*filter), p) implies r.spec_get(p) == 0 by {
            lemma_non_passing_scores_zero(data@, filter_view(*filter), now as int, p);
        }
    }
    r
}

/// Relies on rayon's par_chunks, map and reduce: the identifier sequence is
/// split into contiguous chunks of `chunk_size`, each chunk is scored by the
/// verified `process_chunk` on its own worker (each worker opens its own
/// repository handle; all share the one store), and the partial maps are
/// merged pairwise by the verified `merged`, starting from empty maps. Each
/// closure only calls one verified function of this crate, and all of them
/// ensure well-formedness and zero scores for filtered-out paths, whatever
/// the workers read from disk.
#[verifier::external_body]
fn par_score_chunks(
    ids: &Vec<Vec<u8>>,
    chunk_size: usize,
    repo_path: &str,
    filter: &Option<Vec<Vec<u8>>>,
    now: i64,
    db: &sled::Db,
) -> (r: ScoreMap)
    requires
        chunk_size >= 1,
    ensures
        r.wf(),
        forall|p: Seq<u8>| !passes(filter_view(*filter), p) ==> r.spec_get(p) == 0,
{
    ids.as_slice().par_chunks(chunk_size).map(
        |c| process_chunk(repo_path, c, filter, now, db),
    ).reduce(ScoreMap::new, merged)
}

/// Analyze with every input explicit: the reference time and the chunk size
/// are parameters, so repeated runs and different partitions can be compared.
/// The result holds each path at most once, and a path the filter rejects
/// only with a zero score.
pub fn analyze_repo_with(
    repo_path: &str,
    paths: Option<Vec<Vec<u8>>>,
    max_commits: Option<usize>,
    now_secs_at: i64,
    chunk_size: usize,
) -> (r: Result<Vec<(Vec<u8>, u64)>, BackendError>)
    requires
        chunk_size >= 1,
    ensures
        r matches Ok(v) ==> {
            &&& forall|i: int, j: int| 0 <= i < j < v@.len() ==> v@[i].0@ != v@[j].0@
            &&& forall|i: int|
                0 <= i < v@.len() ==> passes(filter_view(paths), (#[trigger] v@[i]).0@) || v@[i].1 == 0
        },
{
    let repo = match repo_discover(repo_path) {
        Ok(r) => r,
        Err(e) => return Err(e),
    };
    let canonical = match canonical_repo_path(repo_path) {
        Ok(c) => c,
        Err(e) => return Err(e),
    };
    let name = cache_db_name(&canonical);
    let db = match cache_open(&name) {
        Ok(d) => d,
        Err(e) => return Err(e),
    };
    let ids = match collect_commit_ids(&repo, max_commits) {
        Ok(v) => v,
        Err(e) => return Err(e),
    };
    let scores = par_score_chunks(&ids, chunk_size, repo_path, &paths, now_secs_at, &db);
    proof {
        assert forall|i: int|
            0 <= i < scores.entries@.len() implies passes(
            filter_view(paths),
            (#[trigger] scores.entries@[i]).0@,
        ) || scores.entries@[i].1 == 0 by {
            if !passes(filter_view(paths), scores.entries@[i].0@) {
                assert(scores.spec_get(scores.entries@[i].0@) == 0);
                lemma_pairs_sum_unique(scores.entries@, scores.entries@[i].0@, i);
            }
        }
    }
    Ok(scores.entries)
}

/// Analyze the repository at `repo_path`: walk at most `max_commits` newest
/// first-parent commits (zero or absent: all of them), score them against the
/// clock's current time in parallel chunks, and return the unsorted per-path
/// scores in units of `1/SCALE`.
pub fn analyze_repo(
    repo_path: &str,
    paths: Option<Vec<Vec<u8>>>,
    max_commits: Option<usize>,
) -> (r: Result<Vec<(Vec<u8>, u64)>, BackendError>)
    ensures
        r matches Ok(v) ==> {
            &&& forall|i: int, j: int| 0 <= i < j < v@.len() ==> v@[i].0@ != v@[j].0@
            &&& forall|i: int|
                0 <= i < v@.len() ==> passes(filter_view(paths), (#[trigger] v@[i]).0@) || v@[i].1 == 0
        },
{
    let now = now_secs();
    analyze_repo_with(repo_path, paths, max_commits, now, COMMITS_PER_WORKER)
}

} // verus!
