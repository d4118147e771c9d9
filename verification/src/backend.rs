//! Trusted boundary to the version-control backend, the persistent store, and
//! the clock.
//!
//! Every function here is an `external_body` wrapper around an outside call.
//! Their results come from the repository on disk, the store, or the clock, so
//! the contracts promise only what holds of every outcome; the verified code
//! around them decides what to do with whatever comes back.

use vstd::prelude::*;
use sha2::Digest;
use crate::statics::DeltaRecord;

verus! {

#[verifier::external_type_specification]
#[verifier::external_body]
pub struct ExRepository(git2::Repository);

#[verifier::external_type_specification]
#[verifier::external_body]
pub struct ExRevwalk<'a>(git2::Revwalk<'a>);

#[verifier::external_type_specification]
#[verifier::external_body]
pub struct ExOid(git2::Oid);

#[verifier::external_type_specification]
#[verifier::external_body]
pub struct ExGitError(git2::Error);

#[verifier::external_type_specification]
#[verifier::external_body]
pub struct ExDb(sled::Db);

/// A fatal backend failure, carrying the backend's message.
#[derive(Debug)]
pub struct BackendError {
    pub message: String,
}

/// A commit's recorded time and parent count, as the backend reports them.
pub struct CommitMeta {
    pub time_secs: i64,
    pub parent_count: u64,
}

/// Relies on git2::Repository::discover: walks upward from the path to find
/// the enclosing repository.
#[verifier::external_body]
pub fn repo_discover(path: &str) -> (r: Result<git2::Repository, BackendError>) {
    git2::Repository::discover(path).map_err(
        |e| BackendError { message: e.message().to_string() },
    )
}

/// Relies on git2::Repository::open: opens the repository at the path. Each
/// worker opens its own handle; handles are not shared.
#[verifier::external_body]
pub fn repo_open(path: &str) -> (r: Result<git2::Repository, BackendError>) {
    git2::Repository::open(path).map_err(|e| BackendError { message: e.message().to_string() })
}

/// Relies on git2: Repository::revwalk, Revwalk::push_head, Revwalk::
/// set_sorting by commit time, Revwalk::simplify_first_parent. The walk
/// starts at the current head and follows only first parents.
#[verifier::external_body]
pub fn revwalk_first_parent<'r>(repo: &'r git2::Repository) -> (r: Result<
    git2::Revwalk<'r>,
    BackendError,
>) {
    let run = || -> Result<git2::Revwalk<'r>, git2::Error> {
        let mut w = repo.revwalk()?;
        w.push_head()?;
        w.set_sorting(git2::Sort::TIME)?;
        w.simplify_first_parent()?;
        Ok(w)
    };
    run().map_err(|e| BackendError { message: e.message().to_string() })
}

/// Relies on git2's Revwalk as an iterator: the next commit identifier of the
/// walk as lowercase hex, or `None` once the walk is exhausted.
#[verifier::external_body]
pub fn revwalk_next<'r>(walk: &mut git2::Revwalk<'r>) -> (r: Option<
    Result<Vec<u8>, BackendError>,
>) {
    match walk.next() {
        None => None,
        Some(Ok(oid)) => Some(Ok(oid.to_string().into_bytes())),
        Some(Err(e)) => Some(Err(BackendError { message: e.message().to_string() })),
    }
}

/// Relies on git2: Oid::from_str, Repository::find_commit, Commit::time
/// (seconds since the epoch, in the commit's recorded time) and
/// Commit::parent_count.
#[verifier::external_body]
pub fn commit_meta(repo: &git2::Repository, id_hex: &Vec<u8>) -> (r: Result<
    CommitMeta,
    BackendError,
>) {
    let run = || -> Result<CommitMeta, git2::Error> {
        let oid = git2::Oid::from_str(&String::from_utf8_lossy(id_hex))?;
        let c = repo.find_commit(oid)?;
        Ok(CommitMeta { time_secs: c.time().seconds(), parent_count: c.parent_count() as u64 })
    };
    run().map_err(|e| BackendError { message: e.message().to_string() })
}

#[verifier::external_type_specification]
#[verifier::external_body]
pub struct ExDiff<'a>(git2::Diff<'a>);

/// Relies on git2: Oid::from_str, Repository::find_commit, Commit::tree,
/// Commit::parent, Repository::diff_tree_to_tree at file granularity: no
/// context lines, no interhunk lines, binary sniffing skipped, no typechange
/// records; a root commit diffs against the empty tree.
#[verifier::external_body]
pub fn commit_diff<'r>(repo: &'r git2::Repository, id_hex: &Vec<u8>) -> (r: Result<
    git2::Diff<'r>,
    BackendError,
>) {
    let run = || -> Result<git2::Diff<'r>, git2::Error> {
        let commit = repo.find_commit(git2::Oid::from_str(&String::from_utf8_lossy(id_hex))?)?;
        let tree = commit.tree()?;
        let parent_tree = commit.parent(0).ok().and_then(|p| p.tree().ok());
        let mut o = git2::DiffOptions::new();
        o.context_lines(0).interhunk_lines(0).skip_binary_check(true).include_typechange(false);
        repo.diff_tree_to_tree(parent_tree.as_ref(), Some(&tree), Some(&mut o))
    };
    run().map_err(|e| BackendError { message: e.message().to_string() })
}

/// Relies on git2: Diff::deltas, DiffDelta::new_file, DiffFile::path_bytes
/// and DiffFile::id. Each changed entry becomes its post-change path and
/// post-change content identifier in lowercase hex.
#[verifier::external_body]
pub fn diff_records(diff: &git2::Diff<'_>) -> (r: Vec<DeltaRecord>) {
    diff.deltas().map(
        |d| DeltaRecord {
            path: d.new_file().path_bytes().map(|p| p.to_vec()),
            new_id: d.new_file().id().to_string().into_bytes(),
        },
    ).collect()
}

/// Relies on git2: Oid::from_str, Repository::find_blob, Blob::size: the byte
/// size of the content the identifier names.
#[verifier::external_body]
pub fn blob_size(repo: &git2::Repository, id_hex: &Vec<u8>) -> (r: Result<u64, BackendError>) {
    let run = || -> Result<u64, git2::Error> {
        let oid = git2::Oid::from_str(&String::from_utf8_lossy(id_hex))?;
        Ok(repo.find_blob(oid)?.size() as u64)
    };
    run().map_err(|e| BackendError { message: e.message().to_string() })
}

/// Relies on chrono::Utc::now: the clock's current time, whose timestamp is
/// whole seconds since the epoch. Nothing is promised of a clock reading.
#[verifier::external_body]
pub fn now_secs() -> (r: i64) {
    chrono::Utc::now().timestamp()
}

/// The SHA-256 digest of a byte string: a function of the bytes alone.
pub uninterp spec fn sha256_of(data: Seq<u8>) -> Seq<u8>;

/// Relies on sha2::Sha256 through the Digest trait: the SHA-256 digest of the
/// input, which depends on the input bytes alone and is 32 bytes long.
#[verifier::external_body]
pub fn sha256_bytes(data: &Vec<u8>) -> (r: Vec<u8>)
    ensures
        r@ == sha256_of(data@),
        r@.len() == 32,
{
    sha2::Sha256::digest(data.as_slice()).to_vec()
}

/// Relies on std::path::Path::canonicalize: the absolute, symlink-resolved
/// form of the path, as the file system reports it.
#[verifier::external_body]
pub fn canonical_repo_path(path: &str) -> (r: Result<Vec<u8>, BackendError>) {
    match std::path::Path::new(path).canonicalize() {
        Ok(p) => Ok(p.to_string_lossy().into_owned().into_bytes()),
        Err(e) => Err(BackendError { message: e.to_string() }),
    }
}

/// Relies on directories::ProjectDirs::from to resolve the per-application
/// cache directory, and on sled::open, which creates the store's directory
/// and its missing parents. The store is named by the given hex string.
#[verifier::external_body]
pub fn cache_open(name_hex: &Vec<u8>) -> (r: Result<sled::Db, BackendError>) {
    let proj = match directories::ProjectDirs::from("com", "kantord", "frecenfile") {
        Some(p) => p,
        None => return Err(
            BackendError { message: "cannot resolve a cache directory".to_string() },
        ),
    };
    let path = proj.cache_dir().join(format!("{}.sled", String::from_utf8_lossy(name_hex)));
    sled::open(path).map_err(|e| BackendError { message: e.to_string() })
}

/// Relies on sled::Db's get: the bytes stored under the key, if any. A store
/// error reads as absence, so a failing store only costs recomputation.
#[verifier::external_body]
pub fn cache_get(db: &sled::Db, key: &Vec<u8>) -> (r: Option<Vec<u8>>) {
    match db.get(key) {
        Ok(Some(v)) => Some(v.to_vec()),
        Ok(None) => None,
        Err(_) => None,
    }
}

/// Relies on sled::Db's insert: stores the bytes under the key. Concurrent
/// same-key writes are idempotent overwrites of equal, deterministic values.
/// A store error is ignored: the computed value is still in hand.
#[verifier::external_body]
pub fn cache_put(db: &sled::Db, key: &Vec<u8>, value: &Vec<u8>) {
    let _ = db.insert(key.as_slice(), value.clone());
}

} // verus!
