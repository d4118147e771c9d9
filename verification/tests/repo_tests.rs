use frecenfile::analyze_repo_with;
use frecenfile::SCALE;

const DAY: i64 = 86_400;

fn sig(time: i64) -> git2::Signature<'static> {
    git2::Signature::new("tester", "tester@example.com", &git2::Time::new(time, 0)).unwrap()
}

/// Commit a full tree snapshot (top-level file name -> content) onto HEAD.
fn commit_snapshot(
    repo: &git2::Repository,
    files: &[(&str, &[u8])],
    time: i64,
    parents: &[&git2::Commit],
) -> git2::Oid {
    commit_tree(repo, files, time, parents, Some("HEAD"))
}

/// Commit a snapshot without moving any reference (a side-branch commit).
fn commit_detached(
    repo: &git2::Repository,
    files: &[(&str, &[u8])],
    time: i64,
    parents: &[&git2::Commit],
) -> git2::Oid {
    commit_tree(repo, files, time, parents, None)
}

fn commit_tree(
    repo: &git2::Repository,
    files: &[(&str, &[u8])],
    time: i64,
    parents: &[&git2::Commit],
    update_ref: Option<&str>,
) -> git2::Oid {
    let mut tb = repo.treebuilder(None).unwrap();
    for (name, content) in files {
        let blob = repo.blob(content).unwrap();
        tb.insert(*name, blob, 0o100644).unwrap();
    }
    let tree_oid = tb.write().unwrap();
    let tree = repo.find_tree(tree_oid).unwrap();
    let s = sig(time);
    repo.commit(update_ref, &s, &s, "snapshot", &tree, parents).unwrap()
}

fn sorted(mut v: Vec<(Vec<u8>, u64)>) -> Vec<(Vec<u8>, u64)> {
    v.sort();
    v
}

fn analyze(
    dir: &std::path::Path,
    filter: Option<Vec<Vec<u8>>>,
    max: Option<usize>,
    now: i64,
    chunk: usize,
) -> Vec<(Vec<u8>, u64)> {
    let path = dir.to_string_lossy().into_owned();
    sorted(analyze_repo_with(&path, filter, max, now, chunk).unwrap())
}

#[test]
fn single_fresh_commit_scores_its_penalty() {
    let tmp = tempfile::tempdir().unwrap();
    let repo = git2::Repository::init(tmp.path()).unwrap();
    let now = 1_700_000_000;
    // One commit, no parent, adding one 4096-byte file: weight 1, so the
    // score is exactly 1 / (1 + sqrt(4096 / 1024)) = 1/3 in SCALE units.
    commit_snapshot(&repo, &[("big.bin", &[7u8; 4096])], now, &[]);
    let results = analyze(tmp.path(), None, None, now, 250);
    assert_eq!(results, vec![(b"big.bin".to_vec(), 333_333_333)]);
}

#[test]
fn scores_accumulate_and_decay_across_history() {
    let tmp = tempfile::tempdir().unwrap();
    let repo = git2::Repository::init(tmp.path()).unwrap();
    let now = 1_700_000_000;
    let c0 = commit_snapshot(&repo, &[("f0", &[1u8; 1024])], now - 2 * DAY, &[]);
    let p0 = repo.find_commit(c0).unwrap();
    let c1 = commit_snapshot(&repo, &[("f0", &[1u8; 1024]), ("f1", &[2u8; 4096])], now - DAY, &[&p0]);
    let p1 = repo.find_commit(c1).unwrap();
    commit_snapshot(
        &repo,
        &[("f0", &[1u8; 1024]), ("f1", &[2u8; 4096]), ("f2", b"")],
        now,
        &[&p1],
    );
    let results = analyze(tmp.path(), None, None, now, 250);
    // f0: penalty 1/2, age 2 days -> (SCALE/2)/9; f1: penalty 1/3, age 1 day
    // -> 333333333/4; f2: empty file, penalty 1, age 0 -> SCALE.
    assert_eq!(
        results,
        vec![
            (b"f0".to_vec(), SCALE / 2 / 9),
            (b"f1".to_vec(), 333_333_333 / 4),
            (b"f2".to_vec(), SCALE),
        ]
    );
}

#[test]
fn commit_cap_zero_and_absent_agree_and_cap_truncates() {
    let tmp = tempfile::tempdir().unwrap();
    let repo = git2::Repository::init(tmp.path()).unwrap();
    let now = 1_700_000_000;
    let c0 = commit_snapshot(&repo, &[("f0", &[1u8; 1024])], now - 2 * DAY, &[]);
    let p0 = repo.find_commit(c0).unwrap();
    let c1 = commit_snapshot(&repo, &[("f0", &[1u8; 1024]), ("f1", &[2u8; 4096])], now - DAY, &[&p0]);
    let p1 = repo.find_commit(c1).unwrap();
    commit_snapshot(
        &repo,
        &[("f0", &[1u8; 1024]), ("f1", &[2u8; 4096]), ("f2", b"")],
        now,
        &[&p1],
    );
    let unbounded = analyze(tmp.path(), None, None, now, 250);
    let zero_cap = analyze(tmp.path(), None, Some(0), now, 250);
    let big_cap = analyze(tmp.path(), None, Some(1000), now, 250);
    assert_eq!(unbounded, zero_cap);
    assert_eq!(unbounded, big_cap);
    // A cap of 2 keeps exactly the two newest first-parent commits.
    let capped = analyze(tmp.path(), None, Some(2), now, 250);
    assert_eq!(
        capped,
        vec![(b"f1".to_vec(), 333_333_333 / 4), (b"f2".to_vec(), SCALE)]
    );
}

#[test]
fn path_filter_restricts_output_without_changing_scores() {
    let tmp = tempfile::tempdir().unwrap();
    let repo = git2::Repository::init(tmp.path()).unwrap();
    let now = 1_700_000_000;
    let c0 = commit_snapshot(&repo, &[("a", &[1u8; 1024]), ("b", &[2u8; 4096])], now - DAY, &[]);
    let p0 = repo.find_commit(c0).unwrap();
    commit_snapshot(
        &repo,
        &[("a", &[3u8; 2048]), ("b", &[2u8; 4096]), ("c", b"hi")],
        now,
        &[&p0],
    );
    let unfiltered = analyze(tmp.path(), None, None, now, 250);
    let filtered = analyze(tmp.path(), Some(vec![b"a".to_vec()]), None, now, 250);
    assert_eq!(filtered.len(), 1);
    assert_eq!(filtered[0].0, b"a".to_vec());
    let a_unfiltered = unfiltered.iter().find(|e| e.0 == b"a".to_vec()).unwrap().1;
    assert_eq!(filtered[0].1, a_unfiltered);
}

#[test]
fn merge_commits_contribute_nothing_end_to_end() {
    let tmp = tempfile::tempdir().unwrap();
    let repo = git2::Repository::init(tmp.path()).unwrap();
    let now = 1_700_000_000;
    let a = commit_snapshot(&repo, &[("fa", &[1u8; 1024])], now - 2 * DAY, &[]);
    let pa = repo.find_commit(a).unwrap();
    let b = commit_snapshot(&repo, &[("fa", &[1u8; 1024]), ("fb", b"")], now - DAY, &[&pa]);
    let pb = repo.find_commit(b).unwrap();
    let c = commit_detached(&repo, &[("fa", &[1u8; 1024]), ("fc", b"")], now - DAY, &[&pa]);
    let pc = repo.find_commit(c).unwrap();
    // The merge introduces fc relative to its first parent, but merges are
    // skipped, and fc's own commit is off the first-parent chain.
    commit_snapshot(
        &repo,
        &[("fa", &[1u8; 1024]), ("fb", b""), ("fc", b"")],
        now,
        &[&pb, &pc],
    );
    let results = analyze(tmp.path(), None, None, now, 250);
    assert_eq!(
        results,
        vec![(b"fa".to_vec(), SCALE / 2 / 9), (b"fb".to_vec(), SCALE / 4)]
    );
}

#[test]
fn deleting_a_file_contributes_nothing() {
    let tmp = tempfile::tempdir().unwrap();
    let repo = git2::Repository::init(tmp.path()).unwrap();
    let now = 1_700_000_000;
    let c0 = commit_snapshot(&repo, &[("gone", &[1u8; 1024]), ("kept", b"")], now - DAY, &[]);
    let p0 = repo.find_commit(c0).unwrap();
    // The second commit deletes "gone": its diff lists the path with the null
    // content identifier, which must not score.
    commit_snapshot(&repo, &[("kept", b"")], now, &[&p0]);
    let results = analyze(tmp.path(), None, None, now, 250);
    assert_eq!(
        results,
        vec![(b"gone".to_vec(), SCALE / 2 / 4), (b"kept".to_vec(), SCALE / 4)]
    );
}

#[test]
fn warm_cache_run_equals_cold_run() {
    let tmp = tempfile::tempdir().unwrap();
    let repo = git2::Repository::init(tmp.path()).unwrap();
    let now = 1_700_000_000;
    let c0 = commit_snapshot(&repo, &[("x", &[9u8; 3000])], now - 3 * DAY, &[]);
    let p0 = repo.find_commit(c0).unwrap();
    commit_snapshot(&repo, &[("x", &[9u8; 3000]), ("y", &[4u8; 100])], now, &[&p0]);
    let cold = analyze(tmp.path(), None, None, now, 250);
    let warm = analyze(tmp.path(), None, None, now, 250);
    assert_eq!(cold, warm);
    assert!(!cold.is_empty());
}

#[test]
fn chunk_size_does_not_change_results() {
    let tmp = tempfile::tempdir().unwrap();
    let repo = git2::Repository::init(tmp.path()).unwrap();
    let now = 1_700_000_000;
    let mut parent: Option<git2::Oid> = None;
    let mut files: Vec<(String, Vec<u8>)> = Vec::new();
    for i in 0..25usize {
        files.push((format!("file{}", i), vec![i as u8; 64 * (i + 1)]));
        let snapshot: Vec<(&str, &[u8])> =
            files.iter().map(|(n, c)| (n.as_str(), c.as_slice())).collect();
        let t = now - (25 - i as i64) * DAY;
        let oid = match parent {
            None => commit_snapshot(&repo, &snapshot, t, &[]),
            Some(p) => {
                let pc = repo.find_commit(p).unwrap();
                commit_snapshot(&repo, &snapshot, t, &[&pc])
            }
        };
        parent = Some(oid);
    }
    let by_1 = analyze(tmp.path(), None, None, now, 1);
    let by_10 = analyze(tmp.path(), None, None, now, 10);
    let by_250 = analyze(tmp.path(), None, None, now, 250);
    assert_eq!(by_1, by_10);
    assert_eq!(by_1, by_250);
    assert_eq!(by_1.len(), 25);
}

#[test]
fn missing_repository_is_a_fatal_error() {
    let tmp = tempfile::tempdir().unwrap();
    let path = tmp.path().to_string_lossy().into_owned();
    assert!(analyze_repo_with(&path, None, None, 0, 250).is_err());
}
