use frecenfile::engine::{score_commits, CommitData};
use frecenfile::statics::{CommitStatics, PathContribution};
use frecenfile::SCALE;

fn commit(time_secs: i64, parent_count: u64, entries: Vec<(&[u8], u64)>) -> CommitData {
    let mut contribs = Vec::new();
    for (p, pen) in entries {
        contribs.push(PathContribution { path: p.to_vec(), penalty: pen });
    }
    CommitData { time_secs, parent_count, statics: CommitStatics { contribs } }
}

#[test]
fn fresh_commit_contributes_its_full_penalty() {
    let now: i64 = 1_000_000;
    let data = vec![commit(now, 1, vec![(b"f", 333_333_333)])];
    let m = score_commits(&data, &None, now);
    assert_eq!(m.get(&b"f".to_vec()), 333_333_333);
}

#[test]
fn day_old_commit_decays_by_four() {
    let now: i64 = 10 * 86_400;
    let data = vec![commit(now - 86_400, 1, vec![(b"f", SCALE)])];
    let m = score_commits(&data, &None, now);
    assert_eq!(m.get(&b"f".to_vec()), SCALE / 4);
}

#[test]
fn merge_commits_contribute_nothing() {
    let now: i64 = 1_000_000;
    let data = vec![
        commit(now, 2, vec![(b"f", SCALE), (b"g", SCALE)]),
        commit(now, 1, vec![(b"f", 100)]),
    ];
    let m = score_commits(&data, &None, now);
    assert_eq!(m.get(&b"f".to_vec()), 100);
    assert_eq!(m.get(&b"g".to_vec()), 0);
}

#[test]
fn contributions_accumulate_across_commits() {
    let now: i64 = 100 * 86_400;
    let data = vec![
        commit(now, 1, vec![(b"f", 1000)]),
        commit(now - 86_400, 1, vec![(b"f", 1000), (b"g", 500)]),
    ];
    let m = score_commits(&data, &None, now);
    assert_eq!(m.get(&b"f".to_vec()), 1000 + 250);
    assert_eq!(m.get(&b"g".to_vec()), 125);
}

#[test]
fn filter_keeps_included_scores_and_drops_the_rest() {
    let now: i64 = 100 * 86_400;
    let data = vec![
        commit(now, 1, vec![(b"a", 1000), (b"b", 800)]),
        commit(now - 86_400, 1, vec![(b"a", 400), (b"c", 900)]),
    ];
    let unfiltered = score_commits(&data, &None, now);
    let filter = Some(vec![b"a".to_vec()]);
    let filtered = score_commits(&data, &filter, now);
    // The included path scores exactly as without a filter.
    assert_eq!(filtered.get(&b"a".to_vec()), unfiltered.get(&b"a".to_vec()));
    assert_eq!(filtered.get(&b"a".to_vec()), 1000 + 100);
    // Everything else is gone.
    assert_eq!(filtered.get(&b"b".to_vec()), 0);
    assert_eq!(filtered.get(&b"c".to_vec()), 0);
    assert_eq!(filtered.entries.len(), 1);
}

#[test]
fn partitioning_commits_and_merging_preserves_totals() {
    let now: i64 = 50 * 86_400;
    let mut all = Vec::new();
    for i in 0..20i64 {
        let t = now - i * 86_400;
        let pen = 1_000_000 + (i as u64) * 17;
        all.push(commit(t, 1, vec![(b"x".as_slice(), pen), (b"y".as_slice(), pen / 2)]));
    }
    let whole = score_commits(&all, &None, now);
    for chunk_size in [1usize, 3, 7, 20] {
        let mut total = frecenfile::score_map::ScoreMap::new();
        for chunk in all.chunks(chunk_size) {
            let part = score_commits(&chunk.to_vec(), &None, now);
            total.merge_from(&part);
        }
        assert_eq!(total.get(&b"x".to_vec()), whole.get(&b"x".to_vec()));
        assert_eq!(total.get(&b"y".to_vec()), whole.get(&b"y".to_vec()));
    }
}
