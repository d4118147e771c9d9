use frecenfile::arith::{age_days, contrib_amount, isqrt, penalty_fp, sat_add};
use frecenfile::codec::{decode_statics, encode_statics};
use frecenfile::pipeline::{cache_db_name, to_hex};
use frecenfile::score_map::ScoreMap;
use frecenfile::statics::{CommitStatics, DeltaRecord, PathContribution, scorable_entries};
use frecenfile::SCALE;

#[test]
fn isqrt_small_values() {
    assert_eq!(isqrt(0), 0);
    assert_eq!(isqrt(1), 1);
    assert_eq!(isqrt(15), 3);
    assert_eq!(isqrt(16), 4);
    assert_eq!(isqrt(1024), 32);
    assert_eq!(isqrt(4096), 64);
}

#[test]
fn isqrt_largest_value() {
    assert_eq!(isqrt(u64::MAX), 4294967295);
}

#[test]
fn penalty_of_empty_file_is_one() {
    // 1 / (1 + sqrt(0)) == 1.0, i.e. SCALE units.
    assert_eq!(penalty_fp(0), SCALE);
}

#[test]
fn penalty_of_one_kib_is_half() {
    // 1 / (1 + sqrt(1)) == 0.5.
    assert_eq!(penalty_fp(1024), SCALE / 2);
}

#[test]
fn penalty_of_four_kib_is_one_third() {
    // 1 / (1 + sqrt(4)) == 1/3, floored in SCALE units.
    assert_eq!(penalty_fp(4096), 333_333_333);
}

#[test]
fn penalty_is_positive_even_for_huge_content() {
    assert_eq!(penalty_fp(u64::MAX), 32 * SCALE / (32 + 4294967295));
    assert!(penalty_fp(u64::MAX) >= 1);
}

#[test]
fn saturating_addition() {
    assert_eq!(sat_add(2, 3), 5);
    assert_eq!(sat_add(u64::MAX - 1, 1), u64::MAX);
    assert_eq!(sat_add(u64::MAX - 1, 5), u64::MAX);
    assert_eq!(sat_add(u64::MAX, u64::MAX), u64::MAX);
}

#[test]
fn age_in_whole_days() {
    assert_eq!(age_days(100, 100), 0);
    assert_eq!(age_days(100 + 86_399, 100), 0);
    assert_eq!(age_days(100 + 86_400, 100), 1);
    assert_eq!(age_days(100 + 5 * 86_400 + 7, 100), 5);
    // A commit stamped in the future counts as fresh.
    assert_eq!(age_days(100, 200), 0);
    assert_eq!(age_days(i64::MIN, i64::MAX), 0);
}

#[test]
fn contribution_decays_inverse_square() {
    assert_eq!(contrib_amount(SCALE, 0), SCALE);
    assert_eq!(contrib_amount(SCALE, 1), SCALE / 4);
    assert_eq!(contrib_amount(SCALE, 2), SCALE / 9);
    assert_eq!(contrib_amount(333_333_333, 1), 83_333_333);
}

#[test]
fn hex_rendering() {
    assert_eq!(to_hex(&vec![]), Vec::<u8>::new());
    assert_eq!(to_hex(&vec![0x00, 0xff, 0x1a]), b"00ff1a".to_vec());
    assert_eq!(to_hex(&vec![0xde, 0xad, 0xbe, 0xef]), b"deadbeef".to_vec());
}

#[test]
fn cache_name_is_the_truncated_digest_in_hex() {
    // SHA-256("abc") starts with ba7816bf 8f01cfea 414140de 5dae2223.
    let name = cache_db_name(&b"abc".to_vec());
    assert_eq!(name, b"ba7816bf8f01cfea414140de5dae2223".to_vec());
}

#[test]
fn score_map_accumulates_per_path() {
    let mut m = ScoreMap::new();
    m.add_score(&b"a".to_vec(), 10);
    m.add_score(&b"b".to_vec(), 7);
    m.add_score(&b"a".to_vec(), 5);
    assert_eq!(m.get(&b"a".to_vec()), 15);
    assert_eq!(m.get(&b"b".to_vec()), 7);
    assert_eq!(m.get(&b"c".to_vec()), 0);
}

#[test]
fn score_map_saturates() {
    let mut m = ScoreMap::new();
    m.add_score(&b"a".to_vec(), u64::MAX - 1);
    m.add_score(&b"a".to_vec(), 10);
    assert_eq!(m.get(&b"a".to_vec()), u64::MAX);
}

#[test]
fn score_map_merge_adds_pointwise() {
    let mut m1 = ScoreMap::new();
    m1.add_score(&b"a".to_vec(), 10);
    m1.add_score(&b"b".to_vec(), 1);
    let mut m2 = ScoreMap::new();
    m2.add_score(&b"a".to_vec(), 4);
    m2.add_score(&b"c".to_vec(), 9);
    m1.merge_from(&m2);
    assert_eq!(m1.get(&b"a".to_vec()), 14);
    assert_eq!(m1.get(&b"b".to_vec()), 1);
    assert_eq!(m1.get(&b"c".to_vec()), 9);
}

fn statics_of(entries: Vec<(&[u8], u64)>) -> CommitStatics {
    let mut contribs = Vec::new();
    for (p, pen) in entries {
        contribs.push(PathContribution { path: p.to_vec(), penalty: pen });
    }
    CommitStatics { contribs }
}

#[test]
fn codec_round_trip() {
    let s = statics_of(vec![(b"src/lib.rs", 500_000_000), (b"a", 1), (b"", SCALE)]);
    let bytes = encode_statics(&s);
    let back = decode_statics(&bytes).expect("round trip decodes");
    assert_eq!(back.contribs.len(), 3);
    assert_eq!(back.contribs[0].path, b"src/lib.rs".to_vec());
    assert_eq!(back.contribs[0].penalty, 500_000_000);
    assert_eq!(back.contribs[1].path, b"a".to_vec());
    assert_eq!(back.contribs[1].penalty, 1);
    assert_eq!(back.contribs[2].path, b"".to_vec());
    assert_eq!(back.contribs[2].penalty, SCALE);
}

#[test]
fn codec_empty_round_trip() {
    let s = statics_of(vec![]);
    let bytes = encode_statics(&s);
    assert_eq!(bytes.len(), 0);
    let back = decode_statics(&bytes).expect("empty record decodes");
    assert_eq!(back.contribs.len(), 0);
}

#[test]
fn codec_rejects_corruption() {
    // Truncated header.
    assert!(decode_statics(&vec![1, 2, 3]).is_none());
    // Entry with an out-of-range penalty (zero) is corrupt.
    let s = statics_of(vec![(b"x", 1)]);
    let mut bytes = encode_statics(&s);
    let n = bytes.len();
    bytes[n - 8] = 0; // penalty low byte: 1 -> 0
    assert!(decode_statics(&bytes).is_none());
    // Trailing garbage after a valid entry.
    let mut bytes2 = encode_statics(&s);
    bytes2.push(0);
    assert!(decode_statics(&bytes2).is_none());
}

#[test]
fn deleted_and_unnamed_entries_do_not_score() {
    let deltas = vec![
        DeltaRecord { path: Some(b"kept".to_vec()), new_id: b"ab12".to_vec() },
        DeltaRecord {
            path: Some(b"deleted".to_vec()),
            new_id: b"0000000000000000000000000000000000000000".to_vec(),
        },
        DeltaRecord { path: None, new_id: b"ab12".to_vec() },
    ];
    let scorable = scorable_entries(&deltas);
    assert_eq!(scorable.len(), 1);
    assert_eq!(scorable[0].0, b"kept".to_vec());
    assert_eq!(scorable[0].1, b"ab12".to_vec());
}
