use singerprint::audio_processor::AudioProcessor;
use singerprint::fingerprint::{AudioFingerprint, Peak};
use singerprint::matcher::FingerprintMatcher;

fn fp_with_hashes(hashes: Vec<u64>) -> AudioFingerprint {
    AudioFingerprint { peaks: Vec::new(), hash: hashes }
}

#[test]
fn empty_collection_returns_none() {
    let matcher = FingerprintMatcher::new();
    let query = fp_with_hashes((0..100).collect());
    assert_eq!(matcher.find_match(&query), None);
    let empty_query = fp_with_hashes(Vec::new());
    assert_eq!(matcher.find_match(&empty_query), None);
}

#[test]
fn identical_fingerprint_matches() {
    let mut matcher = FingerprintMatcher::new();
    let hashes: Vec<u64> = (100..120).collect();
    matcher.add_fingerprint("clip1", fp_with_hashes(hashes.clone()));
    let query = fp_with_hashes(hashes);
    assert_eq!(matcher.find_match(&query), Some("clip1".to_string()));
}

#[test]
fn threshold_must_be_exceeded() {
    let mut matcher = FingerprintMatcher::new();
    let ten: Vec<u64> = (0..10).collect();
    matcher.add_fingerprint("short", fp_with_hashes(ten.clone()));
    // A score of exactly 10 is not a match.
    assert_eq!(matcher.find_match(&fp_with_hashes(ten)), None);
    let eleven: Vec<u64> = (0..11).collect();
    let mut matcher2 = FingerprintMatcher::new();
    matcher2.add_fingerprint("long", fp_with_hashes(eleven.clone()));
    assert_eq!(
        matcher2.find_match(&fp_with_hashes(eleven)),
        Some("long".to_string())
    );
}

#[test]
fn score_counts_query_members() {
    let matcher = FingerprintMatcher::new();
    let fp1 = fp_with_hashes(vec![1, 2, 3, 2]);
    let fp2 = fp_with_hashes(vec![2, 5]);
    // Both query positions holding 2 count; stored multiplicity does not.
    assert_eq!(matcher.compare_fingerprints(&fp1, &fp2), 2);
    assert_eq!(matcher.compare_fingerprints(&fp2, &fp1), 1);
}

#[test]
fn best_score_wins() {
    let mut matcher = FingerprintMatcher::new();
    let query: Vec<u64> = (0..20).collect();
    matcher.add_fingerprint("partial", fp_with_hashes((0..12).collect()));
    matcher.add_fingerprint("fuller", fp_with_hashes((0..15).collect()));
    assert_eq!(
        matcher.find_match(&fp_with_hashes(query)),
        Some("fuller".to_string())
    );
}

#[test]
fn tie_resolves_to_first_inserted() {
    let mut matcher = FingerprintMatcher::new();
    let hashes: Vec<u64> = (0..15).collect();
    matcher.add_fingerprint("first", fp_with_hashes(hashes.clone()));
    matcher.add_fingerprint("second", fp_with_hashes(hashes.clone()));
    assert_eq!(
        matcher.find_match(&fp_with_hashes(hashes)),
        Some("first".to_string())
    );
}

#[test]
fn last_write_wins_on_duplicate_name() {
    let mut matcher = FingerprintMatcher::new();
    let old_hashes: Vec<u64> = (0..15).collect();
    let new_hashes: Vec<u64> = (1000..1015).collect();
    matcher.add_fingerprint("clip", fp_with_hashes(old_hashes.clone()));
    matcher.add_fingerprint("clip", fp_with_hashes(new_hashes.clone()));
    assert_eq!(
        matcher.find_match(&fp_with_hashes(new_hashes)),
        Some("clip".to_string())
    );
    // The overwritten hashes no longer overlap anything.
    assert_eq!(matcher.find_match(&fp_with_hashes(old_hashes)), None);
}

#[test]
fn same_audio_matches_stored_copy() {
    // Two fingerprints built from bit-identical spectrograms are identical,
    // so the query scores its full hash count against the stored copy.
    let p = AudioProcessor { sample_rate: 8000, window_size: 80, overlap: 40 };
    let mut g: Vec<Vec<u32>> = Vec::new();
    for _ in 0..40 {
        g.push(vec![0u32; 40]);
    }
    for &t in &[10usize, 17, 24] {
        for &f in &[10usize, 17, 24] {
            g[t][f] = 5000;
        }
    }
    let fp_a = p.process_audio(&g).unwrap();
    let fp_b = p.process_audio(&g).unwrap();
    assert_eq!(fp_a.hash, fp_b.hash);
    assert!(fp_b.hash.len() >= 11);
    let mut matcher = FingerprintMatcher::new();
    matcher.add_fingerprint("clip1", fp_b);
    assert_eq!(matcher.find_match(&fp_a), Some("clip1".to_string()));
}

#[test]
fn disjoint_hashes_do_not_match() {
    let mut matcher = FingerprintMatcher::new();
    matcher.add_fingerprint("other", fp_with_hashes((0..50).collect()));
    let query = fp_with_hashes((1000..1050).collect());
    assert_eq!(matcher.find_match(&query), None);
}

#[test]
fn peaks_do_not_affect_scoring() {
    let mut matcher = FingerprintMatcher::new();
    let hashes: Vec<u64> = (0..15).collect();
    let stored = AudioFingerprint {
        peaks: vec![Peak { bin: 10, frame: 10 }],
        hash: hashes.clone(),
    };
    matcher.add_fingerprint("clip", stored);
    let query = AudioFingerprint { peaks: Vec::new(), hash: hashes };
    assert_eq!(matcher.find_match(&query), Some("clip".to_string()));
}
