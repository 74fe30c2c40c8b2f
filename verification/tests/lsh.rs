use delo::detection::lsh::{
    bands_for, compute_band_key, compute_candidate_pairs, compute_signature_bands,
    compute_signature_keys, LSHIndex,
};
use delo::types::HashAlgorithm;

fn sorted(mut v: Vec<usize>) -> Vec<usize> {
    v.sort();
    v
}

fn sorted_pairs(mut v: Vec<(usize, usize)>) -> Vec<(usize, usize)> {
    v.sort();
    v
}

fn strings(items: &[&str]) -> Vec<String> {
    items.iter().map(|s| s.to_string()).collect()
}

#[test]
fn band_counts_per_algorithm() {
    assert_eq!(bands_for(HashAlgorithm::Exact), 1);
    assert_eq!(bands_for(HashAlgorithm::Average), 4);
    assert_eq!(bands_for(HashAlgorithm::Difference), 4);
    assert_eq!(bands_for(HashAlgorithm::Perceptual), 6);
    assert_eq!(bands_for(HashAlgorithm::ORB), 6);
}

#[test]
fn band_key_folds_the_characters() {
    assert_eq!(compute_band_key(""), 0xcbf2_9ce4_8422_2325);
    assert_eq!(compute_band_key("a"), 0xaf63_dc4c_8601_ec8c);
    assert_eq!(compute_band_key("0101"), compute_band_key("0101"));
    assert_ne!(compute_band_key("0101"), compute_band_key("0110"));
}

#[test]
fn signature_keys_one_per_band() {
    let hash = "0000111100001111";
    let keys = compute_signature_keys(hash, HashAlgorithm::Average);
    assert_eq!(
        keys,
        vec![
            compute_band_key("0000"),
            compute_band_key("1111"),
            compute_band_key("0000"),
            compute_band_key("1111")
        ]
    );
    assert_eq!(compute_signature_keys("abcdef", HashAlgorithm::Exact), vec![compute_band_key("abcdef")]);
    assert_eq!(compute_signature_keys("", HashAlgorithm::Exact), Vec::new());
    assert_eq!(compute_signature_keys("01", HashAlgorithm::Average), Vec::new());
}

#[test]
fn feature_signature_is_the_first_256_characters() {
    let long = "ab".repeat(200);
    let keys = compute_signature_keys(&long, HashAlgorithm::ORB);
    let band = "ab".repeat(21);
    assert_eq!(keys, vec![compute_band_key(&band); 6]);
    // Shorter than the number of bands: one band, the whole text.
    assert_eq!(compute_signature_keys("abcde", HashAlgorithm::ORB), vec![compute_band_key("abcde")]);
    assert_eq!(compute_signature_keys("abcdef", HashAlgorithm::ORB).len(), 6);
}

#[test]
fn index_finds_what_shares_a_band() {
    let mut index = LSHIndex::new(HashAlgorithm::Average);
    assert!(index.is_empty());
    assert_eq!(index.len(), 0);
    index.add("0000000011111111", 0);
    index.add("0000111111110000", 1);
    index.add("1010101010101010", 2);
    assert!(!index.is_empty());
    assert_eq!(index.len(), 3);
    assert_eq!(sorted(index.query("0000000011111111")), vec![0, 1]);
    assert_eq!(sorted(index.query("1010000000000000")), vec![0, 1, 2]);
    assert_eq!(sorted(index.query("0101010101010101")), Vec::new());
    assert_eq!(index.query(""), Vec::new());
    index.clear();
    assert!(index.is_empty());
    assert_eq!(index.query("0000000011111111"), Vec::new());
}

#[test]
fn empty_fingerprints_are_not_indexed() {
    let mut index = LSHIndex::new(HashAlgorithm::Exact);
    index.add("", 5);
    assert!(index.is_empty());
    assert_eq!(index.len(), 0);
}

#[test]
fn query_reports_each_entry_once() {
    let mut index = LSHIndex::new(HashAlgorithm::Average);
    // All four bands of this fingerprint are equal.
    index.add("0000000000000000", 9);
    assert_eq!(index.query("0000000000000000"), vec![9]);
    assert_eq!(index.len(), 1);
}

#[test]
fn batch_add_numbers_from_the_start_index() {
    let mut index = LSHIndex::new(HashAlgorithm::Exact);
    index.batch_add(&strings(&["aa", "bb", "aa", ""]), 10);
    assert_eq!(sorted(index.query("aa")), vec![10, 12]);
    assert_eq!(index.query("bb"), vec![11]);
    assert_eq!(index.len(), 3);
}

#[test]
fn a_full_bucket_drops_further_entries() {
    let mut index = LSHIndex::new(HashAlgorithm::Exact);
    for i in 0..2005 {
        index.add("same", i);
    }
    let found = sorted(index.query("same"));
    assert_eq!(found.len(), 2000);
    assert_eq!(found, (0..2000).collect::<Vec<usize>>());
    assert_eq!(index.len(), 2000);
}

#[test]
fn candidate_pairs_of_exact_hashes_are_the_equal_ones() {
    let hashes = strings(&["aaaa", "bbbb", "aaaa", "cccc", "bbbb", "aaaa", ""]);
    let pairs = sorted_pairs(compute_candidate_pairs(&hashes, HashAlgorithm::Exact));
    assert_eq!(pairs, vec![(0, 2), (0, 5), (1, 4), (2, 5)]);
}

#[test]
fn candidate_pairs_share_a_band() {
    let a = "0".repeat(64);
    let b = "1".repeat(10) + &"0".repeat(54);
    let c = "1".repeat(64);
    let hashes = vec![a, b, c];
    let pairs = sorted_pairs(compute_candidate_pairs(&hashes, HashAlgorithm::Perceptual));
    assert_eq!(pairs, vec![(0, 1), (1, 2)]);
}

#[test]
fn fewer_than_two_fingerprints_have_no_pairs() {
    assert_eq!(compute_candidate_pairs(&Vec::new(), HashAlgorithm::Average), Vec::new());
    assert_eq!(compute_candidate_pairs(&strings(&["0000"]), HashAlgorithm::Average), Vec::new());
    assert_eq!(compute_candidate_pairs(&strings(&["", ""]), HashAlgorithm::Exact), Vec::new());
}

#[test]
fn pairs_across_batches_are_found_once() {
    let mut hashes: Vec<String> = (0..10_050).map(|i| format!("{:08}", i)).collect();
    hashes[3] = "twin".to_string();
    hashes[9_999] = "twin".to_string();
    hashes[10_020] = "twin".to_string();
    hashes[10_040] = "twin".to_string();
    let pairs = sorted_pairs(compute_candidate_pairs(&hashes, HashAlgorithm::Exact));
    assert_eq!(
        pairs,
        vec![(3, 9_999), (3, 10_020), (3, 10_040), (9_999, 10_020), (9_999, 10_040), (10_020, 10_040)]
    );
}

#[test]
fn signature_bands_of_each_algorithm() {
    assert_eq!(compute_signature_bands("aabbccdd", HashAlgorithm::Average), vec!["aa", "bb", "cc", "dd"]);
    assert_eq!(compute_signature_bands("aabbccdd", HashAlgorithm::Exact), vec!["aabbccdd"]);
    assert_eq!(compute_signature_bands("abc", HashAlgorithm::ORB), vec!["abc"]);
    assert_eq!(compute_signature_bands("", HashAlgorithm::ORB), Vec::<String>::new());
    assert_eq!(compute_signature_bands("abc", HashAlgorithm::Perceptual), Vec::<String>::new());
}

#[test]
fn every_candidate_pair_has_a_band_in_common() {
    let hashes: Vec<String> = (0..300u64)
        .map(|i| format!("{:016b}", (i * 2654435761) % 65536))
        .collect();
    let pairs = compute_candidate_pairs(&hashes, HashAlgorithm::Average);
    assert!(!pairs.is_empty());
    for &(a, b) in pairs.iter() {
        assert!(a < b);
        let first = compute_signature_bands(&hashes[a], HashAlgorithm::Average);
        let second = compute_signature_bands(&hashes[b], HashAlgorithm::Average);
        assert!(first.iter().any(|band| second.contains(band)));
    }
    // And every pair with a band in common is a candidate, as no bucket is full.
    let mut expected = 0;
    for a in 0..hashes.len() {
        for b in a + 1..hashes.len() {
            let first = compute_signature_bands(&hashes[a], HashAlgorithm::Average);
            let second = compute_signature_bands(&hashes[b], HashAlgorithm::Average);
            if first.iter().any(|band| second.contains(band)) {
                expected += 1;
            }
        }
    }
    assert_eq!(pairs.len(), expected);
}
