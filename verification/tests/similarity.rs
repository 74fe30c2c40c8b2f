use delo::algorithms::calculate_similarity;
use delo::detection::duplicate::{are_images_duplicates, sizes_allow_duplicates};
use delo::types::HashAlgorithm;
use delo::utils::hamming::{hamming_distance, hamming_distance_bytes, hash_similarity, Similarity};
use delo::utils::ranking::top_by_key;
use delo::utils::text::{chars_of, str_equal, string_of};

#[test]
fn hamming_distance_counts_differing_characters() {
    assert_eq!(hamming_distance("1010", "1010"), 0);
    assert_eq!(hamming_distance("1010", "0101"), 4);
    assert_eq!(hamming_distance("1010", "1000"), 1);
    assert_eq!(hamming_distance("", ""), 0);
}

#[test]
fn hamming_distance_stops_at_the_shorter_string() {
    assert_eq!(hamming_distance("1111", "10"), 1);
    assert_eq!(hamming_distance("10", "1111"), 1);
    assert_eq!(hamming_distance("", "1111"), 0);
}

#[test]
fn hamming_distance_of_bytes_counts_bits() {
    assert_eq!(hamming_distance_bytes(&[0xFF], &[0x00]), 8);
    assert_eq!(hamming_distance_bytes(&[0xF0, 0x01], &[0x0F, 0x01]), 8);
    assert_eq!(hamming_distance_bytes(&[0b1010], &[0b0110]), 2);
    assert_eq!(hamming_distance_bytes(&[0xFF, 0xFF], &[0x00]), 8);
    assert_eq!(hamming_distance_bytes(&[], &[1, 2, 3]), 0);
}

#[test]
fn similarity_is_the_share_of_agreeing_characters() {
    let score = hash_similarity("11110000", "11110011");
    assert_eq!((score.matched, score.total), (6, 8));
    assert_eq!(score.percent(), 75);
    assert!(score.meets(75));
    assert!(!score.meets(76));
}

#[test]
fn similarity_of_a_64_bit_hash_with_three_bits_changed() {
    let a = "0".repeat(64);
    let b = "111".to_string() + &"0".repeat(61);
    let score = hash_similarity(&a, &b);
    assert_eq!((score.matched, score.total), (61, 64));
    assert_eq!(score.percent(), 95);
    assert!(score.meets(95));
    assert!(!score.meets(96));
}

#[test]
fn an_empty_hash_has_no_similarity() {
    let score = hash_similarity("", "1010");
    assert_eq!(score.total, 0);
    assert!(!score.meets(0));
    assert_eq!(score.percent(), 0);
}

#[test]
fn threshold_bounds() {
    let full = Similarity::full();
    assert!(full.meets(0));
    assert!(full.meets(100));
    assert!(!full.meets(101));
    let none = Similarity::none();
    assert!(none.meets(0));
    assert!(!none.meets(1));
    assert_eq!(none.percent(), 0);
    assert_eq!(full.percent(), 100);
}

#[test]
fn similarity_is_symmetric_for_equal_lengths() {
    let pairs = [("1100", "1010"), ("0000", "1111"), ("1", "1"), ("0110", "0111")];
    for algorithm in [
        HashAlgorithm::Exact,
        HashAlgorithm::Average,
        HashAlgorithm::Difference,
        HashAlgorithm::Perceptual,
    ] {
        for (a, b) in pairs {
            assert_eq!(calculate_similarity(a, b, algorithm), calculate_similarity(b, a, algorithm));
        }
    }
}

#[test]
fn a_fingerprint_is_fully_similar_to_itself() {
    for algorithm in [
        HashAlgorithm::Exact,
        HashAlgorithm::Average,
        HashAlgorithm::Difference,
        HashAlgorithm::Perceptual,
    ] {
        let score = calculate_similarity("0110100110010110", "0110100110010110", algorithm);
        assert_eq!(score.percent(), 100);
        assert!(score.meets(100));
    }
}

#[test]
fn similarity_depends_on_the_algorithm() {
    let exact = calculate_similarity("1100", "1101", HashAlgorithm::Exact);
    assert_eq!(exact.percent(), 0);
    let average = calculate_similarity("1100", "1101", HashAlgorithm::Average);
    assert_eq!(average.percent(), 75);
    let same = delo::utils::hash_utils::calculate_similarity("1100", "1101", HashAlgorithm::Average);
    assert_eq!(same, average);
}

#[test]
fn a_threshold_of_100_admits_only_equal_bit_hashes() {
    assert!(are_images_duplicates("1010", "1010", HashAlgorithm::Perceptual, 100));
    assert!(!are_images_duplicates("1010", "1011", HashAlgorithm::Perceptual, 100));
    assert!(are_images_duplicates("1010", "0101", HashAlgorithm::Perceptual, 0));
    assert!(are_images_duplicates("abc", "abc", HashAlgorithm::Exact, 100));
    assert!(!are_images_duplicates("abc", "abd", HashAlgorithm::Exact, 1));
}

#[test]
fn undecodable_features_score_zero() {
    let score = calculate_similarity("not base64!", "also not", HashAlgorithm::ORB);
    assert_eq!((score.matched, score.total), (0, 1));
    assert!(score.meets(0));
    assert!(!score.meets(1));
}

#[test]
fn file_sizes_rule_out_unlikely_pairs() {
    assert!(sizes_allow_duplicates(HashAlgorithm::Exact, 100, 100));
    assert!(!sizes_allow_duplicates(HashAlgorithm::Exact, 100, 101));
    assert!(sizes_allow_duplicates(HashAlgorithm::Average, 100, 200));
    assert!(!sizes_allow_duplicates(HashAlgorithm::Average, 100, 201));
    assert!(!sizes_allow_duplicates(HashAlgorithm::ORB, 201, 100));
    assert!(sizes_allow_duplicates(HashAlgorithm::Exact, 0, 55));
    assert!(sizes_allow_duplicates(HashAlgorithm::Perceptual, 7, 0));
}

#[test]
fn top_selection_is_descending_and_stable() {
    let keys = vec![5u64, 9, 5, 1, 9, 7];
    assert_eq!(top_by_key(&keys, 6), vec![1, 4, 5, 0, 2, 3]);
    assert_eq!(top_by_key(&keys, 3), vec![1, 4, 5]);
    assert_eq!(top_by_key(&keys, 10), vec![1, 4, 5, 0, 2, 3]);
    assert_eq!(top_by_key(&keys, 0), Vec::<usize>::new());
    assert_eq!(top_by_key(&Vec::new(), 3), Vec::<usize>::new());
    assert_eq!(top_by_key(&vec![2u64, 2, 2], 2), vec![0, 1]);
}

#[test]
fn text_helpers() {
    assert_eq!(chars_of("héllo"), vec!['h', 'é', 'l', 'l', 'o']);
    assert_eq!(string_of(&vec!['a', 'b', 'c', 'd'], 1, 3), "bc");
    assert!(str_equal("abc", "abc"));
    assert!(!str_equal("abc", "abd"));
    assert!(!str_equal("abc", "ab"));
}

#[test]
fn percent_is_rounded_down_and_may_exceed_100() {
    assert_eq!(Similarity { matched: 2, total: 3 }.percent(), 66);
    assert_eq!(Similarity { matched: 3, total: 2 }.percent(), 150);
    assert_eq!(Similarity { matched: 5, total: 0 }.percent(), 0);
    assert_eq!(Similarity { matched: u64::MAX, total: 1 }.percent(), u64::MAX);
    assert!(Similarity { matched: 3, total: 2 }.meets(100));
}
