use delo::algorithms::average_hash::calculate_average_hash;
use delo::algorithms::exact_hash::calculate_exact_hash;
use delo::detection::disjoint_set::DisjointSet;
use delo::detection::duplicate::{
    assemble_groups, collect_groups, compute_image_hashes, detect_duplicates,
    find_duplicate_groups, group_indices, link_similar, DuplicateDetectionParams,
};
use delo::types::{DetectionError, FileMetadata, HashAlgorithm, HashResult};
use delo::utils::image_utils::RgbImage;

fn strings(items: &[&str]) -> Vec<String> {
    items.iter().map(|s| s.to_string()).collect()
}

fn results(hashes: &[String]) -> Vec<HashResult> {
    hashes.iter().map(|h| HashResult { hash: h.clone(), width: 640, height: 480 }).collect()
}

fn paths(n: usize) -> Vec<String> {
    (0..n).map(|i| format!("/images/{}.png", i)).collect()
}

fn known(n: usize) -> Vec<Option<FileMetadata>> {
    (0..n)
        .map(|i| {
            Some(FileMetadata {
                size_bytes: 1000 + i as u64,
                created_at: format!("{}", 1_700_000_000 + i),
                modified_at: format!("{}", 1_700_000_100 + i),
            })
        })
        .collect()
}

fn flip(hash: &str, positions: &[usize]) -> String {
    hash.chars()
        .enumerate()
        .map(|(i, c)| if positions.contains(&i) { if c == '0' { '1' } else { '0' } } else { c })
        .collect()
}

fn striped(width: u32, height: u32, period: u32) -> RgbImage {
    let mut data = Vec::new();
    for _y in 0..height {
        for x in 0..width {
            let v = if (x / period) % 2 == 0 { 20u8 } else { 230u8 };
            data.extend_from_slice(&[v, v, v]);
        }
    }
    RgbImage::from_raw(width, height, data).unwrap()
}

#[test]
fn union_find_merges_sets() {
    let mut set = DisjointSet::new(6);
    assert_eq!(set.size(), 6);
    for i in 0..6 {
        assert_eq!(set.find(i), i);
    }
    set.union(0, 1);
    set.union(2, 3);
    assert_eq!(set.find(0), set.find(1));
    assert_eq!(set.find(2), set.find(3));
    assert_ne!(set.find(0), set.find(2));
    set.union(1, 3);
    let root = set.find(0);
    assert_eq!(set.find(1), root);
    assert_eq!(set.find(2), root);
    assert_eq!(set.find(3), root);
    assert_ne!(set.find(4), root);
    assert_ne!(set.find(4), set.find(5));
    set.union(4, 4);
    assert_eq!(set.find(4), 4);
}

#[test]
fn union_find_survives_long_chains() {
    let n = 5000;
    let mut set = DisjointSet::new(n);
    for i in 1..n {
        set.union(i - 1, i);
    }
    let root = set.find(0);
    for i in 0..n {
        assert_eq!(set.find(i), root);
    }
}

#[test]
fn groups_are_the_sets_of_at_least_two() {
    // Elements 0, 3 and 5 share a representative, as do 1 and 4.
    let roots = vec![3usize, 4, 2, 3, 4, 3];
    assert_eq!(collect_groups(&roots), vec![vec![0, 3, 5], vec![1, 4]]);
    assert_eq!(collect_groups(&vec![0, 1, 2]), Vec::<Vec<usize>>::new());
    assert_eq!(collect_groups(&Vec::new()), Vec::<Vec<usize>>::new());
    assert_eq!(collect_groups(&vec![1, 1]), vec![vec![0, 1]]);
}

#[test]
fn two_identical_images_form_one_exact_group() {
    let a = striped(24, 16, 3);
    let a_copy = striped(24, 16, 3);
    let other = striped(24, 16, 4);
    let hashes = vec![
        calculate_exact_hash(&a).hash,
        calculate_exact_hash(&other).hash,
        calculate_exact_hash(&a_copy).hash,
    ];
    assert_eq!(group_indices(&hashes, HashAlgorithm::Exact, 100), vec![vec![0, 2]]);
}

#[test]
fn two_pairs_form_two_groups() {
    let a = calculate_average_hash(&striped(64, 64, 8)).hash;
    let b = calculate_average_hash(&striped(64, 64, 32)).hash;
    assert_ne!(a, b);
    let hashes = vec![a.clone(), b.clone(), a, b];
    let groups = group_indices(&hashes, HashAlgorithm::Average, 95);
    assert_eq!(groups, vec![vec![0, 2], vec![1, 3]]);
}

#[test]
fn a_chain_of_similar_images_is_one_group() {
    let a = "0".repeat(64);
    let a1 = flip(&a, &[0, 1, 2]);
    let a2 = flip(&a1, &[10, 11, 12]);
    let hashes = vec![a.clone(), a1.clone(), a2.clone()];
    // 61 of 64 bits agree between neighbours, 58 of 64 between the ends.
    assert!(delo::algorithms::calculate_similarity(&a, &a1, HashAlgorithm::Perceptual).meets(95));
    assert!(delo::algorithms::calculate_similarity(&a1, &a2, HashAlgorithm::Perceptual).meets(95));
    assert!(!delo::algorithms::calculate_similarity(&a, &a2, HashAlgorithm::Perceptual).meets(95));
    assert_eq!(group_indices(&hashes, HashAlgorithm::Perceptual, 95), vec![vec![0, 1, 2]]);
    // Without the middle image the ends are not grouped.
    assert_eq!(
        group_indices(&vec![a, a2], HashAlgorithm::Perceptual, 95),
        Vec::<Vec<usize>>::new()
    );
}

#[test]
fn unrelated_fingerprints_form_no_group() {
    let hashes: Vec<String> = (0..100u64)
        .map(|i| {
            let bits = i.wrapping_mul(0x9E37_79B9_7F4A_7C15) ^ (i << 32) ^ 0x5555_AAAA_0F0F_F0F0;
            format!("{:064b}", bits)
        })
        .collect();
    assert_eq!(group_indices(&hashes, HashAlgorithm::Perceptual, 95), Vec::<Vec<usize>>::new());
}

#[test]
fn threshold_zero_groups_every_candidate_pair() {
    let a = "0".repeat(64);
    let b = "0".repeat(16) + &"1".repeat(48);
    let c = "1".repeat(64);
    let lonely = "01".repeat(32);
    let hashes = vec![a, b, c, lonely];
    assert_eq!(group_indices(&hashes, HashAlgorithm::Average, 0), vec![vec![0, 1, 2]]);
    assert_eq!(group_indices(&hashes, HashAlgorithm::Average, 100), Vec::<Vec<usize>>::new());
    assert_eq!(group_indices(&hashes, HashAlgorithm::Average, 25), vec![vec![0, 1, 2]]);
    assert_eq!(group_indices(&hashes, HashAlgorithm::Average, 26), vec![vec![1, 2]]);
}

#[test]
fn threshold_hundred_groups_only_equal_fingerprints() {
    let a = "0".repeat(64);
    let near = flip(&a, &[63]);
    let hashes = vec![a.clone(), near, a];
    assert_eq!(group_indices(&hashes, HashAlgorithm::Difference, 100), vec![vec![0, 2]]);
}

#[test]
fn failed_fingerprints_are_in_no_group() {
    let hashes = strings(&["", "abcd", "", "abcd", ""]);
    assert_eq!(group_indices(&hashes, HashAlgorithm::Exact, 100), vec![vec![1, 3]]);
    assert_eq!(group_indices(&hashes, HashAlgorithm::Exact, 0), vec![vec![1, 3]]);
}

#[test]
fn linked_images_share_a_set() {
    let hashes = strings(&["x1", "y2", "x1", "z3", "y2", "x1"]);
    let mut set = link_similar(&hashes, HashAlgorithm::Exact, 100);
    assert_eq!(set.find(0), set.find(2));
    assert_eq!(set.find(0), set.find(5));
    assert_eq!(set.find(1), set.find(4));
    assert_ne!(set.find(0), set.find(1));
    assert_ne!(set.find(3), set.find(0));
    assert_ne!(set.find(3), set.find(1));
}

#[test]
fn groups_are_disjoint_sorted_by_size_and_hold_two_or_more() {
    let hashes = strings(&["p", "q", "r", "q", "p", "q", "s", "r", "q"]);
    let groups =
        find_duplicate_groups(&paths(9), &results(&hashes), &known(9), HashAlgorithm::Exact, 100).unwrap();
    let sizes: Vec<usize> = groups.iter().map(|g| g.images.len()).collect();
    assert_eq!(sizes, vec![4, 2, 2]);
    let listed: Vec<Vec<&str>> =
        groups.iter().map(|g| g.images.iter().map(|i| i.path.as_str()).collect()).collect();
    assert_eq!(
        listed,
        vec![
            vec!["/images/1.png", "/images/3.png", "/images/5.png", "/images/8.png"],
            vec!["/images/0.png", "/images/4.png"],
            vec!["/images/2.png", "/images/7.png"]
        ]
    );
    let mut seen = std::collections::HashSet::new();
    for group in groups.iter() {
        assert!(group.images.len() >= 2);
        assert_eq!(group.similarity_threshold, 100);
        for image in group.images.iter() {
            assert!(seen.insert(image.path.clone()));
        }
    }
}

#[test]
fn groups_carry_fingerprint_and_metadata() {
    let hashes = strings(&["same", "other", "same"]);
    let groups =
        find_duplicate_groups(&paths(3), &results(&hashes), &known(3), HashAlgorithm::Exact, 90).unwrap();
    assert_eq!(groups.len(), 1);
    let image = &groups[0].images[1];
    assert_eq!(image.path, "/images/2.png");
    assert_eq!(image.hash, "same");
    assert_eq!(image.width, 640);
    assert_eq!(image.height, 480);
    assert_eq!(image.size_bytes, 1002);
    assert_eq!(image.created_at, "1700000002");
    assert_eq!(image.modified_at, "1700000102");
    assert_eq!(groups[0].similarity_threshold, 90);
}

#[test]
fn images_without_metadata_are_dropped() {
    let hashes = strings(&["a", "a", "a", "b", "b"]);
    let mut metadata = known(5);
    metadata[1] = None;
    metadata[4] = None;
    let groups =
        find_duplicate_groups(&paths(5), &results(&hashes), &metadata, HashAlgorithm::Exact, 100).unwrap();
    assert_eq!(groups.len(), 1);
    let listed: Vec<&str> = groups[0].images.iter().map(|i| i.path.as_str()).collect();
    assert_eq!(listed, vec!["/images/0.png", "/images/2.png"]);
}

#[test]
fn assembly_orders_by_size_and_keeps_ties_in_order() {
    let index_groups = vec![vec![0usize, 1], vec![2, 3, 4], vec![5, 6], vec![7, 8, 9]];
    let hashes = results(&strings(&["h"; 10]));
    let groups = assemble_groups(&index_groups, &paths(10), &hashes, &known(10), 80);
    let firsts: Vec<&str> = groups.iter().map(|g| g.images[0].path.as_str()).collect();
    assert_eq!(firsts, vec!["/images/2.png", "/images/7.png", "/images/0.png", "/images/5.png"]);
}

#[test]
fn mismatched_lists_are_an_internal_error() {
    let hashes = results(&strings(&["a", "a"]));
    assert_eq!(
        find_duplicate_groups(&paths(3), &hashes, &known(2), HashAlgorithm::Exact, 100).err(),
        Some(DetectionError::InternalError)
    );
    assert_eq!(
        find_duplicate_groups(&paths(2), &hashes, &known(1), HashAlgorithm::Exact, 100).err(),
        Some(DetectionError::InternalError)
    );
    // Paths without fingerprints are a mismatch too.
    assert_eq!(
        find_duplicate_groups(&paths(3), &Vec::new(), &known(3), HashAlgorithm::Exact, 100).err(),
        Some(DetectionError::InternalError)
    );
    assert_eq!(
        find_duplicate_groups(&Vec::new(), &Vec::new(), &known(1), HashAlgorithm::Exact, 100).err(),
        Some(DetectionError::InternalError)
    );
    let empty = find_duplicate_groups(&Vec::new(), &Vec::new(), &Vec::new(), HashAlgorithm::Exact, 100);
    assert_eq!(empty.unwrap().len(), 0);
}

#[test]
fn detection_checks_the_lengths_before_anything_else() {
    let params = DuplicateDetectionParams {
        folders: strings(&["/images"]),
        algorithm: HashAlgorithm::Exact,
        threshold: 100,
        recursive: false,
    };
    let found = Some(HashResult { hash: "ab".to_string(), width: 1, height: 1 });
    assert_eq!(
        detect_duplicates(&Vec::new(), &vec![found.clone()], &known(1), &params).err(),
        Some(DetectionError::InternalError)
    );
    assert_eq!(
        detect_duplicates(&paths(1), &Vec::new(), &Vec::new(), &params).err(),
        Some(DetectionError::InternalError)
    );
    assert_eq!(
        detect_duplicates(&paths(2), &vec![None, None], &known(1), &params).err(),
        Some(DetectionError::InternalError)
    );
    assert_eq!(
        detect_duplicates(&paths(1), &vec![found], &known(1), &params).unwrap().len(),
        0
    );
}

#[test]
fn failures_become_empty_fingerprints() {
    let found = HashResult { hash: "ff".to_string(), width: 3, height: 4 };
    let hashes = compute_image_hashes(&vec![None, Some(found), None]).unwrap();
    assert_eq!(hashes.len(), 3);
    assert_eq!((hashes[0].hash.as_str(), hashes[0].width, hashes[0].height), ("", 0, 0));
    assert_eq!((hashes[1].hash.as_str(), hashes[1].width, hashes[1].height), ("ff", 3, 4));
    assert_eq!((hashes[2].hash.as_str(), hashes[2].width, hashes[2].height), ("", 0, 0));
    assert_eq!(compute_image_hashes(&vec![None, None]).err(), Some(DetectionError::IoError));
    assert_eq!(compute_image_hashes(&Vec::new()).unwrap().len(), 0);
}

#[test]
fn no_images_give_no_groups() {
    let params = DuplicateDetectionParams {
        folders: Vec::new(),
        algorithm: HashAlgorithm::Perceptual,
        threshold: 90,
        recursive: true,
    };
    let groups = detect_duplicates(&Vec::new(), &Vec::new(), &Vec::new(), &params);
    assert_eq!(groups.unwrap().len(), 0);
}

#[test]
fn detection_fails_if_every_image_failed() {
    let params = DuplicateDetectionParams {
        folders: strings(&["/images"]),
        algorithm: HashAlgorithm::Average,
        threshold: 90,
        recursive: false,
    };
    let result = detect_duplicates(&paths(2), &vec![None, None], &known(2), &params);
    assert_eq!(result.err(), Some(DetectionError::IoError));
}

#[test]
fn detection_gives_the_same_groups_every_time() {
    let params = DuplicateDetectionParams {
        folders: strings(&["/images"]),
        algorithm: HashAlgorithm::Average,
        threshold: 95,
        recursive: false,
    };
    let a = "0".repeat(64);
    let b = "1".repeat(64);
    let fingerprints: Vec<Option<HashResult>> = vec![
        Some(HashResult { hash: a.clone(), width: 1, height: 1 }),
        None,
        Some(HashResult { hash: b.clone(), width: 2, height: 2 }),
        Some(HashResult { hash: a, width: 3, height: 3 }),
        Some(HashResult { hash: b.clone(), width: 4, height: 4 }),
        Some(HashResult { hash: b, width: 5, height: 5 }),
    ];
    let run = || {
        let groups = detect_duplicates(&paths(6), &fingerprints, &known(6), &params).unwrap();
        groups
            .iter()
            .map(|g| g.images.iter().map(|i| i.path.clone()).collect::<Vec<String>>())
            .collect::<Vec<Vec<String>>>()
    };
    let first = run();
    assert_eq!(
        first,
        vec![
            strings(&["/images/2.png", "/images/4.png", "/images/5.png"]),
            strings(&["/images/0.png", "/images/3.png"])
        ]
    );
    assert_eq!(run(), first);
}

#[test]
fn exact_groups_hold_equal_fingerprints_under_every_threshold() {
    let hashes = strings(&["aa", "bb", "aa", "cc", "bb", "aa"]);
    for threshold in [0, 1, 50, 100] {
        assert_eq!(
            group_indices(&hashes, HashAlgorithm::Exact, threshold),
            vec![vec![0, 2, 5], vec![1, 4]]
        );
    }
}

#[test]
fn no_path_occurs_twice_in_the_groups() {
    let hashes = strings(&["k", "k", "m", "k", "m", "n", "n", "n", "n"]);
    let groups =
        find_duplicate_groups(&paths(9), &results(&hashes), &known(9), HashAlgorithm::Exact, 0).unwrap();
    let all: Vec<&str> = groups.iter().flat_map(|g| g.images.iter().map(|i| i.path.as_str())).collect();
    assert_eq!(all.len(), 9);
    let unique: std::collections::HashSet<&str> = all.iter().copied().collect();
    assert_eq!(unique.len(), 9);
}
