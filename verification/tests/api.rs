use delo::api::{
    get_detection_stats, get_supported_algorithms, validate_request, DetectionStats, FolderStats,
};
use delo::types::{
    DetectionError, DuplicateDetectionRequest, HashAlgorithm, HashRequest, SimilarityRequest,
};

fn request(threshold: u32) -> DuplicateDetectionRequest {
    DuplicateDetectionRequest {
        folder_paths: vec!["/a".to_string(), "/b".to_string()],
        algorithm: HashAlgorithm::Difference,
        similarity_threshold: threshold,
        recursive: true,
    }
}

#[test]
fn supported_algorithms_are_listed_in_order() {
    assert_eq!(
        get_supported_algorithms(),
        vec!["精确哈希", "均值哈希", "差值哈希", "感知哈希", "ORB特征"]
    );
}

#[test]
fn thresholds_above_100_are_invalid() {
    assert_eq!(validate_request(&request(0)), Ok(()));
    assert_eq!(validate_request(&request(100)), Ok(()));
    assert_eq!(validate_request(&request(101)), Err(DetectionError::InvalidInput));
}

#[test]
fn detection_stats_describe_the_request() {
    let stats: DetectionStats = get_detection_stats(&request(85), 412);
    assert_eq!(stats.image_count, 412);
    assert_eq!(stats.folder_count, 2);
    assert_eq!(stats.algorithm, "差值哈希");
    assert_eq!(stats.similarity_threshold, 85);
}

#[test]
fn folder_stats_count_entries() {
    let mut stats = FolderStats::new();
    assert_eq!(stats, FolderStats { total_files: 0, image_count: 0, folder_count: 1 });
    stats.record_file(true);
    stats.record_file(false);
    stats.record_file(true);
    stats.record_folder();
    assert_eq!(stats, FolderStats { total_files: 3, image_count: 2, folder_count: 2 });
}

#[test]
fn folder_stats_do_not_overflow() {
    let mut stats = FolderStats { total_files: usize::MAX, image_count: usize::MAX, folder_count: usize::MAX };
    stats.record_file(true);
    stats.record_folder();
    assert_eq!(
        stats,
        FolderStats { total_files: usize::MAX, image_count: usize::MAX, folder_count: usize::MAX }
    );
}

#[test]
fn requests_are_plain_data() {
    let hash = HashRequest { path: "/a/b.png".to_string(), algorithm: HashAlgorithm::ORB };
    assert_eq!(hash.clone().path, "/a/b.png");
    let sim = SimilarityRequest {
        hash1: "01".to_string(),
        hash2: "10".to_string(),
        algorithm: HashAlgorithm::Average,
    };
    assert_eq!(sim.algorithm, HashAlgorithm::Average);
    assert_eq!(sim.hash1.len(), sim.hash2.len());
}
