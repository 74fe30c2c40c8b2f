use delo::algorithms::calculate_similarity;
use delo::algorithms::orb::codec::{
    decode_orb, deserialize_features, encode_orb, serialize_features, OrbRecord,
};
use delo::algorithms::orb::describe::{
    brief_descriptor, keypoint_moments, orb_keypoints, strongest_keypoints, SamplePair,
};
use delo::algorithms::orb::fast::{
    corner_response, corner_test, detect_fast_keypoints, find_arc, get_bresenham_circle,
    get_bresenham_circle_pattern, read_ring, KeyPoint,
};
use delo::algorithms::orb::matching::{
    calculate_orb_similarity, compute_hamming_distance, filter_matches_by_distance_consistency,
    match_descriptors, orb_score,
};
use delo::types::{DetectionError, HashAlgorithm};
use delo::utils::hash_utils::serialize_to_base64;
use delo::utils::image_utils::GrayImage;

fn gray_with(width: u32, height: u32, spots: &[(u32, u32, u8)]) -> GrayImage {
    let mut data = vec![0u8; (width * height) as usize];
    for &(x, y, v) in spots {
        data[(y * width + x) as usize] = v;
    }
    GrayImage::from_raw(width, height, data).unwrap()
}

fn record(x: u32, y: u32, hot: usize) -> OrbRecord {
    let mut descriptor = [0u8; 32];
    descriptor[hot] = 0xFF;
    OrbRecord { x, y, angle_bits: 0, descriptor }
}

#[test]
fn ring_has_sixteen_points_at_radius_three() {
    let pattern = get_bresenham_circle_pattern();
    assert_eq!(
        pattern,
        vec![
            (0, -3),
            (1, -3),
            (2, -2),
            (3, -1),
            (3, 0),
            (3, 1),
            (2, 2),
            (1, 3),
            (0, 3),
            (-1, 3),
            (-2, 2),
            (-3, 1),
            (-3, 0),
            (-3, -1),
            (-2, -2),
            (-1, -3)
        ]
    );
    let points = get_bresenham_circle(10, 20);
    assert_eq!(points[0], (10, 17));
    assert_eq!(points[4], (13, 20));
    assert_eq!(points[8], (10, 23));
    assert_eq!(points[12], (7, 20));
}

#[test]
fn ring_is_read_clockwise_from_north() {
    let img = gray_with(12, 12, &[(5, 2, 11), (8, 5, 44), (5, 8, 88), (2, 5, 122)]);
    let ring = read_ring(&img, 5, 5);
    assert_eq!(ring.len(), 16);
    assert_eq!(ring[0], 11);
    assert_eq!(ring[4], 44);
    assert_eq!(ring[8], 88);
    assert_eq!(ring[12], 122);
}

#[test]
fn arcs_wrap_round_the_ring() {
    let mut flags = vec![false; 16];
    for k in 0..9 {
        flags[(12 + k) % 16] = true;
    }
    assert!(find_arc(&flags));
    flags[15] = false;
    assert!(!find_arc(&flags));
    assert!(find_arc(&vec![true; 16]));
    assert!(!find_arc(&vec![false; 16]));
}

#[test]
fn corner_needs_three_compass_points_and_an_arc_of_nine() {
    // All sixteen ring points darker than the centre.
    assert!(corner_test(&vec![0u8; 16], 100, 20));
    // Not darker by more than the threshold.
    assert!(!corner_test(&vec![80u8; 16], 100, 20));
    assert!(corner_test(&vec![79u8; 16], 100, 20));
    // Nine contiguous brighter points from north to south: three compass points.
    let mut ring = vec![50u8; 16];
    for k in 0..9 {
        ring[k] = 200;
    }
    assert!(corner_test(&ring, 50, 20));
    // Nine contiguous brighter points that cover only two compass points.
    let mut ring = vec![50u8; 16];
    for k in 1..10 {
        ring[k] = 200;
    }
    assert!(!corner_test(&ring, 50, 20));
    // Eight contiguous points are not enough.
    let mut ring = vec![50u8; 16];
    for k in 0..8 {
        ring[k] = 200;
    }
    ring[12] = 200;
    assert!(!corner_test(&ring, 50, 20));
}

#[test]
fn corner_score_sums_absolute_differences() {
    assert_eq!(corner_response(&vec![0u8; 16], 255), 4080);
    let mut ring = vec![100u8; 16];
    ring[0] = 110;
    ring[1] = 85;
    assert_eq!(corner_response(&ring, 100), 25);
}

#[test]
fn image_smaller_than_twelve_is_too_small() {
    let narrow = gray_with(11, 40, &[]);
    assert_eq!(detect_fast_keypoints(&narrow, 20, 500), Err(DetectionError::ImageTooSmall));
    let low = gray_with(40, 11, &[]);
    assert_eq!(detect_fast_keypoints(&low, 20, 500), Err(DetectionError::ImageTooSmall));
    assert_eq!(orb_keypoints(&low, 20, 500, 50), Err(DetectionError::ImageTooSmall));
    let smallest = gray_with(12, 12, &[]);
    assert_eq!(detect_fast_keypoints(&smallest, 20, 500), Ok(Vec::new()));
}

#[test]
fn flat_image_has_no_features() {
    let flat = gray_with(20, 20, &[]);
    assert_eq!(detect_fast_keypoints(&flat, 20, 500), Ok(Vec::new()));
    assert_eq!(orb_keypoints(&flat, 20, 500, 50), Err(DetectionError::NoFeatures));
}

#[test]
fn bright_spots_are_corners_in_scan_order() {
    let img = gray_with(30, 30, &[(20, 20, 255), (10, 10, 100)]);
    let found = detect_fast_keypoints(&img, 20, 500).unwrap();
    assert_eq!(
        found,
        vec![KeyPoint { x: 10, y: 10, score: 1600 }, KeyPoint { x: 20, y: 20, score: 4080 }]
    );
}

#[test]
fn cap_keeps_the_highest_scores() {
    let img = gray_with(30, 30, &[(20, 20, 255), (10, 10, 100), (20, 10, 180)]);
    let found = detect_fast_keypoints(&img, 20, 2).unwrap();
    assert_eq!(
        found,
        vec![KeyPoint { x: 20, y: 20, score: 4080 }, KeyPoint { x: 20, y: 10, score: 2880 }]
    );
    let strongest = orb_keypoints(&img, 20, 500, 1).unwrap();
    assert_eq!(strongest, vec![KeyPoint { x: 20, y: 20, score: 4080 }]);
}

#[test]
fn spots_near_the_border_are_not_tested() {
    let img = gray_with(20, 20, &[(2, 10, 255), (10, 17, 255)]);
    assert_eq!(detect_fast_keypoints(&img, 20, 500), Ok(Vec::new()));
}

#[test]
fn strongest_keypoints_keep_ties_in_order() {
    let found = vec![
        KeyPoint { x: 1, y: 1, score: 10 },
        KeyPoint { x: 2, y: 2, score: 30 },
        KeyPoint { x: 3, y: 3, score: 10 },
        KeyPoint { x: 4, y: 4, score: 30 },
    ];
    let kept = strongest_keypoints(&found, 3);
    assert_eq!(
        kept,
        vec![
            KeyPoint { x: 2, y: 2, score: 30 },
            KeyPoint { x: 4, y: 4, score: 30 },
            KeyPoint { x: 1, y: 1, score: 10 }
        ]
    );
    assert_eq!(strongest_keypoints(&found, 0), Vec::new());
}

#[test]
fn moments_weigh_intensity_by_offset() {
    let img = gray_with(30, 30, &[(11, 10, 255)]);
    assert_eq!(keypoint_moments(&img, 10, 10), (255, 0));
    let img = gray_with(30, 30, &[(10, 8, 100)]);
    assert_eq!(keypoint_moments(&img, 10, 10), (0, -200));
    let img = gray_with(30, 30, &[(13, 14, 10), (5, 10, 2)]);
    assert_eq!(keypoint_moments(&img, 10, 10), (3 * 10 - 5 * 2, 4 * 10));
}

#[test]
fn moments_stay_inside_the_disk_and_the_image() {
    // (17, 17) is in the window round (10, 10) but outside the disk of radius 7.
    let img = gray_with(30, 30, &[(17, 17, 255), (18, 10, 255)]);
    assert_eq!(keypoint_moments(&img, 10, 10), (0, 0));
    // (17, 10) lies on the rim of the disk.
    let img = gray_with(30, 30, &[(17, 10, 1)]);
    assert_eq!(keypoint_moments(&img, 10, 10), (7, 0));
    // A keypoint in the corner of the image.
    let img = gray_with(30, 30, &[(1, 2, 50)]);
    assert_eq!(keypoint_moments(&img, 0, 0), (50, 100));
}

#[test]
fn descriptor_bits_compare_sample_points() {
    let img = gray_with(12, 12, &[(1, 0, 255)]);
    let darker_first = SamplePair { x1: 0, y1: 0, x2: 1, y2: 0 };
    let brighter_first = SamplePair { x1: 1, y1: 0, x2: 0, y2: 0 };
    let outside = SamplePair { x1: -1, y1: 0, x2: 1, y2: 0 };
    let beyond = SamplePair { x1: 0, y1: 0, x2: 12, y2: 0 };
    assert_eq!(brief_descriptor(&img, &vec![darker_first; 256]), [0xFFu8; 32]);
    assert_eq!(brief_descriptor(&img, &vec![brighter_first; 256]), [0u8; 32]);
    assert_eq!(brief_descriptor(&img, &vec![outside; 256]), [0u8; 32]);
    assert_eq!(brief_descriptor(&img, &vec![beyond; 256]), [0u8; 32]);
    let mut pairs = vec![brighter_first; 256];
    pairs[0] = darker_first;
    pairs[9] = darker_first;
    pairs[255] = darker_first;
    let descriptor = brief_descriptor(&img, &pairs);
    assert_eq!(descriptor[0], 0x01);
    assert_eq!(descriptor[1], 0x02);
    assert_eq!(descriptor[31], 0x80);
    assert_eq!(descriptor[2..31], [0u8; 29]);
}

#[test]
fn payload_layout_is_little_endian() {
    let mut descriptor = [0u8; 32];
    for (i, b) in descriptor.iter_mut().enumerate() {
        *b = i as u8;
    }
    let rec = OrbRecord { x: 1, y: 0x0102_0304, angle_bits: 0x3F80_0000, descriptor };
    let data = serialize_features(&vec![rec]);
    assert_eq!(data.len(), 48);
    assert_eq!(&data[0..4], &[1, 0, 0, 0]);
    assert_eq!(&data[4..8], &[1, 0, 0, 0]);
    assert_eq!(&data[8..12], &[4, 3, 2, 1]);
    assert_eq!(&data[12..16], &[0, 0, 0x80, 0x3F]);
    assert_eq!(&data[16..48], &descriptor[..]);
    assert_eq!(serialize_features(&Vec::new()), vec![0, 0, 0, 0]);
}

#[test]
fn payload_round_trip() {
    let records: Vec<OrbRecord> = (0..7).map(|i| record(i * 3, i * 5 + 1, i as usize)).collect();
    assert_eq!(deserialize_features(&serialize_features(&records)), Ok(records.clone()));
    assert_eq!(decode_orb(&encode_orb(&records)), Ok(records));
    assert_eq!(decode_orb(&encode_orb(&Vec::new())), Ok(Vec::new()));
}

#[test]
fn round_trip_of_fifty_records() {
    let records: Vec<OrbRecord> =
        (0..50).map(|i| OrbRecord { x: i, y: 1000 - i, angle_bits: i * 77, descriptor: [i as u8; 32] }).collect();
    let text = encode_orb(&records);
    assert_eq!(text.len(), 4 * ((4 + 50 * 44 + 2) / 3));
    assert_eq!(decode_orb(&text), Ok(records));
}

#[test]
fn encoding_keeps_at_most_fifty_records() {
    let records: Vec<OrbRecord> = (0..60).map(|i| record(i, i, (i % 32) as usize)).collect();
    let decoded = decode_orb(&encode_orb(&records)).unwrap();
    assert_eq!(decoded.len(), 50);
    assert_eq!(decoded[..], records[..50]);
}

#[test]
fn malformed_payloads_are_codec_errors() {
    assert_eq!(deserialize_features(&[]), Err(DetectionError::CodecError));
    assert_eq!(deserialize_features(&[1, 0, 0]), Err(DetectionError::CodecError));
    // One record declared, none present.
    assert_eq!(deserialize_features(&[1, 0, 0, 0]), Err(DetectionError::CodecError));
    let mut short = vec![1u8, 0, 0, 0];
    short.extend_from_slice(&[0u8; 43]);
    assert_eq!(deserialize_features(&short), Err(DetectionError::CodecError));
    assert_eq!(deserialize_features(&[0xFF, 0xFF, 0xFF, 0xFF, 0, 0]), Err(DetectionError::CodecError));
    assert_eq!(decode_orb("not base64!"), Err(DetectionError::CodecError));
    assert_eq!(decode_orb(&serialize_to_base64(&[2, 0, 0, 0, 9, 9])), Err(DetectionError::CodecError));
}

#[test]
fn bytes_after_the_last_record_are_ignored() {
    let mut data = serialize_features(&vec![record(4, 5, 6)]);
    data.extend_from_slice(&[1, 2, 3]);
    assert_eq!(deserialize_features(&data), Ok(vec![record(4, 5, 6)]));
    assert_eq!(deserialize_features(&[0, 0, 0, 0, 7]), Ok(Vec::new()));
}

#[test]
fn descriptor_distance_counts_bits() {
    let zero = [0u8; 32];
    let ones = [0xFFu8; 32];
    assert_eq!(compute_hamming_distance(&zero, &zero), 0);
    assert_eq!(compute_hamming_distance(&zero, &ones), 256);
    assert_eq!(compute_hamming_distance(&record(0, 0, 3).descriptor, &record(0, 0, 4).descriptor), 16);
}

#[test]
fn each_record_matches_itself() {
    let records: Vec<OrbRecord> = (0..5).map(|i| record(i * 10, 7, i as usize)).collect();
    let matches = match_descriptors(&records, &records);
    assert_eq!(matches, vec![(0, 0), (1, 1), (2, 2), (3, 3), (4, 4)]);
    let score = orb_score(&records, &records);
    assert_eq!((score.matched, score.total), (5, 5));
}

#[test]
fn distance_and_ratio_tests() {
    let query = vec![OrbRecord { x: 0, y: 0, angle_bits: 0, descriptor: [0u8; 32] }];
    let at = |bits: usize| {
        let mut descriptor = [0u8; 32];
        for k in 0..bits {
            descriptor[k / 8] |= 1 << (k % 8);
        }
        OrbRecord { x: 0, y: 0, angle_bits: 0, descriptor }
    };
    // A single neighbour nearer than 80 bits is a match.
    assert_eq!(match_descriptors(&query, &vec![at(79)]), vec![(0, 0)]);
    assert_eq!(match_descriptors(&query, &vec![at(80)]), Vec::new());
    // 40 / 51 is less than 0.8, 40 / 50 is not.
    assert_eq!(match_descriptors(&query, &vec![at(51), at(40)]), vec![(0, 1)]);
    assert_eq!(match_descriptors(&query, &vec![at(50), at(40)]), Vec::new());
    // Two nearest neighbours at the same distance fail the ratio test.
    assert_eq!(match_descriptors(&query, &vec![at(10), at(10)]), Vec::new());
    assert_eq!(match_descriptors(&query, &vec![at(0), at(0)]), Vec::new());
    assert_eq!(match_descriptors(&query, &vec![at(0), at(1)]), vec![(0, 0)]);
    assert_eq!(match_descriptors(&query, &Vec::new()), Vec::new());
}

#[test]
fn consistency_filter_drops_the_outlier() {
    let query: Vec<OrbRecord> = (0..12).map(|i| record(i * 10, 0, i as usize)).collect();
    let mut targets = query.clone();
    targets[0].x = 1000;
    targets[0].y = 1000;
    let matches = match_descriptors(&query, &targets);
    assert_eq!(matches, (1..12).map(|i| (i, i)).collect::<Vec<(usize, usize)>>());
    let score = orb_score(&query, &targets);
    assert_eq!((score.matched, score.total), (11, 12));
    assert_eq!(score.percent(), 91);
}

#[test]
fn consistency_filter_accepts_a_ratio_of_exactly_three_halves() {
    let q = vec![record(0, 0, 0), record(2, 0, 1), record(0, 2, 2), record(2, 2, 3)];
    let t = vec![record(0, 0, 0), record(3, 0, 1), record(0, 3, 2), record(3, 3, 3)];
    let matches = vec![(0, 0), (1, 1), (2, 2), (3, 3)];
    assert_eq!(filter_matches_by_distance_consistency(&matches, &q, &t), matches);
    // Stretched by more than one and a half, nothing is consistent.
    let far = vec![record(0, 0, 0), record(4, 0, 1), record(0, 4, 2), record(4, 4, 3)];
    assert_eq!(filter_matches_by_distance_consistency(&matches, &q, &far), Vec::new());
    // Fewer than four matches pass unchanged.
    let few = vec![(0, 0), (1, 1), (2, 2)];
    assert_eq!(filter_matches_by_distance_consistency(&few, &q, &far), few);
}

#[test]
fn identical_features_are_fully_similar() {
    let records: Vec<OrbRecord> = (0..20).map(|i| record(i * 9, i * 4, i as usize)).collect();
    let text = encode_orb(&records);
    let score = calculate_orb_similarity(&text, &text).unwrap();
    assert_eq!((score.matched, score.total), (20, 20));
    assert_eq!(calculate_similarity(&text, &text, HashAlgorithm::ORB).percent(), 100);
}

#[test]
fn score_is_zero_if_one_side_has_no_descriptors() {
    let some = encode_orb(&vec![record(1, 1, 1)]);
    let none = encode_orb(&Vec::new());
    let score = calculate_orb_similarity(&some, &none).unwrap();
    assert_eq!((score.matched, score.total), (0, 1));
    assert_eq!(calculate_orb_similarity(&some, "???"), Err(DetectionError::CodecError));
    assert_eq!(calculate_orb_similarity("???", &some), Err(DetectionError::CodecError));
}
