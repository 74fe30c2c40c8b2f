use delo::algorithms::average_hash::{average_hash_of, calculate_average_hash, compare_average_hash};
use delo::algorithms::difference_hash::{
    calculate_difference_hash, compare_difference_hash, difference_hash_of,
};
use delo::algorithms::exact_hash::{calculate_exact_hash, compare_exact_hash};
use delo::algorithms::calculate_hash;
use delo::algorithms::perceptual_hash::compare_perceptual_hash;
use delo::types::{DetectionError, HashAlgorithm};
use delo::utils::file_utils::{is_image_file, is_supported_extension};
use delo::utils::hash_utils::{
    compute_data_sha256, deserialize_from_base64, serialize_to_base64, split_hash_for_lsh,
};
use delo::utils::image_utils::{
    average_pixel_value, bits_to_bytes, generate_bits_from_threshold, resize_image, threshold_matrix,
    to_grayscale, GrayImage, RgbImage,
};

fn constant_rgb(width: u32, height: u32, value: u8) -> RgbImage {
    RgbImage::from_raw(width, height, vec![value; (3 * width * height) as usize]).unwrap()
}

#[test]
fn algorithm_names_are_the_display_names() {
    assert_eq!(HashAlgorithm::Exact.name(), "精确哈希");
    assert_eq!(HashAlgorithm::Average.name(), "均值哈希");
    assert_eq!(HashAlgorithm::Difference.name(), "差值哈希");
    assert_eq!(HashAlgorithm::Perceptual.name(), "感知哈希");
    assert_eq!(HashAlgorithm::ORB.name(), "ORB特征");
}

#[test]
fn only_orb_is_feature_based() {
    assert!(HashAlgorithm::ORB.is_feature_based());
    assert!(!HashAlgorithm::Exact.is_feature_based());
    assert!(!HashAlgorithm::Average.is_feature_based());
    assert!(!HashAlgorithm::Difference.is_feature_based());
    assert!(!HashAlgorithm::Perceptual.is_feature_based());
}

#[test]
fn error_messages_name_the_failure() {
    assert_eq!(DetectionError::ImageTooSmall.message(), "image too small");
    assert_eq!(DetectionError::CodecError.message(), "feature data truncated/invalid");
}

#[test]
fn rgb_image_needs_three_bytes_per_pixel() {
    assert!(RgbImage::from_raw(2, 2, vec![0u8; 12]).is_some());
    assert!(RgbImage::from_raw(2, 2, vec![0u8; 11]).is_none());
    assert!(RgbImage::from_raw(2, 2, vec![0u8; 13]).is_none());
    let img = RgbImage::from_raw(3, 1, vec![1, 2, 3, 4, 5, 6, 7, 8, 9]).unwrap();
    assert_eq!(img.width(), 3);
    assert_eq!(img.height(), 1);
    assert_eq!(img.as_raw(), &vec![1, 2, 3, 4, 5, 6, 7, 8, 9]);
}

#[test]
fn gray_image_is_indexed_row_by_row() {
    assert!(GrayImage::from_raw(2, 3, vec![0u8; 5]).is_none());
    let img = GrayImage::from_raw(3, 2, vec![10, 20, 30, 40, 50, 60]).unwrap();
    assert_eq!(img.get_pixel(0, 0), 10);
    assert_eq!(img.get_pixel(2, 0), 30);
    assert_eq!(img.get_pixel(0, 1), 40);
    assert_eq!(img.get_pixel(2, 1), 60);
}

#[test]
fn mean_is_rounded_down() {
    let img = GrayImage::from_raw(2, 2, vec![1, 2, 3, 5]).unwrap();
    assert_eq!(average_pixel_value(&img), 2);
    let bright = GrayImage::from_raw(1, 3, vec![255, 255, 255]).unwrap();
    assert_eq!(average_pixel_value(&bright), 255);
}

#[test]
fn threshold_bits_are_strictly_greater() {
    let img = GrayImage::from_raw(4, 1, vec![9, 10, 11, 200]).unwrap();
    assert_eq!(generate_bits_from_threshold(&img, 10), "0011");
}

#[test]
fn average_hash_of_known_pixels() {
    let mut pixels = vec![0u8; 64];
    pixels[0] = 200;
    pixels[63] = 100;
    // The mean is (200 + 100) / 64 = 4, so exactly two pixels exceed it.
    let img = GrayImage::from_raw(8, 8, pixels).unwrap();
    let mut expected = String::from("1");
    expected.push_str(&"0".repeat(62));
    expected.push('1');
    assert_eq!(average_hash_of(&img), expected);
}

#[test]
fn resize_gives_the_requested_dimensions() {
    let img = constant_rgb(20, 10, 80);
    let small = resize_image(&img, 8, 8);
    assert_eq!(small.width(), 8);
    assert_eq!(small.height(), 8);
    assert_eq!(small.as_raw().len(), 192);
    let gray = to_grayscale(&small);
    assert_eq!(gray.width(), 8);
    assert_eq!(gray.height(), 8);
    assert_eq!(gray.as_raw().len(), 64);
}

#[test]
fn grayscale_of_gray_pixels_keeps_the_intensity() {
    let img = constant_rgb(4, 4, 128);
    let gray = to_grayscale(&img);
    for &p in gray.as_raw().iter() {
        assert!(p == 127 || p == 128);
    }
    let black = to_grayscale(&constant_rgb(4, 4, 0));
    assert_eq!(black.as_raw(), &vec![0u8; 16]);
}

#[test]
fn average_hash_of_constant_image_has_no_bit_set() {
    let result = calculate_average_hash(&constant_rgb(40, 30, 90));
    assert_eq!(result.hash, "0".repeat(64));
    assert_eq!(result.width, 40);
    assert_eq!(result.height, 30);
}

#[test]
fn average_hash_tells_left_from_right() {
    // Left half black, right half white.
    let mut data = Vec::new();
    for _y in 0..16 {
        for x in 0..16 {
            let v = if x < 8 { 0u8 } else { 255u8 };
            data.extend_from_slice(&[v, v, v]);
        }
    }
    let img = RgbImage::from_raw(16, 16, data).unwrap();
    let result = calculate_average_hash(&img);
    assert_eq!(result.hash, "00001111".repeat(8));
}

#[test]
fn difference_hash_of_known_pixels() {
    // Every row falls from left to right, so every bit is set.
    let mut falling = Vec::new();
    for _y in 0..8 {
        for x in 0..9u8 {
            falling.push(100 - x);
        }
    }
    let img = GrayImage::from_raw(9, 8, falling).unwrap();
    assert_eq!(difference_hash_of(&img), "1".repeat(64));
    let flat = GrayImage::from_raw(9, 8, vec![7u8; 72]).unwrap();
    assert_eq!(difference_hash_of(&flat), "0".repeat(64));
}

#[test]
fn difference_hash_of_constant_image_has_no_bit_set() {
    let result = calculate_difference_hash(&constant_rgb(33, 21, 200));
    assert_eq!(result.hash, "0".repeat(64));
    assert_eq!(result.width, 33);
    assert_eq!(result.height, 21);
}

#[test]
fn sha256_of_abc() {
    assert_eq!(
        compute_data_sha256(b"abc"),
        "ba7816bf8f01cfea414140de5dae2223b00361a396177a9cb410ff61f20015ad"
    );
    assert_eq!(
        compute_data_sha256(b""),
        "e3b0c44298fc1c149afbf4c8996fb92427ae41e4649b934ca495991b7852b855"
    );
}

#[test]
fn exact_hash_is_the_digest_of_the_pixel_bytes() {
    let img = RgbImage::from_raw(1, 1, vec![b'a', b'b', b'c']).unwrap();
    let result = calculate_exact_hash(&img);
    assert_eq!(result.hash, "ba7816bf8f01cfea414140de5dae2223b00361a396177a9cb410ff61f20015ad");
    assert_eq!(result.width, 1);
    assert_eq!(result.height, 1);
    let other = RgbImage::from_raw(1, 1, vec![b'a', b'b', b'd']).unwrap();
    assert_ne!(calculate_exact_hash(&other).hash, result.hash);
}

#[test]
fn exact_hashes_compare_by_equality() {
    let same = compare_exact_hash("abc", "abc");
    assert_eq!(same.percent(), 100);
    let different = compare_exact_hash("abc", "abd");
    assert_eq!(different.percent(), 0);
}

#[test]
fn bit_hash_comparisons_count_agreeing_characters() {
    let score = compare_average_hash("1100", "1001");
    assert_eq!((score.matched, score.total), (2, 4));
    assert_eq!(score.percent(), 50);
    let score = compare_difference_hash("1111", "1110");
    assert_eq!((score.matched, score.total), (3, 4));
    assert_eq!(score.percent(), 75);
}

#[test]
fn perceptual_comparison_counts_the_length_difference() {
    let score = compare_perceptual_hash("1100", "1101");
    assert_eq!((score.matched, score.total), (3, 4));
    // One differing position and two missing characters.
    let score = compare_perceptual_hash("1100", "10");
    assert_eq!((score.matched, score.total), (1, 4));
    // The distance exceeds the length of the first hash.
    let score = compare_perceptual_hash("1", "00000");
    assert_eq!((score.matched, score.total), (0, 1));
}

#[test]
fn base64_of_hello() {
    assert_eq!(serialize_to_base64(b"hello"), "aGVsbG8=");
    assert_eq!(serialize_to_base64(b""), "");
    assert_eq!(deserialize_from_base64("aGVsbG8="), Ok(b"hello".to_vec()));
}

#[test]
fn base64_rejects_what_is_not_canonical() {
    assert_eq!(deserialize_from_base64("a"), Err(DetectionError::CodecError));
    assert_eq!(deserialize_from_base64("aGVsbG8"), Err(DetectionError::CodecError));
    assert_eq!(deserialize_from_base64("****"), Err(DetectionError::CodecError));
}

#[test]
fn bands_are_of_equal_length_and_drop_the_remainder() {
    assert_eq!(split_hash_for_lsh("abcdefgh", 4), vec!["ab", "cd", "ef", "gh"]);
    assert_eq!(split_hash_for_lsh("abcdefghij", 4), vec!["ab", "cd", "ef", "gh"]);
    assert_eq!(split_hash_for_lsh("abcdef", 1), vec!["abcdef"]);
    let none: Vec<String> = Vec::new();
    assert_eq!(split_hash_for_lsh("abc", 4), none);
    assert_eq!(split_hash_for_lsh("", 2), none);
}

#[test]
fn bands_of_a_64_bit_hash() {
    let hash = "0123456789".repeat(6) + "abcd";
    let bands = split_hash_for_lsh(&hash, 6);
    assert_eq!(bands.len(), 6);
    for band in bands.iter() {
        assert_eq!(band, "0123456789");
    }
}

#[test]
fn bits_pack_highest_bit_first() {
    assert_eq!(bits_to_bytes("10000000"), vec![0x80]);
    assert_eq!(bits_to_bytes("00000001"), vec![0x01]);
    assert_eq!(bits_to_bytes("1111000010101010"), vec![0xF0, 0xAA]);
    assert_eq!(bits_to_bytes("101"), vec![0xA0]);
    assert_eq!(bits_to_bytes("111111111"), vec![0xFF, 0x80]);
    assert_eq!(bits_to_bytes(""), Vec::<u8>::new());
    assert_eq!(bits_to_bytes("1x10"), vec![0xA0]);
}

#[test]
fn matrix_is_thresholded_row_by_row() {
    let matrix = vec![vec![5i64, -1, 7], vec![6, 6, 100]];
    assert_eq!(threshold_matrix(&matrix, 6), "001001");
    assert_eq!(threshold_matrix(&Vec::new(), 0), "");
}

#[test]
fn image_extensions_are_recognised_in_any_case() {
    for ext in ["jpg", "jpeg", "png", "gif", "webp", "bmp", "tiff"] {
        assert!(is_supported_extension(ext));
        assert!(is_supported_extension(&ext.to_uppercase()));
    }
    assert!(is_supported_extension("JpEg"));
    assert!(!is_supported_extension("tif"));
    assert!(!is_supported_extension("txt"));
    assert!(!is_supported_extension(""));
    assert!(!is_supported_extension("jpgx"));
}

#[test]
fn image_files_are_known_by_their_extension() {
    assert!(is_image_file("photos/holiday.JPG"));
    assert!(is_image_file("a.b.png"));
    assert!(!is_image_file("notes.txt"));
    assert!(!is_image_file("png"));
    assert!(!is_image_file(".png"));
}

#[test]
fn integer_fingerprints_are_computed_by_algorithm() {
    let img = constant_rgb(16, 12, 77);
    let exact = calculate_hash(&img, HashAlgorithm::Exact).unwrap();
    assert_eq!(exact.hash, calculate_exact_hash(&img).hash);
    assert_eq!((exact.width, exact.height), (16, 12));
    let average = calculate_hash(&img, HashAlgorithm::Average).unwrap();
    assert_eq!(average.hash, "0".repeat(64));
    let difference = calculate_hash(&img, HashAlgorithm::Difference).unwrap();
    assert_eq!(difference.hash, "0".repeat(64));
    assert!(calculate_hash(&img, HashAlgorithm::Perceptual).is_none());
    assert!(calculate_hash(&img, HashAlgorithm::ORB).is_none());
}

#[test]
fn two_constant_images_of_one_intensity_are_fully_similar() {
    let a = calculate_average_hash(&constant_rgb(50, 40, 140));
    let b = calculate_average_hash(&constant_rgb(20, 90, 140));
    assert_eq!(a.hash, b.hash);
    assert_eq!(compare_average_hash(&a.hash, &b.hash).percent(), 100);
}

#[test]
fn extension_is_what_follows_the_last_dot_of_the_file_name() {
    assert!(is_image_file("photo.jpg/"));
    assert!(is_image_file("album.v2/cover.WebP"));
    assert!(!is_image_file("archive.png.gz"));
    assert!(!is_image_file("album.png/notes"));
    assert!(!is_image_file("photo."));
    assert!(!is_image_file(""));
    assert!(!is_image_file("jpeg"));
}

#[test]
fn bare_file_names_are_judged_by_what_follows_their_last_dot() {
    assert!(is_image_file("B.JPeG"));
    assert!(is_image_file("a.b.gif"));
    assert!(is_image_file("..png"));
    assert!(is_image_file("a..webp"));
    assert!(!is_image_file("b.tif"));
    assert!(!is_image_file("jpg"));
    assert!(!is_image_file(".jpg"));
    assert!(!is_image_file("."));
    assert!(!is_image_file("..."));
    assert!(!is_image_file("photo.bmp."));
    assert!(is_image_file("a/B.JPeG"));
    assert!(!is_image_file("a/b.tif"));
    assert!(!is_image_file("a/jpg"));
}
