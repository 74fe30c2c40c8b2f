//! The average hash: one bit per pixel of an 8x8 grayscale thumbnail, set
//! where the pixel is brighter than the mean.

use vstd::prelude::*;
use crate::types::HashResult;
use crate::utils::hamming::{hash_similarity, spec_hash_similarity, Similarity};
use crate::utils::image_utils::{
    average_pixel_value, generate_bits_from_threshold, mean_intensity, resize_image, threshold_bits,
    to_grayscale, GrayImage, RgbImage,
};
use crate::utils::text::is_binary;

verus! {

/// The average hash of a sequence of intensities.
pub open spec fn average_bits(pixels: Seq<u8>) -> Seq<char> {
    threshold_bits(pixels, mean_intensity(pixels) as u8)
}

/// Computes the average hash of a non-empty grayscale image: one character
/// per pixel, row by row, `'1'` where the pixel exceeds the mean.
pub fn average_hash_of(gray: &GrayImage) -> (bits: String)
    requires
        gray.pixels().len() > 0,
    ensures
        bits@ == average_bits(gray.pixels()),
        bits@.len() == gray.pixels().len(),
        is_binary(bits@),
{
    let average = average_pixel_value(gray);
    generate_bits_from_threshold(gray, average)
}

/// Computes the average hash of an image: the image is resampled to 8x8,
/// converted to grayscale and hashed. The result carries the dimensions of
/// the image as given.
///
/// The bound on the width is what the resampler needs for its intermediate
/// buffer; it holds of every image on a 64-bit machine.
pub fn calculate_average_hash(img: &RgbImage) -> (result: HashResult)
    requires
        128 * img.spec_width() <= isize::MAX,
    ensures
        result.width == img.spec_width(),
        result.height == img.spec_height(),
        exists|pixels: Seq<u8>| pixels.len() == 64 && result.hash@ == average_bits(pixels),
        result.hash@.len() == 64,
        is_binary(result.hash@),
{
    let small = resize_image(img, 8, 8);
    let gray = to_grayscale(&small);
    let hash = average_hash_of(&gray);
    HashResult { hash, width: img.width(), height: img.height() }
}

/// Scores two average hashes: the share of the characters of the first that
/// agree with the second.
pub fn compare_average_hash(hash1: &str, hash2: &str) -> (score: Similarity)
    ensures
        score@ == spec_hash_similarity(hash1@, hash2@),
{
    hash_similarity(hash1, hash2)
}

} // verus!
