//! The difference hash: one bit per pair of horizontal neighbours of a 9x8
//! grayscale thumbnail, set where the left pixel is the brighter.

use vstd::prelude::*;
use crate::types::HashResult;
use crate::utils::hamming::{hash_similarity, spec_hash_similarity, Similarity};
use crate::utils::image_utils::{resize_image, to_grayscale, GrayImage, RgbImage};
use crate::utils::text::{bit_char, is_binary, push_bit};

verus! {

/// The difference hash of a 9x8 image: bit `8 * y + x` tells whether the
/// pixel in column `x` of row `y` is brighter than its right neighbour.
pub open spec fn difference_bits(gray: &GrayImage) -> Seq<char> {
    Seq::new(
        64,
        |i: int| bit_char(gray.pixel_at(i % 8, i / 8) > gray.pixel_at(i % 8 + 1, i / 8)),
    )
}

/// Computes the difference hash of a 9x8 grayscale image.
pub fn difference_hash_of(gray: &GrayImage) -> (bits: String)
    requires
        gray.spec_width() == 9,
        gray.spec_height() == 8,
    ensures
        bits@ == difference_bits(gray),
        bits@.len() == 64,
        is_binary(bits@),
{
    let mut bits = String::new();
    let mut y: u32 = 0;
    while y < 8
        invariant
            y <= 8,
            gray.spec_width() == 9,
            gray.spec_height() == 8,
            bits@.len() == 8 * y,
            forall|i: int| 0 <= i < bits@.len() ==> bits@[i] == difference_bits(gray)[i],
        decreases 8 - y,
    {
        let mut x: u32 = 0;
        while x < 8
            invariant
                x <= 8,
                y < 8,
                gray.spec_width() == 9,
                gray.spec_height() == 8,
                bits@.len() == 8 * y + x,
                forall|i: int| 0 <= i < bits@.len() ==> bits@[i] == difference_bits(gray)[i],
            decreases 8 - x,
        {
            let current = gray.get_pixel(x, y);
            let next = gray.get_pixel(x + 1, y);
            push_bit(&mut bits, current > next);
            x += 1;
        }
        y += 1;
    }
    assert(bits@ =~= difference_bits(gray));
    bits
}

/// Computes the difference hash of an image: the image is resampled to 9x8,
/// converted to grayscale and hashed. The result carries the dimensions of
/// the image as given.
///
/// The bound on the width is what the resampler needs for its intermediate
/// buffer; it holds of every image on a 64-bit machine.
pub fn calculate_difference_hash(img: &RgbImage) -> (result: HashResult)
    requires
        128 * img.spec_width() <= isize::MAX,
    ensures
        result.width == img.spec_width(),
        result.height == img.spec_height(),
        result.hash@.len() == 64,
        is_binary(result.hash@),
{
    let small = resize_image(img, 9, 8);
    let gray = to_grayscale(&small);
    let hash = difference_hash_of(&gray);
    HashResult { hash, width: img.width(), height: img.height() }
}

/// Scores two difference hashes: the share of the characters of the first
/// that agree with the second.
pub fn compare_difference_hash(hash1: &str, hash2: &str) -> (score: Similarity)
    ensures
        score@ == spec_hash_similarity(hash1@, hash2@),
{
    hash_similarity(hash1, hash2)
}

} // verus!
