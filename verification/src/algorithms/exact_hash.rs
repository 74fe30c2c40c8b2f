//! The exact hash: SHA-256 of the decoded pixel bytes.

use vstd::prelude::*;
use crate::types::HashResult;
use crate::utils::hamming::{Ratio, Similarity};
use crate::utils::hash_utils::{compute_data_sha256, is_lower_hex, sha256_hex};
use crate::utils::image_utils::RgbImage;
use crate::utils::text::str_equal;

verus! {

/// The similarity of two exact hashes: 100 percent if they are equal, else
/// zero.
pub open spec fn spec_exact_similarity(hash1: Seq<char>, hash2: Seq<char>) -> Ratio {
    if hash1 == hash2 {
        Ratio { matched: 1, total: 1 }
    } else {
        Ratio { matched: 0, total: 1 }
    }
}

/// Computes the exact hash of an image: the SHA-256 digest of its pixel
/// bytes as 64 lowercase hexadecimal digits.
pub fn calculate_exact_hash(img: &RgbImage) -> (result: HashResult)
    ensures
        result.hash@ == sha256_hex(img.bytes()),
        result.hash@.len() == 64,
        forall|i: int| 0 <= i < 64 ==> is_lower_hex(#[trigger] result.hash@[i]),
        result.width == img.spec_width(),
        result.height == img.spec_height(),
{
    let hash = compute_data_sha256(img.as_raw().as_slice());
    HashResult { hash, width: img.width(), height: img.height() }
}

/// Scores two exact hashes: 100 percent if they are equal, else zero.
pub fn compare_exact_hash(hash1: &str, hash2: &str) -> (score: Similarity)
    ensures
        score@ == spec_exact_similarity(hash1@, hash2@),
{
    if str_equal(hash1, hash2) {
        Similarity::full()
    } else {
        Similarity::none()
    }
}

} // verus!
