//! Comparison of perceptual hashes. The hash itself rests on a cosine
//! transform in floating point and is computed outside this library.

use vstd::prelude::*;
use crate::utils::hamming::{common_len, differing, Ratio, Similarity};
use crate::utils::text::chars_of;

verus! {

/// The distance of two perceptual hashes: the number of positions at which
/// they differ, up to the end of the shorter one, plus the difference of
/// their lengths.
pub open spec fn padded_distance(a: Seq<char>, b: Seq<char>) -> nat {
    (differing(a, b, common_len(a, b)) + if a.len() >= b.len() {
        a.len() - b.len()
    } else {
        b.len() - a.len()
    }) as nat
}

/// The similarity of two perceptual hashes: the share of the length of the
/// first that the padded distance leaves, and zero where the distance
/// exceeds that length.
pub open spec fn spec_perceptual_similarity(a: Seq<char>, b: Seq<char>) -> Ratio {
    Ratio {
        matched: if padded_distance(a, b) <= a.len() {
            a.len() - padded_distance(a, b)
        } else {
            0
        },
        total: a.len() as int,
    }
}

/// Scores two perceptual hashes.
pub fn compare_perceptual_hash(hash1: &str, hash2: &str) -> (score: Similarity)
    ensures
        score@ == spec_perceptual_similarity(hash1@, hash2@),
        score.matched <= score.total,
{
    let a = chars_of(hash1);
    let b = chars_of(hash2);
    let n = if a.len() <= b.len() {
        a.len()
    } else {
        b.len()
    };
    let mut count: usize = 0;
    let mut i: usize = 0;
    while i < n
        invariant
            i <= n,
            n == common_len(a@, b@),
            count == differing(a@, b@, i as nat),
            count <= i,
        decreases n - i,
    {
        if a[i] != b[i] {
            count += 1;
        }
        i += 1;
    }
    let len_diff = if a.len() >= b.len() {
        a.len() - b.len()
    } else {
        b.len() - a.len()
    };
    // `count <= n` and `n + len_diff` is the longer length, so the sum fits.
    let distance = count + len_diff;
    let matched = if distance <= a.len() {
        a.len() - distance
    } else {
        0
    };
    Similarity { matched: matched as u64, total: a.len() as u64 }
}

} // verus!
