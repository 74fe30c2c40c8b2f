//! The fingerprint algorithms and the similarity of their fingerprints.

pub mod average_hash;
pub mod difference_hash;
pub mod exact_hash;
pub mod orb;
pub mod perceptual_hash;

use vstd::prelude::*;
use crate::algorithms::average_hash::{average_bits, calculate_average_hash};
use crate::algorithms::difference_hash::calculate_difference_hash;
use crate::algorithms::exact_hash::{calculate_exact_hash, compare_exact_hash, spec_exact_similarity};
use crate::algorithms::orb::matching::{calculate_orb_similarity, spec_orb_similarity};
use crate::types::{HashAlgorithm, HashResult};
use crate::utils::hash_utils::sha256_hex;
use crate::utils::image_utils::RgbImage;
use crate::utils::text::is_binary;
use crate::utils::hamming::{
    common_len, differing, hash_similarity, lemma_differing_bound, spec_hash_similarity,
    Ratio, Similarity,
};

verus! {

/// True if the fingerprint of the algorithm is computed from the pixels in
/// integers alone. The perceptual hash and the keypoint fingerprint rest on
/// floating-point steps and are completed outside this library.
pub open spec fn is_integer_fingerprint(algorithm: HashAlgorithm) -> bool {
    algorithm == HashAlgorithm::Exact || algorithm == HashAlgorithm::Average || algorithm
        == HashAlgorithm::Difference
}

/// Fingerprints a decoded image with the exact, the average or the
/// difference algorithm; for the other two algorithms the result is `None`.
///
/// The bound on the width is what the resampler needs for its intermediate
/// buffer; it holds of every image on a 64-bit machine.
pub fn calculate_hash(img: &RgbImage, algorithm: HashAlgorithm) -> (result: Option<HashResult>)
    requires
        128 * img.spec_width() <= isize::MAX,
    ensures
        result is Some <==> is_integer_fingerprint(algorithm),
        result is Some ==> result->0.width == img.spec_width() && result->0.height
            == img.spec_height(),
        algorithm == HashAlgorithm::Exact ==> result->0.hash@ == sha256_hex(img.bytes()),
        algorithm == HashAlgorithm::Average ==> exists|pixels: Seq<u8>|
            pixels.len() == 64 && result->0.hash@ == average_bits(pixels),
        algorithm == HashAlgorithm::Average || algorithm == HashAlgorithm::Difference
            ==> result->0.hash@.len() == 64 && is_binary(result->0.hash@),
{
    match algorithm {
        HashAlgorithm::Exact => Some(calculate_exact_hash(img)),
        HashAlgorithm::Average => Some(calculate_average_hash(img)),
        HashAlgorithm::Difference => Some(calculate_difference_hash(img)),
        HashAlgorithm::Perceptual => None,
        HashAlgorithm::ORB => None,
    }
}

/// The similarity of two fingerprints under an algorithm: equality for the
/// exact hash, the share of agreeing characters for the bit-string hashes,
/// the match rate for keypoint fingerprints, with zero for a keypoint
/// fingerprint that does not decode.
pub open spec fn spec_similarity(hash1: Seq<char>, hash2: Seq<char>, algorithm: HashAlgorithm) -> Ratio {
    match algorithm {
        HashAlgorithm::Exact => spec_exact_similarity(hash1, hash2),
        HashAlgorithm::ORB => match spec_orb_similarity(hash1, hash2) {
            Some(score) => score,
            None => Ratio { matched: 0, total: 1 },
        },
        _ => spec_hash_similarity(hash1, hash2),
    }
}

/// Scores two fingerprints of the same algorithm.
pub fn calculate_similarity(hash1: &str, hash2: &str, algorithm: HashAlgorithm) -> (score: Similarity)
    ensures
        score@ == spec_similarity(hash1@, hash2@, algorithm),
{
    match algorithm {
        HashAlgorithm::Exact => compare_exact_hash(hash1, hash2),
        HashAlgorithm::Average | HashAlgorithm::Difference | HashAlgorithm::Perceptual => {
            hash_similarity(hash1, hash2)
        },
        HashAlgorithm::ORB => match calculate_orb_similarity(hash1, hash2) {
            Ok(score) => score,
            Err(_) => Similarity::none(),
        },
    }
}

/// The number of differing positions does not depend on the order of the two
/// sequences.
pub proof fn lemma_differing_symmetric<T>(a: Seq<T>, b: Seq<T>, n: nat)
    ensures
        differing(a, b, n) == differing(b, a, n),
    decreases n,
{
    if n > 0 {
        lemma_differing_symmetric(a, b, (n - 1) as nat);
    }
}

/// No position differs between a sequence and itself.
pub proof fn lemma_differing_self<T>(a: Seq<T>, n: nat)
    ensures
        differing(a, a, n) == 0,
    decreases n,
{
    if n > 0 {
        lemma_differing_self(a, (n - 1) as nat);
    }
}

/// Two sequences of length at least `n` differ at none of the first `n`
/// positions exactly if they agree on all of them.
pub proof fn lemma_differing_zero<T>(a: Seq<T>, b: Seq<T>, n: nat)
    requires
        n <= a.len(),
        n <= b.len(),
    ensures
        differing(a, b, n) == 0 <==> a.subrange(0, n as int) == b.subrange(0, n as int),
    decreases n,
{
    if n > 0 {
        lemma_differing_zero(a, b, (n - 1) as nat);
        let m = (n - 1) as int;
        if differing(a, b, n) == 0 {
            assert(a.subrange(0, m) == b.subrange(0, m));
            assert forall|i: int| 0 <= i < n implies a.subrange(0, n as int)[i] == b.subrange(
                0,
                n as int,
            )[i] by {
                if i < m {
                    assert(a.subrange(0, m)[i] == b.subrange(0, m)[i]);
                }
            }
            assert(a.subrange(0, n as int) =~= b.subrange(0, n as int));
        }
        if a.subrange(0, n as int) == b.subrange(0, n as int) {
            assert(a.subrange(0, n as int)[m] == b.subrange(0, n as int)[m]);
            assert forall|i: int| 0 <= i < m implies a.subrange(0, m)[i] == b.subrange(0, m)[i] by {
                assert(a.subrange(0, n as int)[i] == b.subrange(0, n as int)[i]);
            }
            assert(a.subrange(0, m) =~= b.subrange(0, m));
        }
    } else {
        assert(a.subrange(0, 0) =~= b.subrange(0, 0));
    }
}

/// For every algorithm but the keypoint one, the similarity of two
/// fingerprints of equal length does not depend on their order.
pub proof fn lemma_similarity_symmetric(hash1: Seq<char>, hash2: Seq<char>, algorithm: HashAlgorithm)
    requires
        algorithm != HashAlgorithm::ORB,
        hash1.len() == hash2.len(),
    ensures
        spec_similarity(hash1, hash2, algorithm) == spec_similarity(hash2, hash1, algorithm),
{
    lemma_differing_symmetric(hash1, hash2, hash1.len());
}

/// For every algorithm but the keypoint one, a fingerprint is 100 percent
/// similar to itself; for the bit-string hashes the fingerprint must not be
/// empty.
pub proof fn lemma_similarity_reflexive(hash: Seq<char>, algorithm: HashAlgorithm)
    requires
        algorithm != HashAlgorithm::ORB,
        algorithm == HashAlgorithm::Exact || hash.len() > 0,
    ensures
        spec_similarity(hash, hash, algorithm).is_full(),
        spec_similarity(hash, hash, algorithm).spec_percent() == 100,
        forall|threshold: int| threshold <= 100 ==> spec_similarity(hash, hash, algorithm).spec_meets(threshold),
{
    lemma_differing_self(hash, hash.len());
    let score = spec_similarity(hash, hash, algorithm);
    assert(score.matched == score.total && score.total > 0);
    assert(100 * score.matched / score.total == 100) by (nonlinear_arith)
        requires
            score.matched == score.total,
            score.total > 0,
    ;
    assert forall|threshold: int| threshold <= 100 implies score.spec_meets(threshold) by {
        assert(100 * score.matched >= threshold * score.total) by (nonlinear_arith)
            requires
                score.matched == score.total,
                score.total > 0,
                threshold <= 100,
        ;
    }
}

/// A threshold of zero admits every defined score that is not negative.
pub proof fn lemma_threshold_zero(score: Ratio)
    requires
        score.total > 0,
        score.matched >= 0,
    ensures
        score.spec_meets(0),
{
    assert(0 * score.total == 0) by (nonlinear_arith);
}

/// No similarity is negative, and the similarity of a fingerprint that is
/// not empty is defined.
pub proof fn lemma_similarity_defined(hash1: Seq<char>, hash2: Seq<char>, algorithm: HashAlgorithm)
    ensures
        spec_similarity(hash1, hash2, algorithm).matched >= 0,
        hash1.len() > 0 ==> spec_similarity(hash1, hash2, algorithm).total > 0,
        hash1.len() > 0 ==> spec_similarity(hash1, hash2, algorithm).spec_meets(0),
{
    lemma_differing_bound(hash1, hash2, common_len(hash1, hash2));
    let score = spec_similarity(hash1, hash2, algorithm);
    if hash1.len() > 0 {
        lemma_threshold_zero(score);
    }
}

/// A threshold of 100 admits exactly the scores in which everything agrees:
/// for the exact hash and for bit-string hashes of equal, non-zero length,
/// those of equal fingerprints.
pub proof fn lemma_threshold_hundred(hash1: Seq<char>, hash2: Seq<char>, algorithm: HashAlgorithm)
    requires
        algorithm != HashAlgorithm::ORB,
        algorithm == HashAlgorithm::Exact || (hash1.len() == hash2.len() && hash1.len() > 0),
    ensures
        spec_similarity(hash1, hash2, algorithm).spec_meets(100) <==> hash1 == hash2,
{
    if algorithm != HashAlgorithm::Exact {
        let n = hash1.len();
        lemma_differing_bound(hash1, hash2, n);
        lemma_differing_zero(hash1, hash2, n);
        assert(hash1.subrange(0, n as int) =~= hash1);
        assert(hash2.subrange(0, n as int) =~= hash2);
        let score = spec_similarity(hash1, hash2, algorithm);
        assert(score.total == n);
        assert(score.matched == n - differing(hash1, hash2, n));
    }
}

} // verus!
