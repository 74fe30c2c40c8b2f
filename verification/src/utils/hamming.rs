//! Hamming distances and the similarity score of bit-string fingerprints.

use vstd::prelude::*;
use crate::utils::text::chars_of;

verus! {

/// A similarity score, kept as the exact fraction `matched / total` of 100
/// percent.
///
/// A score with `total == 0` is undefined and meets no threshold.
#[derive(Debug, Clone, Copy, PartialEq, Eq, Structural)]
pub struct Similarity {
    /// The numerator: how much of `total` agrees.
    pub matched: u64,
    /// The denominator.
    pub total: u64,
}

/// The exact fraction `matched / total` of 100 percent that a score stands
/// for. A fraction with `total == 0` is undefined and meets no threshold.
pub struct Ratio {
    pub matched: int,
    pub total: int,
}

impl Ratio {
    /// True if the fraction is at least `threshold` percent.
    pub open spec fn spec_meets(&self, threshold: int) -> bool {
        self.total > 0 && 100 * self.matched >= threshold * self.total
    }

    /// True if the fraction is exactly 100 percent.
    pub open spec fn is_full(&self) -> bool {
        self.total > 0 && self.matched == self.total
    }

    /// The fraction in percent, rounded down; zero where it is undefined.
    pub open spec fn spec_percent(&self) -> int {
        if self.total == 0 {
            0
        } else {
            100 * self.matched / self.total
        }
    }
}

impl View for Similarity {
    type V = Ratio;

    open spec fn view(&self) -> Ratio {
        Ratio { matched: self.matched as int, total: self.total as int }
    }
}

impl Similarity {
    /// True if the score is at least `threshold` percent.
    pub open spec fn spec_meets(&self, threshold: int) -> bool {
        self@.spec_meets(threshold)
    }

    /// True if the score is exactly 100 percent.
    pub open spec fn is_full(&self) -> bool {
        self@.is_full()
    }

    /// The score in percent, rounded down; zero where it is undefined.
    pub open spec fn spec_percent(&self) -> int {
        self@.spec_percent()
    }

    /// The score of zero percent.
    pub fn none() -> (score: Similarity)
        ensures
            score == (Similarity { matched: 0, total: 1 }),
    {
        Similarity { matched: 0, total: 1 }
    }

    /// The score of 100 percent.
    pub fn full() -> (score: Similarity)
        ensures
            score == (Similarity { matched: 1, total: 1 }),
    {
        Similarity { matched: 1, total: 1 }
    }

    /// Tells whether the score is at least `threshold` percent.
    #[verifier::when_used_as_spec(spec_meets_u32)]
    pub fn meets(&self, threshold: u32) -> (b: bool)
        ensures
            b == self.spec_meets(threshold as int),
    {
        proof {
            crate::utils::arith::lemma_mul_le(
                threshold as int,
                self.total as int,
                u32::MAX as int,
                u64::MAX as int,
            );
        }
        self.total > 0 && 100 * (self.matched as u128) >= (threshold as u128) * (self.total as u128)
    }

    /// True if the score is at least `threshold` percent.
    pub open spec fn spec_meets_u32(&self, threshold: u32) -> bool {
        self.spec_meets(threshold as int)
    }

    /// Returns the score in percent, rounded down; zero where it is
    /// undefined, and `u64::MAX` where the percentage exceeds that.
    pub fn percent(&self) -> (p: u64)
        ensures
            p == if self.spec_percent() <= u64::MAX {
                self.spec_percent()
            } else {
                u64::MAX as int
            },
            self.matched <= self.total ==> p <= 100,
    {
        if self.total == 0 {
            0
        } else {
            let p = 100 * (self.matched as u128) / (self.total as u128);
            assert(self.matched <= self.total ==> p <= 100) by (nonlinear_arith)
                requires
                    p == 100 * (self.matched as int) / (self.total as int),
                    self.total > 0,
            ;
            if p > u64::MAX as u128 {
                u64::MAX
            } else {
                p as u64
            }
        }
    }
}

/// The number of positions below `n` at which `a` and `b` differ.
pub open spec fn differing<T>(a: Seq<T>, b: Seq<T>, n: nat) -> nat
    decreases n,
{
    if n == 0 {
        0
    } else {
        differing(a, b, (n - 1) as nat) + if a[n - 1] != b[n - 1] {
            1nat
        } else {
            0nat
        }
    }
}

/// The length of the shorter of two sequences.
pub open spec fn common_len<T>(a: Seq<T>, b: Seq<T>) -> nat {
    if a.len() <= b.len() {
        a.len()
    } else {
        b.len()
    }
}

/// The Hamming distance of two sequences: the number of positions, up to the
/// end of the shorter one, at which they differ.
pub open spec fn hamming<T>(a: Seq<T>, b: Seq<T>) -> nat {
    differing(a, b, common_len(a, b))
}

/// At most `n` of the first `n` positions differ.
pub proof fn lemma_differing_bound<T>(a: Seq<T>, b: Seq<T>, n: nat)
    ensures
        differing(a, b, n) <= n,
    decreases n,
{
    if n > 0 {
        lemma_differing_bound(a, b, (n - 1) as nat);
    }
}

/// The similarity of two bit-string fingerprints: the share of the
/// characters of the first that agree with the second.
pub open spec fn spec_hash_similarity(a: Seq<char>, b: Seq<char>) -> Ratio {
    Ratio { matched: a.len() - hamming(a, b), total: a.len() as int }
}

/// Counts the positions at which two strings differ, up to the end of the
/// shorter one.
pub fn hamming_distance(hash1: &str, hash2: &str) -> (distance: u32)
    requires
        common_len(hash1@, hash2@) <= u32::MAX,
    ensures
        distance == hamming(hash1@, hash2@),
{
    let a = chars_of(hash1);
    let b = chars_of(hash2);
    let n = if a.len() <= b.len() {
        a.len()
    } else {
        b.len()
    };
    let mut distance: u32 = 0;
    let mut i: usize = 0;
    while i < n
        invariant
            i <= n,
            n == common_len(a@, b@),
            n <= u32::MAX,
            distance == differing(a@, b@, i as nat),
            distance <= i,
        decreases n - i,
    {
        if a[i] != b[i] {
            distance += 1;
        }
        i += 1;
    }
    distance
}

/// The number of one bits of a byte.
pub open spec fn ones_in(x: u8) -> nat {
    ((x & 1) + ((x >> 1) & 1) + ((x >> 2) & 1) + ((x >> 3) & 1) + ((x >> 4) & 1) + ((x >> 5) & 1) + (
    (x >> 6) & 1) + ((x >> 7) & 1)) as nat
}

/// A byte has at most eight one bits.
pub proof fn lemma_ones_in_bound(x: u8)
    ensures
        ones_in(x) <= 8,
{
    assert((x & 1) <= 1 && ((x >> 1) & 1) <= 1 && ((x >> 2) & 1) <= 1 && ((x >> 3) & 1) <= 1 && ((x
        >> 4) & 1) <= 1 && ((x >> 5) & 1) <= 1 && ((x >> 6) & 1) <= 1 && ((x >> 7) & 1) <= 1)
        by (bit_vector);
}

/// `u8::count_ones` returns the number of ones in the binary representation
/// of its argument.
///
/// This contract is assumed, not proved.
pub assume_specification[ u8::count_ones ](x: u8) -> (count: u32)
    ensures
        count == ones_in(x),
;

/// The number of differing bits in the first `n` bytes of `a` and `b`.
pub open spec fn differing_bits(a: Seq<u8>, b: Seq<u8>, n: nat) -> nat
    decreases n,
{
    if n == 0 {
        0
    } else {
        differing_bits(a, b, (n - 1) as nat) + ones_in(a[n - 1] ^ b[n - 1])
    }
}

/// The Hamming distance of two byte strings in bits, up to the end of the
/// shorter one.
pub open spec fn hamming_bits(a: Seq<u8>, b: Seq<u8>) -> nat {
    differing_bits(a, b, common_len(a, b))
}

/// At most `8 * n` bits differ in `n` bytes.
pub proof fn lemma_differing_bits_bound(a: Seq<u8>, b: Seq<u8>, n: nat)
    ensures
        differing_bits(a, b, n) <= 8 * n,
    decreases n,
{
    if n > 0 {
        lemma_differing_bits_bound(a, b, (n - 1) as nat);
        lemma_ones_in_bound(a[n - 1] ^ b[n - 1]);
    }
}

/// Counts the bits at which two byte strings differ, up to the end of the
/// shorter one.
pub fn hamming_distance_bytes(bytes1: &[u8], bytes2: &[u8]) -> (distance: u32)
    requires
        8 * common_len(bytes1@, bytes2@) <= u32::MAX,
    ensures
        distance == hamming_bits(bytes1@, bytes2@),
{
    let n = if bytes1.len() <= bytes2.len() {
        bytes1.len()
    } else {
        bytes2.len()
    };
    let mut distance: u32 = 0;
    let mut i: usize = 0;
    while i < n
        invariant
            i <= n,
            n == common_len(bytes1@, bytes2@),
            8 * n <= u32::MAX,
            distance == differing_bits(bytes1@, bytes2@, i as nat),
            distance <= 8 * i,
        decreases n - i,
    {
        proof {
            lemma_ones_in_bound(bytes1@[i as int] ^ bytes2@[i as int]);
        }
        distance += (bytes1[i] ^ bytes2[i]).count_ones();
        i += 1;
    }
    distance
}

/// Scores two bit-string fingerprints: the share of the characters of the
/// first that agree with the second.
pub fn hash_similarity(hash1: &str, hash2: &str) -> (score: Similarity)
    ensures
        score@ == spec_hash_similarity(hash1@, hash2@),
        score.matched <= score.total,
{
    let a = chars_of(hash1);
    let b = chars_of(hash2);
    let n = if a.len() <= b.len() {
        a.len()
    } else {
        b.len()
    };
    let mut distance: usize = 0;
    let mut i: usize = 0;
    while i < n
        invariant
            i <= n,
            n == common_len(a@, b@),
            distance == differing(a@, b@, i as nat),
            distance <= i,
        decreases n - i,
    {
        if a[i] != b[i] {
            distance += 1;
        }
        i += 1;
    }
    Similarity { matched: (a.len() - distance) as u64, total: a.len() as u64 }
}

} // verus!
