//! Descriptor matching: nearest neighbours under the Hamming distance, the
//! ratio test, and the geometric consistency filter.

use vstd::prelude::*;
use crate::algorithms::orb::codec::{
    decode_orb, models_of, spec_decode_orb, OrbRecord, RecordModel,
};
use crate::types::DetectionError;
use crate::utils::arith::lemma_mul_u32;
use crate::utils::hamming::{
    hamming_bits, hamming_distance_bytes, lemma_differing_bits_bound, Ratio, Similarity,
};

verus! {

/// A nearest neighbour farther than this many bits is no match.
pub const MAX_MATCH_DISTANCE: u32 = 80;

/// The filter for geometric consistency runs on more matches than this.
pub const MIN_MATCHES_FOR_FILTER: usize = 10;

/// The distances in bits from one descriptor to each record of a list.
pub open spec fn distances_to(query: Seq<u8>, targets: Seq<RecordModel>) -> Seq<u32> {
    Seq::new(targets.len(), |j: int| hamming_bits(query, targets[j].descriptor) as u32)
}

/// The position of the smallest of the first `n` distances; of the first of
/// them where several are smallest.
pub open spec fn first_min_index(d: Seq<u32>, n: nat) -> int
    decreases n,
{
    if n <= 1 {
        0
    } else {
        let p = first_min_index(d, (n - 1) as nat);
        if d[n - 1] < d[p] {
            n - 1
        } else {
            p
        }
    }
}

/// The smallest of the first `n` distances, position `skip` left out;
/// `u32::MAX` if there is none.
pub open spec fn min_excluding(d: Seq<u32>, n: nat, skip: int) -> u32
    decreases n,
{
    if n == 0 {
        u32::MAX
    } else {
        let rest = min_excluding(d, (n - 1) as nat, skip);
        if n - 1 != skip && d[n - 1] < rest {
            d[n - 1]
        } else {
            rest
        }
    }
}

/// The position of the nearest neighbour.
pub open spec fn nearest(d: Seq<u32>) -> int {
    first_min_index(d, d.len())
}

/// The distance of the second-nearest neighbour; `u32::MAX` if there is none.
pub open spec fn runner_up(d: Seq<u32>) -> u32 {
    min_excluding(d, d.len(), nearest(d))
}

/// True if the nearest neighbour is a match: it is nearer than 80 bits, and
/// either it is the only neighbour or its distance is less than 0.8 times
/// that of the second-nearest.
pub open spec fn accepts(d: Seq<u32>) -> bool {
    d.len() > 0 && d[nearest(d)] < 80 && (runner_up(d) == u32::MAX || 5 * d[nearest(d)] < 4
        * runner_up(d))
}

/// The matches of the first `n` query records, in order: each accepted
/// query with its nearest neighbour.
pub open spec fn raw_matches(query: Seq<RecordModel>, targets: Seq<RecordModel>, n: nat) -> Seq<
    (usize, usize),
>
    decreases n,
{
    if n == 0 {
        Seq::empty()
    } else {
        let d = distances_to(query[n - 1].descriptor, targets);
        if accepts(d) {
            raw_matches(query, targets, (n - 1) as nat).push(((n - 1) as usize, nearest(d) as usize))
        } else {
            raw_matches(query, targets, (n - 1) as nat)
        }
    }
}

/// The square of the distance between two points.
pub open spec fn squared_distance(ax: u32, ay: u32, bx: u32, by: u32) -> int {
    (ax - bx) * (ax - bx) + (ay - by) * (ay - by)
}

/// True if two matches agree geometrically: the two query points are apart,
/// the two target points are apart, and the ratio of the two distances lies
/// between 1/1.5 and 1.5.
pub open spec fn is_consistent(
    query: Seq<RecordModel>,
    targets: Seq<RecordModel>,
    a: (usize, usize),
    b: (usize, usize),
) -> bool {
    let d1 = squared_distance(
        query[a.0 as int].x,
        query[a.0 as int].y,
        query[b.0 as int].x,
        query[b.0 as int].y,
    );
    let d2 = squared_distance(
        targets[a.1 as int].x,
        targets[a.1 as int].y,
        targets[b.1 as int].x,
        targets[b.1 as int].y,
    );
    d1 > 0 && d2 > 0 && 4 * d1 <= 9 * d2 && 4 * d2 <= 9 * d1
}

/// How many of the first `n` matches, match `i` itself left out, agree
/// geometrically with match `i`.
pub open spec fn support(
    query: Seq<RecordModel>,
    targets: Seq<RecordModel>,
    matches: Seq<(usize, usize)>,
    i: int,
    n: nat,
) -> nat
    decreases n,
{
    if n == 0 {
        0
    } else {
        support(query, targets, matches, i, (n - 1) as nat) + if n - 1 != i && is_consistent(
            query,
            targets,
            matches[i],
            matches[n - 1],
        ) {
            1nat
        } else {
            0nat
        }
    }
}

/// True if match `i` agrees with at least a quarter, rounded down, of the
/// matches.
pub open spec fn survives(
    query: Seq<RecordModel>,
    targets: Seq<RecordModel>,
    matches: Seq<(usize, usize)>,
    i: int,
) -> bool {
    support(query, targets, matches, i, matches.len()) >= matches.len() / 4
}

/// Those of the first `n` matches that survive, in order.
pub open spec fn survivors(
    query: Seq<RecordModel>,
    targets: Seq<RecordModel>,
    matches: Seq<(usize, usize)>,
    n: nat,
) -> Seq<(usize, usize)>
    decreases n,
{
    if n == 0 {
        Seq::empty()
    } else if survives(query, targets, matches, n - 1) {
        survivors(query, targets, matches, (n - 1) as nat).push(matches[n - 1])
    } else {
        survivors(query, targets, matches, (n - 1) as nat)
    }
}

/// What the consistency filter leaves of a list of matches: lists of fewer
/// than four matches pass unchanged.
pub open spec fn filtered(
    query: Seq<RecordModel>,
    targets: Seq<RecordModel>,
    matches: Seq<(usize, usize)>,
) -> Seq<(usize, usize)> {
    if matches.len() < 4 {
        matches
    } else {
        survivors(query, targets, matches, matches.len())
    }
}

/// The matches between two lists of records: the accepted nearest
/// neighbours, filtered for geometric consistency if there are more than
/// ten.
pub open spec fn final_matches(query: Seq<RecordModel>, targets: Seq<RecordModel>) -> Seq<
    (usize, usize),
> {
    let raw = raw_matches(query, targets, query.len());
    if raw.len() > 10 {
        filtered(query, targets, raw)
    } else {
        raw
    }
}

/// The similarity of two lists of records: the number of matches over the
/// length of the shorter list, and zero if one list is empty.
pub open spec fn spec_orb_score(query: Seq<RecordModel>, targets: Seq<RecordModel>) -> Ratio {
    let total = if query.len() <= targets.len() {
        query.len()
    } else {
        targets.len()
    };
    if total == 0 {
        Ratio { matched: 0, total: 1 }
    } else {
        Ratio { matched: final_matches(query, targets).len() as int, total: total as int }
    }
}

/// The similarity of two keypoint fingerprints; `None` if one of them does
/// not decode.
pub open spec fn spec_orb_similarity(features1: Seq<char>, features2: Seq<char>) -> Option<Ratio> {
    match (spec_decode_orb(features1), spec_decode_orb(features2)) {
        (Some(query), Some(targets)) => Some(spec_orb_score(query, targets)),
        _ => None,
    }
}

/// Leaving out a position that is not among the first `n` changes nothing.
pub proof fn lemma_min_excluding_outside(d: Seq<u32>, n: nat, skip: int)
    requires
        skip < 0 || skip >= n,
    ensures
        min_excluding(d, n, skip) == min_excluding(d, n, -1),
    decreases n,
{
    if n > 0 {
        lemma_min_excluding_outside(d, (n - 1) as nat, skip);
    }
}

/// The first minimum is a position among the first `n`, and no distance
/// among them is smaller than the one it holds.
pub proof fn lemma_first_min(d: Seq<u32>, n: nat)
    requires
        1 <= n <= d.len(),
    ensures
        0 <= first_min_index(d, n) < n,
        d[first_min_index(d, n)] == min_excluding(d, n, -1),
        forall|j: int| 0 <= j < n ==> d[first_min_index(d, n)] <= #[trigger] d[j],
    decreases n,
{
    if n > 1 {
        lemma_first_min(d, (n - 1) as nat);
    } else {
        assert(min_excluding(d, 0, -1) == u32::MAX);
    }
}

/// The matches of the first `n` queries are at most `n`, and each pairs a
/// query below `n` with a target.
pub proof fn lemma_raw_matches_bounds(query: Seq<RecordModel>, targets: Seq<RecordModel>, n: nat)
    requires
        n <= query.len(),
    ensures
        raw_matches(query, targets, n).len() <= n,
        forall|k: int|
            0 <= k < raw_matches(query, targets, n).len() ==> (#[trigger] raw_matches(
                query,
                targets,
                n,
            )[k]).0 < n && raw_matches(query, targets, n)[k].1 < targets.len(),
    decreases n,
{
    if n > 0 {
        lemma_raw_matches_bounds(query, targets, (n - 1) as nat);
        let d = distances_to(query[n - 1].descriptor, targets);
        if accepts(d) {
            lemma_first_min(d, d.len());
        }
    }
}

/// Counts the bits in which two descriptors differ.
pub fn compute_hamming_distance(a: &[u8; 32], b: &[u8; 32]) -> (distance: u32)
    ensures
        distance == hamming_bits(a@, b@),
        distance <= 256,
{
    proof {
        lemma_differing_bits_bound(a@, b@, 32);
    }
    hamming_distance_bytes(a.as_slice(), b.as_slice())
}

/// Finds, for one descriptor, its nearest neighbour in `targets` and tells
/// whether that neighbour is a match.
fn match_one(query: &[u8; 32], targets: &Vec<OrbRecord>) -> (found: Option<usize>)
    ensures
        found is Some <==> accepts(distances_to(query@, models_of(targets@))),
        found is Some ==> found->0 == nearest(distances_to(query@, models_of(targets@)))
            && found->0 < targets@.len(),
{
    let ghost d = distances_to(query@, models_of(targets@));
    proof {
        assert forall|k: int| 0 <= k < d.len() implies #[trigger] d[k] <= 256 by {
            lemma_differing_bits_bound(query@, models_of(targets@)[k].descriptor, 32);
        }
    }
    let mut best: u32 = u32::MAX;
    let mut second: u32 = u32::MAX;
    let mut best_idx: usize = 0;
    let mut j: usize = 0;
    while j < targets.len()
        invariant
            j <= targets@.len(),
            d == distances_to(query@, models_of(targets@)),
            d.len() == targets@.len(),
            forall|k: int| 0 <= k < d.len() ==> #[trigger] d[k] <= 256,
            j == 0 ==> best == u32::MAX && second == u32::MAX && best_idx == 0,
            j > 0 ==> best_idx == first_min_index(d, j as nat) && best_idx < j && best == d[best_idx as int]
                && second == min_excluding(d, j as nat, best_idx as int),
        decreases targets@.len() - j,
    {
        let distance = compute_hamming_distance(query, &targets[j].descriptor);
        proof {
            assert(distance == d[j as int]);
            assert(d[j as int] <= 256);
            if j > 0 {
                let p = best_idx as int;
                lemma_first_min(d, j as nat);
                lemma_min_excluding_outside(d, j as nat, j as int);
                lemma_min_best(d, j as nat, p);
                // Unfold both definitions once.
                assert(first_min_index(d, (j + 1) as nat) == if d[j as int] < d[p] {
                    j as int
                } else {
                    p
                });
                assert(min_excluding(d, (j + 1) as nat, j as int) == min_excluding(
                    d,
                    j as nat,
                    j as int,
                ));
                assert(min_excluding(d, (j + 1) as nat, p) == if d[j as int] < min_excluding(
                    d,
                    j as nat,
                    p,
                ) {
                    d[j as int]
                } else {
                    min_excluding(d, j as nat, p)
                });
            } else {
                assert(first_min_index(d, 1) == 0);
                assert(min_excluding(d, 0, 0) == u32::MAX);
                assert(min_excluding(d, 1, 0) == u32::MAX);
            }
        }
        if distance < best {
            second = best;
            best = distance;
            best_idx = j;
        } else if distance < second {
            second = distance;
        }
        j += 1;
    }
    if best < MAX_MATCH_DISTANCE && (second == u32::MAX || 5 * (best as u64) < 4 * (second as u64)) {
        Some(best_idx)
    } else {
        None
    }
}

/// The smallest of the first `n` distances is the smaller of the distance
/// at `p` and the smallest of the others.
pub proof fn lemma_min_best(d: Seq<u32>, n: nat, p: int)
    requires
        0 <= p < n <= d.len(),
    ensures
        min_excluding(d, n, -1) == if d[p] < min_excluding(d, n, p) {
            d[p]
        } else {
            min_excluding(d, n, p)
        },
    decreases n,
{
    if n - 1 == p {
        lemma_min_excluding_outside(d, (n - 1) as nat, p);
    } else {
        lemma_min_best(d, (n - 1) as nat, p);
    }
}

/// Computes the square of the distance between two points.
fn squared_distance_of(ax: u32, ay: u32, bx: u32, by: u32) -> (d: u128)
    ensures
        d == squared_distance(ax, ay, bx, by),
        d <= 0x1_FFFF_FFFC_0000_0002,
{
    let dx: u64 = if ax >= bx {
        (ax - bx) as u64
    } else {
        (bx - ax) as u64
    };
    let dy: u64 = if ay >= by {
        (ay - by) as u64
    } else {
        (by - ay) as u64
    };
    proof {
        lemma_mul_u32(dx as int, dx as int);
        lemma_mul_u32(dy as int, dy as int);
        assert((ax - bx) * (ax - bx) == dx * dx) by (nonlinear_arith)
            requires
                dx == ax - bx || dx == bx - ax,
        ;
        assert((ay - by) * (ay - by) == dy * dy) by (nonlinear_arith)
            requires
                dy == ay - by || dy == by - ay,
        ;
    }
    (dx * dx) as u128 + (dy * dy) as u128
}

/// Tells whether two matches agree geometrically.
fn consistent(
    query: &Vec<OrbRecord>,
    targets: &Vec<OrbRecord>,
    a: (usize, usize),
    b: (usize, usize),
) -> (agree: bool)
    requires
        a.0 < query@.len(),
        b.0 < query@.len(),
        a.1 < targets@.len(),
        b.1 < targets@.len(),
    ensures
        agree == is_consistent(models_of(query@), models_of(targets@), a, b),
{
    let d1 = squared_distance_of(query[a.0].x, query[a.0].y, query[b.0].x, query[b.0].y);
    let d2 = squared_distance_of(targets[a.1].x, targets[a.1].y, targets[b.1].x, targets[b.1].y);
    d1 > 0 && d2 > 0 && 4 * d1 <= 9 * d2 && 4 * d2 <= 9 * d1
}

/// Drops the matches that agree geometrically with fewer than a quarter of
/// the matches. A list of fewer than four matches passes unchanged.
pub fn filter_matches_by_distance_consistency(
    matches: &Vec<(usize, usize)>,
    descriptors1: &Vec<OrbRecord>,
    descriptors2: &Vec<OrbRecord>,
) -> (kept: Vec<(usize, usize)>)
    requires
        forall|k: int|
            0 <= k < matches@.len() ==> (#[trigger] matches@[k]).0 < descriptors1@.len()
                && matches@[k].1 < descriptors2@.len(),
    ensures
        kept@ == filtered(models_of(descriptors1@), models_of(descriptors2@), matches@),
        kept@.len() <= matches@.len(),
{
    let ghost query = models_of(descriptors1@);
    let ghost targets = models_of(descriptors2@);
    let n = matches.len();
    let mut kept: Vec<(usize, usize)> = Vec::new();
    if n < 4 {
        let mut i: usize = 0;
        while i < n
            invariant
                i <= n,
                n == matches@.len(),
                kept@ == matches@.subrange(0, i as int),
            decreases n - i,
        {
            kept.push(matches[i]);
            assert(kept@ =~= matches@.subrange(0, i as int + 1));
            i += 1;
        }
        assert(matches@.subrange(0, n as int) =~= matches@);
        return kept;
    }
    let min_consistent = n / 4;
    let mut i: usize = 0;
    while i < n
        invariant
            i <= n,
            n == matches@.len(),
            n >= 4,
            min_consistent == n / 4,
            query == models_of(descriptors1@),
            targets == models_of(descriptors2@),
            forall|k: int|
                0 <= k < matches@.len() ==> (#[trigger] matches@[k]).0 < descriptors1@.len()
                    && matches@[k].1 < descriptors2@.len(),
            kept@ == survivors(query, targets, matches@, i as nat),
            kept@.len() <= i,
        decreases n - i,
    {
        let mut count: usize = 0;
        let mut j: usize = 0;
        while j < n
            invariant
                j <= n,
                i < n,
                n == matches@.len(),
                query == models_of(descriptors1@),
                targets == models_of(descriptors2@),
                forall|k: int|
                    0 <= k < matches@.len() ==> (#[trigger] matches@[k]).0 < descriptors1@.len()
                        && matches@[k].1 < descriptors2@.len(),
                count == support(query, targets, matches@, i as int, j as nat),
                count <= j,
            decreases n - j,
        {
            if j != i && consistent(descriptors1, descriptors2, matches[i], matches[j]) {
                count += 1;
            }
            j += 1;
        }
        if count >= min_consistent {
            kept.push(matches[i]);
        }
        i += 1;
    }
    kept
}

/// Matches two lists of records: each record of the first list is paired
/// with its nearest neighbour in the second if that neighbour passes the
/// distance and ratio tests; more than ten such pairs are then filtered for
/// geometric consistency.
pub fn match_descriptors(descriptors1: &Vec<OrbRecord>, descriptors2: &Vec<OrbRecord>) -> (matches:
    Vec<(usize, usize)>)
    ensures
        matches@ == final_matches(models_of(descriptors1@), models_of(descriptors2@)),
        matches@.len() <= descriptors1@.len(),
{
    let ghost query = models_of(descriptors1@);
    let ghost targets = models_of(descriptors2@);
    let mut matches: Vec<(usize, usize)> = Vec::new();
    let mut i: usize = 0;
    while i < descriptors1.len()
        invariant
            i <= descriptors1@.len(),
            query == models_of(descriptors1@),
            targets == models_of(descriptors2@),
            matches@ == raw_matches(query, targets, i as nat),
        decreases descriptors1@.len() - i,
    {
        match match_one(&descriptors1[i].descriptor, descriptors2) {
            Some(best_idx) => {
                matches.push((i, best_idx));
            },
            None => {},
        }
        i += 1;
    }
    proof {
        lemma_raw_matches_bounds(query, targets, query.len());
    }
    if matches.len() > MIN_MATCHES_FOR_FILTER {
        matches = filter_matches_by_distance_consistency(&matches, descriptors1, descriptors2);
    }
    matches
}

/// Scores two lists of records: the number of matches over the length of
/// the shorter list, and zero if one list is empty.
pub fn orb_score(descriptors1: &Vec<OrbRecord>, descriptors2: &Vec<OrbRecord>) -> (score: Similarity)
    ensures
        score@ == spec_orb_score(models_of(descriptors1@), models_of(descriptors2@)),
        score.total > 0,
{
    let total = if descriptors1.len() <= descriptors2.len() {
        descriptors1.len()
    } else {
        descriptors2.len()
    };
    if total == 0 {
        return Similarity { matched: 0, total: 1 };
    }
    let matches = match_descriptors(descriptors1, descriptors2);
    Similarity { matched: matches.len() as u64, total: total as u64 }
}

/// Scores two keypoint fingerprints. A fingerprint that does not decode is a
/// codec error.
pub fn calculate_orb_similarity(features1: &str, features2: &str) -> (result: Result<
    Similarity,
    DetectionError,
>)
    ensures
        result is Ok <==> spec_orb_similarity(features1@, features2@) is Some,
        result is Ok ==> spec_orb_similarity(features1@, features2@) == Some(result->Ok_0@),
        result is Err ==> result->Err_0 == DetectionError::CodecError,
{
    let descriptors1 = match decode_orb(features1) {
        Ok(records) => records,
        Err(e) => {
            return Err(e);
        },
    };
    let descriptors2 = match decode_orb(features2) {
        Ok(records) => records,
        Err(e) => {
            return Err(e);
        },
    };
    Ok(orb_score(&descriptors1, &descriptors2))
}

/// A threshold of 100 admits two lists of records exactly if neither is
/// empty and the matches that survive are at least as many as the records
/// of the shorter list.
pub proof fn lemma_orb_threshold_hundred(query: Seq<RecordModel>, targets: Seq<RecordModel>)
    ensures
        spec_orb_score(query, targets).spec_meets(100) <==> query.len() > 0 && targets.len() > 0
            && final_matches(query, targets).len() >= if query.len() <= targets.len() {
            query.len()
        } else {
            targets.len()
        },
{
    lemma_raw_matches_bounds(query, targets, query.len());
    let raw = raw_matches(query, targets, query.len());
    if raw.len() > 10 && raw.len() >= 4 {
        lemma_survivors_len(query, targets, raw, raw.len());
    }
    let score = spec_orb_score(query, targets);
    assert(100 * score.matched >= 100 * score.total <==> score.matched >= score.total);
}

/// The survivors among the first `n` matches are at most `n`.
pub proof fn lemma_survivors_len(
    query: Seq<RecordModel>,
    targets: Seq<RecordModel>,
    matches: Seq<(usize, usize)>,
    n: nat,
)
    ensures
        survivors(query, targets, matches, n).len() <= n,
    decreases n,
{
    if n > 0 {
        lemma_survivors_len(query, targets, matches, (n - 1) as nat);
    }
}

} // verus!
