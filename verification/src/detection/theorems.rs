//! Theorems about the candidate index and the duplicate groups.

use vstd::prelude::*;
use crate::algorithms::{
    lemma_similarity_defined, lemma_similarity_reflexive, lemma_threshold_hundred, spec_similarity,
};
use crate::detection::completeness::{lemma_shared_band_pairs, no_bucket_full};
use crate::detection::duplicate::{
    admitted_edges, are_duplicate_groups, describes, has_partner, is_admitted, is_assembly,
    is_ordering, linked, sizes_of, surviving,
};
use crate::detection::graph::{
    adjacent, connected, is_path, lemma_connected_is_finest, lemma_connected_reflexive,
    lemma_connected_step, lemma_connected_symmetric,
};
use crate::detection::lsh::{
    add_batch, band_count, batch_buckets, batch_hashes, bucket_of, candidates, insert_all,
    insert_capped, is_candidate_pair, share_band, signature_bands, signature_keys, BATCH_SIZE,
};
use crate::types::{DuplicateGroup, FileMetadata, HashAlgorithm, HashResult};
use crate::utils::hash_utils::lsh_bands;
use crate::utils::ranking::lemma_top_selection_unique;

verus! {

/// No image is in two groups.
pub proof fn lemma_groups_disjoint(
    groups: Seq<Vec<usize>>,
    hashes: Seq<Seq<char>>,
    algorithm: HashAlgorithm,
    threshold: int,
    g: int,
    h: int,
    k: int,
    l: int,
)
    requires
        are_duplicate_groups(groups, hashes, algorithm, threshold),
        0 <= g < groups.len(),
        0 <= h < groups.len(),
        g != h,
        0 <= k < groups[g]@.len(),
        0 <= l < groups[h]@.len(),
    ensures
        groups[g]@[k] != groups[h]@[l],
{
    if groups[g]@[k] == groups[h]@[l] {
        lemma_connected_reflexive(
            admitted_edges(hashes, algorithm, threshold),
            groups[g]@[k] as int,
        );
        assert(linked(hashes, algorithm, threshold, groups[g]@[k] as int, groups[h]@[l] as int));
    }
}

/// True if every two neighbours of `chain` are a pair of images that was
/// compared and found similar enough.
pub open spec fn is_similarity_chain(
    chain: Seq<int>,
    hashes: Seq<Seq<char>>,
    algorithm: HashAlgorithm,
    threshold: int,
) -> bool {
    chain.len() >= 1 && forall|s: int|
        0 <= s < chain.len() - 1 ==> {
            let a = #[trigger] chain[s];
            let b = chain[s + 1];
            if a < b {
                is_candidate_pair(hashes, algorithm, a, b) && spec_similarity(
                    hashes[a],
                    hashes[b],
                    algorithm,
                ).spec_meets(threshold)
            } else {
                is_candidate_pair(hashes, algorithm, b, a) && spec_similarity(
                    hashes[b],
                    hashes[a],
                    algorithm,
                ).spec_meets(threshold)
            }
        }
}

/// Two members of one group are joined by a chain of images in which every
/// two neighbours were compared and meet the threshold. The two members
/// themselves need not meet it.
pub proof fn lemma_group_chain(
    groups: Seq<Vec<usize>>,
    hashes: Seq<Seq<char>>,
    algorithm: HashAlgorithm,
    threshold: int,
    g: int,
    k: int,
    l: int,
)
    requires
        are_duplicate_groups(groups, hashes, algorithm, threshold),
        0 <= g < groups.len(),
        0 <= k < groups[g]@.len(),
        0 <= l < groups[g]@.len(),
    ensures
        exists|chain: Seq<int>|
            #[trigger] is_similarity_chain(chain, hashes, algorithm, threshold) && chain.first()
                == groups[g]@[k] && chain.last() == groups[g]@[l],
{
    reveal(connected);
    let a = groups[g]@[k] as int;
    let b = groups[g]@[l] as int;
    let edges = admitted_edges(hashes, algorithm, threshold);
    assert(linked(hashes, algorithm, threshold, a, b));
    let chain = choose|path: Seq<int>| is_path(edges, path) && path.first() == a && path.last() == b;
    assert forall|s: int| 0 <= s < chain.len() - 1 implies {
        let u = #[trigger] chain[s];
        let v = chain[s + 1];
        if u < v {
            is_candidate_pair(hashes, algorithm, u, v) && spec_similarity(
                hashes[u],
                hashes[v],
                algorithm,
            ).spec_meets(threshold)
        } else {
            is_candidate_pair(hashes, algorithm, v, u) && spec_similarity(
                hashes[v],
                hashes[u],
                algorithm,
            ).spec_meets(threshold)
        }
    } by {
        assert(adjacent(edges, chain[s], chain[s + 1]));
    }
    assert(is_similarity_chain(chain, hashes, algorithm, threshold));
}

/// True if every entry of every bucket is the position of a fingerprint of
/// `hashes` that has at least one band.
pub open spec fn entries_filed(
    buckets: Map<u64, Seq<usize>>,
    hashes: Seq<Seq<char>>,
    algorithm: HashAlgorithm,
) -> bool {
    forall|key: u64, w: int|
        buckets.dom().contains(key) && 0 <= w < buckets[key].len() ==> (#[trigger] buckets[key][w])
            < hashes.len() && signature_keys(hashes[buckets[key][w] as int], algorithm).len() > 0
}

/// Filing a fingerprint under its bands keeps every entry a fingerprint
/// with bands.
proof fn lemma_insert_all_filed(
    buckets: Map<u64, Seq<usize>>,
    keys: Seq<u64>,
    index: usize,
    hashes: Seq<Seq<char>>,
    algorithm: HashAlgorithm,
)
    requires
        entries_filed(buckets, hashes, algorithm),
        index < hashes.len(),
        keys.len() > 0 ==> signature_keys(hashes[index as int], algorithm).len() > 0,
    ensures
        entries_filed(insert_all(buckets, keys, index), hashes, algorithm),
    decreases keys.len(),
{
    if keys.len() > 0 {
        lemma_insert_all_filed(buckets, keys.drop_last(), index, hashes, algorithm);
        let prev = insert_all(buckets, keys.drop_last(), index);
        let next = insert_capped(prev, keys.last(), index);
        assert forall|key: u64, w: int|
            next.dom().contains(key) && 0 <= w < next[key].len() implies (#[trigger] next[key][w])
            < hashes.len() && signature_keys(hashes[next[key][w] as int], algorithm).len()
            > 0 by {
            if key == keys.last() {
                if w < bucket_of(prev, key).len() {
                    assert(next[key][w] == prev[key][w]);
                }
            } else {
                assert(next[key][w] == prev[key][w]);
            }
        }
    }
}

/// An index built from a list of fingerprints holds only positions of
/// fingerprints that have at least one band.
pub proof fn lemma_batch_entries_filed(
    hashes: Seq<Seq<char>>,
    n: nat,
    algorithm: HashAlgorithm,
)
    requires
        n <= hashes.len() <= usize::MAX,
    ensures
        entries_filed(add_batch(Map::empty(), hashes.subrange(0, n as int), 0, algorithm), hashes, algorithm),
    decreases n,
{
    if n > 0 {
        lemma_batch_entries_filed(hashes, (n - 1) as nat, algorithm);
        let part = hashes.subrange(0, n as int);
        assert(part.drop_last() =~= hashes.subrange(0, n as int - 1));
        assert(part.last() == hashes[n - 1]);
        let prev = add_batch(Map::empty(), part.drop_last(), 0, algorithm);
        lemma_insert_all_filed(
            prev,
            signature_keys(hashes[n - 1], algorithm),
            (n - 1) as usize,
            hashes,
            algorithm,
        );
    }
}

/// The first fingerprint of a candidate pair is not empty.
pub proof fn lemma_candidate_not_empty(
    hashes: Seq<Seq<char>>,
    algorithm: HashAlgorithm,
    a: int,
    b: int,
)
    requires
        0 <= a < b < hashes.len() <= usize::MAX,
        is_candidate_pair(hashes, algorithm, a, b),
    ensures
        hashes[a].len() > 0,
{
    let home = a / (BATCH_SIZE as int);
    let batch = batch_hashes(hashes, home);
    let buckets = batch_buckets(hashes, algorithm, home);
    if b / (BATCH_SIZE as int) == home {
        let keys = signature_keys(hashes[a], algorithm);
        let local = (b - home * BATCH_SIZE) as usize;
        assert(candidates(buckets, keys).contains(local));
        let band = choose|band: int|
            0 <= band < keys.len() && #[trigger] bucket_of(buckets, keys[band]).contains(local);
        assert(keys.len() > 0);
    } else {
        let keys = signature_keys(hashes[b], algorithm);
        let local = (a - home * BATCH_SIZE) as usize;
        assert(candidates(buckets, keys).contains(local));
        let band = choose|band: int|
            0 <= band < keys.len() && #[trigger] bucket_of(buckets, keys[band]).contains(local);
        let bucket = bucket_of(buckets, keys[band]);
        let w = choose|w: int| 0 <= w < bucket.len() && bucket[w] == local;
        lemma_batch_entries_filed(batch, batch.len(), algorithm);
        assert(batch.subrange(0, batch.len() as int) =~= batch);
        assert(buckets[keys[band]][w] == local);
        assert(batch[local as int] == hashes[a]);
        assert(signature_keys(hashes[a], algorithm).len() > 0);
    }
}

/// Under a threshold of zero every candidate pair is admitted: the groups
/// are the connected components of the candidate graph.
pub proof fn lemma_zero_threshold_admits_candidates(
    hashes: Seq<Seq<char>>,
    algorithm: HashAlgorithm,
    a: int,
    b: int,
)
    requires
        0 <= a < b < hashes.len() <= usize::MAX,
    ensures
        is_admitted(hashes, algorithm, 0, a, b) <==> is_candidate_pair(hashes, algorithm, a, b),
{
    if is_candidate_pair(hashes, algorithm, a, b) {
        lemma_candidate_not_empty(hashes, algorithm, a, b);
        lemma_similarity_defined(hashes[a], hashes[b], algorithm);
    }
}

/// The edges of the candidate graph: the candidate pairs.
pub open spec fn candidate_edges(hashes: Seq<Seq<char>>, algorithm: HashAlgorithm) -> Set<(int, int)> {
    Set::new(
        |e: (int, int)| 0 <= e.0 < e.1 < hashes.len() && is_candidate_pair(hashes, algorithm, e.0, e.1),
    )
}

/// Under a threshold of zero the similarity graph is the candidate graph,
/// so that the groups are the connected components, of two images or more,
/// of the candidate graph.
pub proof fn lemma_zero_threshold_graph(hashes: Seq<Seq<char>>, algorithm: HashAlgorithm)
    requires
        hashes.len() <= usize::MAX,
    ensures
        admitted_edges(hashes, algorithm, 0) == candidate_edges(hashes, algorithm),
        forall|a: int, b: int|
            #[trigger] linked(hashes, algorithm, 0, a, b) == connected(
                candidate_edges(hashes, algorithm),
                a,
                b,
            ),
{
    assert forall|e: (int, int)| admitted_edges(hashes, algorithm, 0).contains(e)
        <==> candidate_edges(hashes, algorithm).contains(e) by {
        if 0 <= e.0 < e.1 < hashes.len() {
            lemma_zero_threshold_admits_candidates(hashes, algorithm, e.0, e.1);
        }
    }
    assert(admitted_edges(hashes, algorithm, 0) =~= candidate_edges(hashes, algorithm));
}

/// An exact fingerprint that is not empty has a single band, itself.
pub proof fn lemma_exact_bands(hash: Seq<char>)
    requires
        hash.len() > 0,
    ensures
        signature_bands(hash, HashAlgorithm::Exact) == seq![hash],
{
    let bands = signature_bands(hash, HashAlgorithm::Exact);
    assert(bands =~= lsh_bands(hash, 1));
    assert(hash.len() as int / 1 == hash.len());
    assert(bands.len() == 1);
    assert(bands[0] =~= hash) by {
        let n = hash.len() as int;
        assert(0 * n == 0 && (0 + 1) * n == n) by (nonlinear_arith);
    }
    assert(bands =~= seq![hash]);
}

/// A bit-string fingerprint that is at least as long as its algorithm has
/// bands, and an exact fingerprint that is not empty, has a band.
pub proof fn lemma_has_band(hash: Seq<char>, algorithm: HashAlgorithm)
    requires
        algorithm != HashAlgorithm::ORB,
        hash.len() >= band_count(algorithm),
    ensures
        signature_bands(hash, algorithm).len() > 0,
{
    let count = band_count(algorithm) as int;
    let n = hash.len() as int;
    assert(n / count >= 1) by (nonlinear_arith)
        requires
            n >= count,
            count >= 1,
    ;
    assert(signature_bands(hash, algorithm) =~= lsh_bands(hash, count));
}

/// True if every fingerprint of the list is empty or has `len` characters.
pub open spec fn of_one_length(hashes: Seq<Seq<char>>, len: nat) -> bool {
    forall|i: int| 0 <= i < hashes.len() ==> (#[trigger] hashes[i]).len() == 0 || hashes[i].len() == len
}

/// Where only equal fingerprints are admitted, the groups are the sets of
/// equal fingerprints: two images with fingerprints are linked exactly if
/// their fingerprints are equal. This holds under the exact algorithm for
/// every threshold from 0 to 100, and under the bit-string algorithms for a
/// threshold of 100 and fingerprints of one length that is not less than
/// the number of bands, as long as no bucket of the index is full.
pub proof fn lemma_equal_fingerprints_are_linked(
    hashes: Seq<Seq<char>>,
    algorithm: HashAlgorithm,
    threshold: int,
    len: nat,
    a: int,
    b: int,
)
    requires
        hashes.len() <= usize::MAX,
        no_bucket_full(hashes, algorithm),
        algorithm != HashAlgorithm::ORB,
        0 <= threshold <= 100,
        algorithm != HashAlgorithm::Exact ==> threshold == 100 && of_one_length(hashes, len) && len
            >= band_count(algorithm),
        0 <= a < hashes.len(),
        0 <= b < hashes.len(),
        hashes[a].len() > 0,
        hashes[b].len() > 0,
    ensures
        linked(hashes, algorithm, threshold, a, b) <==> hashes[a] == hashes[b],
{
    let edges = admitted_edges(hashes, algorithm, threshold);
    if hashes[a] == hashes[b] {
        if a == b {
            lemma_connected_reflexive(edges, a);
        } else {
            let lo = if a < b {
                a
            } else {
                b
            };
            let hi = if a < b {
                b
            } else {
                a
            };
            let hash = hashes[lo];
            assert(hashes[hi] == hash);
            if algorithm == HashAlgorithm::Exact {
                lemma_exact_bands(hash);
            } else {
                lemma_has_band(hash, algorithm);
            }
            let bands = signature_bands(hash, algorithm);
            assert(bands[0] == bands[0]);
            assert(share_band(hashes[lo], hashes[hi], algorithm));
            lemma_shared_band_pairs(hashes, algorithm, lo, hi);
            lemma_similarity_reflexive(hash, algorithm);
            assert(is_admitted(hashes, algorithm, threshold, lo, hi));
            assert(edges.contains((lo, hi)));
            lemma_connected_reflexive(edges, lo);
            lemma_connected_step(edges, lo, lo, hi);
            if a > b {
                lemma_connected_symmetric(edges, lo, hi);
            }
        }
    }
    if connected(edges, a, b) {
        let same = |u: int, v: int|
            u == v || (0 <= u < hashes.len() && 0 <= v < hashes.len() && hashes[u] == hashes[v]);
        assert forall|u: int, v: int| edges.contains((u, v)) implies #[trigger] same(u, v) by {
            assert(is_admitted(hashes, algorithm, threshold, u, v));
            lemma_candidate_not_empty(hashes, algorithm, u, v);
            lemma_candidate_partner_not_empty(hashes, algorithm, u, v);
            if algorithm == HashAlgorithm::Exact {
                lemma_exact_bands(hashes[u]);
                lemma_exact_bands(hashes[v]);
                let bands_u = signature_bands(hashes[u], algorithm);
                let bands_v = signature_bands(hashes[v], algorithm);
                let (x, y) = choose|x: int, y: int|
                    0 <= x < bands_u.len() && 0 <= y < bands_v.len() && #[trigger] bands_u[x]
                        == #[trigger] bands_v[y];
                assert(bands_u[0] == hashes[u] && bands_v[0] == hashes[v]);
            } else {
                lemma_threshold_hundred(hashes[u], hashes[v], algorithm);
            }
        }
        lemma_connected_is_finest(edges, same, a, b);
    }
}

/// Under the exact algorithm and any threshold from 0 to 100, two images
/// with fingerprints are linked exactly if their fingerprints are equal, as
/// long as no bucket of the index is full.
pub proof fn lemma_exact_groups_are_equal_hashes(
    hashes: Seq<Seq<char>>,
    threshold: int,
    a: int,
    b: int,
)
    requires
        hashes.len() <= usize::MAX,
        no_bucket_full(hashes, HashAlgorithm::Exact),
        0 <= threshold <= 100,
        0 <= a < hashes.len(),
        0 <= b < hashes.len(),
        hashes[a].len() > 0,
        hashes[b].len() > 0,
    ensures
        linked(hashes, HashAlgorithm::Exact, threshold, a, b) <==> hashes[a] == hashes[b],
{
    lemma_equal_fingerprints_are_linked(hashes, HashAlgorithm::Exact, threshold, 0, a, b);
}

/// True if the elements of `s` ascend strictly.
pub open spec fn is_ascending(s: Seq<usize>) -> bool {
    forall|k: int, l: int| 0 <= k < l < s.len() ==> (#[trigger] s[k]) < (#[trigger] s[l])
}

/// Two ascending lists with the same elements agree on their first `p`
/// positions, and the second has at least `p`.
proof fn lemma_ascending_prefix(a: Seq<usize>, b: Seq<usize>, p: int)
    requires
        is_ascending(a),
        is_ascending(b),
        forall|x: usize| a.contains(x) <==> b.contains(x),
        0 <= p <= a.len(),
    ensures
        p <= b.len(),
        forall|q: int| 0 <= q < p ==> a[q] == b[q],
    decreases p,
{
    if p > 0 {
        lemma_ascending_prefix(a, b, p - 1);
        let x = a[p - 1];
        assert(a.contains(x));
        let r = choose|r: int| 0 <= r < b.len() && b[r] == x;
        if r < p - 1 {
            assert(a[r] == b[r]);
            assert(a[r] < a[p - 1]);
        }
        let y = b[p - 1];
        assert(b.contains(y));
        let t = choose|t: int| 0 <= t < a.len() && a[t] == y;
        if t < p - 1 {
            assert(a[t] == b[t]);
            assert(b[t] < b[p - 1]);
        }
        if p - 1 < t {
            assert(a[p - 1] < a[t]);
        }
        if p - 1 < r {
            assert(b[p - 1] < b[r]);
        }
    }
}

/// An ascending list is determined by its elements.
pub proof fn lemma_ascending_equal(a: Seq<usize>, b: Seq<usize>)
    requires
        is_ascending(a),
        is_ascending(b),
        forall|x: usize| a.contains(x) <==> b.contains(x),
    ensures
        a == b,
{
    lemma_ascending_prefix(a, b, a.len() as int);
    lemma_ascending_prefix(b, a, b.len() as int);
    assert(a =~= b);
}

/// A group holds every image that is linked with one of its members.
pub proof fn lemma_group_is_whole(
    groups: Seq<Vec<usize>>,
    hashes: Seq<Seq<char>>,
    algorithm: HashAlgorithm,
    threshold: int,
    g: int,
    k: int,
    j: int,
)
    requires
        hashes.len() <= usize::MAX,
        are_duplicate_groups(groups, hashes, algorithm, threshold),
        0 <= g < groups.len(),
        0 <= k < groups[g]@.len(),
        0 <= j < hashes.len(),
        linked(hashes, algorithm, threshold, groups[g]@[k] as int, j),
    ensures
        groups[g]@.contains(j as usize),
{
    let x = groups[g]@[k];
    if j != x as int {
        lemma_connected_symmetric(admitted_edges(hashes, algorithm, threshold), x as int, j);
        assert(has_partner(hashes, algorithm, threshold, j, x as int));
        let other = choose|other: int|
            0 <= other < groups.len() && (#[trigger] groups[other])@.contains(j as usize);
        let w = choose|w: int| 0 <= w < groups[other]@.len() && groups[other]@[w] == j as usize;
        assert(linked(hashes, algorithm, threshold, groups[other]@[w] as int, groups[g]@[k] as int));
        assert(other == g);
    }
}

/// Every group of one grouping is a group of any other grouping of the
/// same fingerprints.
proof fn lemma_group_found(
    first: Seq<Vec<usize>>,
    second: Seq<Vec<usize>>,
    hashes: Seq<Seq<char>>,
    algorithm: HashAlgorithm,
    threshold: int,
    g: int,
) -> (h: int)
    requires
        hashes.len() <= usize::MAX,
        are_duplicate_groups(first, hashes, algorithm, threshold),
        are_duplicate_groups(second, hashes, algorithm, threshold),
        0 <= g < first.len(),
    ensures
        0 <= h < second.len(),
        second[h]@ == first[g]@,
{
    let group = first[g]@;
    let f = group[0];
    let s = group[1];
    assert(f < s);
    assert(linked(hashes, algorithm, threshold, first[g]@[0] as int, first[g]@[1] as int));
    assert(has_partner(hashes, algorithm, threshold, f as int, s as int));
    let h = choose|h: int| 0 <= h < second.len() && (#[trigger] second[h])@.contains(f);
    let k = choose|k: int| 0 <= k < second[h]@.len() && second[h]@[k] == f;
    assert forall|x: usize| group.contains(x) <==> second[h]@.contains(x) by {
        if group.contains(x) {
            let w = choose|w: int| 0 <= w < group.len() && group[w] == x;
            assert(linked(hashes, algorithm, threshold, first[g]@[0] as int, first[g]@[w] as int));
            lemma_group_is_whole(second, hashes, algorithm, threshold, h, k, x as int);
        }
        if second[h]@.contains(x) {
            let w = choose|w: int| 0 <= w < second[h]@.len() && second[h]@[w] == x;
            assert(linked(hashes, algorithm, threshold, second[h]@[k] as int, second[h]@[w] as int));
            lemma_group_is_whole(first, hashes, algorithm, threshold, g, 0, x as int);
        }
    }
    assert(is_ascending(group));
    assert(is_ascending(second[h]@));
    lemma_ascending_equal(group, second[h]@);
    h
}

/// Two groupings of the same fingerprints agree on their first `g` groups.
proof fn lemma_groups_prefix(
    first: Seq<Vec<usize>>,
    second: Seq<Vec<usize>>,
    hashes: Seq<Seq<char>>,
    algorithm: HashAlgorithm,
    threshold: int,
    g: int,
)
    requires
        hashes.len() <= usize::MAX,
        are_duplicate_groups(first, hashes, algorithm, threshold),
        are_duplicate_groups(second, hashes, algorithm, threshold),
        0 <= g <= first.len(),
    ensures
        g <= second.len(),
        forall|i: int| 0 <= i < g ==> (#[trigger] first[i])@ == second[i]@,
    decreases g,
{
    if g > 0 {
        lemma_groups_prefix(first, second, hashes, algorithm, threshold, g - 1);
        let c = g - 1;
        let h = lemma_group_found(first, second, hashes, algorithm, threshold, c);
        if h < c {
            assert(first[h]@ == second[h]@);
            assert(first[h]@[0] < first[c]@[0]);
        }
        if h > c {
            let back = lemma_group_found(second, first, hashes, algorithm, threshold, c);
            if back < c {
                assert(first[back]@ == second[back]@);
                assert(second[back]@[0] < second[c]@[0]);
            } else if back == c {
                assert(second[c]@[0] < second[h]@[0]);
            } else {
                assert(first[c]@[0] < first[back]@[0]);
                assert(second[c]@[0] < second[h]@[0]);
            }
        }
        assert(h == c);
    }
}

/// The fingerprints, the algorithm and the threshold determine the groups:
/// two groupings that both meet `are_duplicate_groups` are the same.
pub proof fn lemma_duplicate_groups_unique(
    first: Seq<Vec<usize>>,
    second: Seq<Vec<usize>>,
    hashes: Seq<Seq<char>>,
    algorithm: HashAlgorithm,
    threshold: int,
)
    requires
        hashes.len() <= usize::MAX,
        are_duplicate_groups(first, hashes, algorithm, threshold),
        are_duplicate_groups(second, hashes, algorithm, threshold),
    ensures
        first.len() == second.len(),
        forall|g: int| 0 <= g < first.len() ==> (#[trigger] first[g])@ == second[g]@,
{
    lemma_groups_prefix(first, second, hashes, algorithm, threshold, first.len() as int);
    lemma_groups_prefix(second, first, hashes, algorithm, threshold, second.len() as int);
}

/// The second fingerprint of a candidate pair is not empty.
pub proof fn lemma_candidate_partner_not_empty(
    hashes: Seq<Seq<char>>,
    algorithm: HashAlgorithm,
    a: int,
    b: int,
)
    requires
        0 <= a < b < hashes.len() <= usize::MAX,
        is_candidate_pair(hashes, algorithm, a, b),
    ensures
        hashes[b].len() > 0,
{
    let home = a / (BATCH_SIZE as int);
    let batch = batch_hashes(hashes, home);
    let buckets = batch_buckets(hashes, algorithm, home);
    if b / (BATCH_SIZE as int) == home {
        let keys = signature_keys(hashes[a], algorithm);
        let local = (b - home * BATCH_SIZE) as usize;
        assert(candidates(buckets, keys).contains(local));
        let band = choose|band: int|
            0 <= band < keys.len() && #[trigger] bucket_of(buckets, keys[band]).contains(local);
        let bucket = bucket_of(buckets, keys[band]);
        let w = choose|w: int| 0 <= w < bucket.len() && bucket[w] == local;
        lemma_batch_entries_filed(batch, batch.len(), algorithm);
        assert(batch.subrange(0, batch.len() as int) =~= batch);
        assert(buckets[keys[band]][w] == local);
        assert(batch[local as int] == hashes[b]);
        assert(signature_keys(hashes[b], algorithm).len() > 0);
    } else {
        let keys = signature_keys(hashes[b], algorithm);
        let local = (a - home * BATCH_SIZE) as usize;
        assert(candidates(buckets, keys).contains(local));
        let band = choose|band: int|
            0 <= band < keys.len() && #[trigger] bucket_of(buckets, keys[band]).contains(local);
        assert(keys.len() > 0);
    }
}

/// An image whose fingerprint is empty, as that of an image that could not
/// be fingerprinted is, is linked with no other image.
pub proof fn lemma_failed_image_is_alone(
    hashes: Seq<Seq<char>>,
    algorithm: HashAlgorithm,
    threshold: int,
    a: int,
    b: int,
)
    requires
        hashes.len() <= usize::MAX,
        0 <= a < hashes.len(),
        hashes[a].len() == 0,
    ensures
        linked(hashes, algorithm, threshold, a, b) <==> a == b,
{
    let edges = admitted_edges(hashes, algorithm, threshold);
    lemma_connected_reflexive(edges, a);
    if connected(edges, a, b) {
        let apart = |u: int, v: int| u == v || (u != a && v != a);
        assert forall|u: int, v: int| edges.contains((u, v)) implies #[trigger] apart(u, v) by {
            assert(is_admitted(hashes, algorithm, threshold, u, v));
            lemma_candidate_not_empty(hashes, algorithm, u, v);
            lemma_candidate_partner_not_empty(hashes, algorithm, u, v);
        }
        lemma_connected_is_finest(edges, apart, a, b);
    }
}

/// The index groups, the fingerprints, the metadata and the threshold
/// determine the assembled groups: two assemblies have as many groups, and
/// every group describes the same images in the same order.
pub proof fn lemma_assembly_unique(
    first: Seq<DuplicateGroup>,
    second: Seq<DuplicateGroup>,
    groups: Seq<Vec<usize>>,
    paths: Seq<String>,
    hashes: Seq<HashResult>,
    metadata: Seq<Option<FileMetadata>>,
    threshold: u32,
)
    requires
        is_assembly(first, groups, paths, hashes, metadata, threshold),
        is_assembly(second, groups, paths, hashes, metadata, threshold),
    ensures
        first.len() == second.len(),
        forall|p: int|
            0 <= p < first.len() ==> (#[trigger] first[p]).similarity_threshold
                == second[p].similarity_threshold && first[p].images@.len()
                == second[p].images@.len(),
        forall|p: int, k: int|
            0 <= p < first.len() && 0 <= k < first[p].images@.len() ==> (
            #[trigger] first[p].images@[k])@ == second[p].images@[k]@,
{
    let kept = surviving(groups, metadata, groups.len());
    let order1 = choose|order: Seq<usize>| #[trigger]
        is_ordering(order, first, kept, paths, hashes, metadata, threshold);
    let order2 = choose|order: Seq<usize>| #[trigger]
        is_ordering(order, second, kept, paths, hashes, metadata, threshold);
    lemma_top_selection_unique(sizes_of(kept), kept.len(), order1, order2);
    assert forall|p: int| 0 <= p < first.len() implies (#[trigger] first[p]).similarity_threshold
        == second[p].similarity_threshold && first[p].images@.len() == second[p].images@.len() by {
        assert(describes(first[p], kept[order1[p] as int], paths, hashes, metadata, threshold));
        assert(describes(second[p], kept[order1[p] as int], paths, hashes, metadata, threshold));
    }
    assert forall|p: int, k: int|
        0 <= p < first.len() && 0 <= k < first[p].images@.len() implies (
    #[trigger] first[p].images@[k])@ == second[p].images@[k]@ by {
        assert(describes(first[p], kept[order1[p] as int], paths, hashes, metadata, threshold));
        assert(describes(second[p], kept[order1[p] as int], paths, hashes, metadata, threshold));
    }
}

} // verus!
