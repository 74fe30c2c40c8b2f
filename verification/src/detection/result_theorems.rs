//! Theorems about the assembled groups: which images they hold.

use vstd::prelude::*;
use crate::detection::completeness::no_bucket_full;
use crate::detection::duplicate::{
    are_duplicate_groups, describes, has_partner, image_of, images_distinct, is_assembly,
    is_ordering, kept_members, linked, paths_distinct, surviving,
};
use crate::detection::lsh::band_count;
use crate::detection::theorems::{
    lemma_equal_fingerprints_are_linked, lemma_group_is_whole, lemma_groups_disjoint, of_one_length,
};
use crate::types::{DuplicateGroup, FileMetadata, HashAlgorithm, HashResult};
use crate::utils::ranking::ranks_before;

verus! {

/// The positions of the groups that survive among the first `n`: those that
/// keep at least two members.
pub open spec fn origins(groups: Seq<Vec<usize>>, metadata: Seq<Option<FileMetadata>>, n: nat) -> Seq<
    int,
>
    decreases n,
{
    if n == 0 {
        Seq::empty()
    } else if kept_members(groups[n - 1]@, metadata, groups[n - 1]@.len()).len() >= 2 {
        origins(groups, metadata, (n - 1) as nat).push(n - 1)
    } else {
        origins(groups, metadata, (n - 1) as nat)
    }
}

/// The members kept of a group are its members with metadata, in their
/// order.
pub proof fn lemma_kept_members(group: Seq<usize>, metadata: Seq<Option<FileMetadata>>, n: nat)
    requires
        n <= group.len(),
    ensures
        forall|x: usize|
            #[trigger] kept_members(group, metadata, n).contains(x) <==> metadata[x as int] is Some
                && exists|w: int| 0 <= w < n && #[trigger] group[w] == x,
        (forall|k: int, l: int| 0 <= k < l < group.len() ==> #[trigger] group[k] < #[trigger] group[l])
            ==> forall|k: int, l: int|
            0 <= k < l < kept_members(group, metadata, n).len() ==> #[trigger] kept_members(
                group,
                metadata,
                n,
            )[k] < #[trigger] kept_members(group, metadata, n)[l],
    decreases n,
{
    if n > 0 {
        lemma_kept_members(group, metadata, (n - 1) as nat);
        let rest = kept_members(group, metadata, (n - 1) as nat);
        let now = kept_members(group, metadata, n);
        let last = group[n - 1];
        assert forall|x: usize| #[trigger] now.contains(x) <==> metadata[x as int] is Some && exists|
            w: int,
        | 0 <= w < n && #[trigger] group[w] == x by {
            if rest.contains(x) {
                let w = choose|w: int| 0 <= w < n - 1 && #[trigger] group[w] == x;
                assert(0 <= w < n && group[w] == x);
                let r = choose|r: int| 0 <= r < rest.len() && rest[r] == x;
                assert(now[r] == x);
            }
            if now.contains(x) {
                let r = choose|r: int| 0 <= r < now.len() && now[r] == x;
                if r < rest.len() {
                    assert(rest[r] == x);
                    assert(rest.contains(x));
                } else {
                    assert(group[n - 1] == x);
                }
            }
            if metadata[x as int] is Some && exists|w: int| 0 <= w < n && #[trigger] group[w] == x {
                let w = choose|w: int| 0 <= w < n && #[trigger] group[w] == x;
                if w < n - 1 {
                    assert(rest.contains(x));
                } else {
                    assert(now[rest.len() as int] == x);
                }
            }
        }
        if forall|k: int, l: int| 0 <= k < l < group.len() ==> #[trigger] group[k] < #[trigger] group[l] {
            assert forall|k: int, l: int| 0 <= k < l < now.len() implies #[trigger] now[k]
                < #[trigger] now[l] by {
                if l < rest.len() {
                    assert(now[k] == rest[k] && now[l] == rest[l]);
                } else {
                    assert(now[l] == last);
                    assert(now[k] == rest[k]);
                    assert(rest.contains(rest[k]));
                    let w = choose|w: int| 0 <= w < n - 1 && #[trigger] group[w] == rest[k];
                    assert(group[w] < group[n - 1]);
                }
            }
        }
    } else {
        assert forall|x: usize| !(#[trigger] kept_members(group, metadata, 0).contains(x)) by {
            if kept_members(group, metadata, 0).contains(x) {
                let r = choose|r: int| 0 <= r < 0 && kept_members(group, metadata, 0)[r] == x;
            }
        }
    }
}

/// Every surviving group is what is kept of the group at its origin; the
/// origins ascend, and every group that keeps two members is among them.
pub proof fn lemma_origins(groups: Seq<Vec<usize>>, metadata: Seq<Option<FileMetadata>>, n: nat)
    requires
        n <= groups.len(),
    ensures
        origins(groups, metadata, n).len() == surviving(groups, metadata, n).len(),
        origins(groups, metadata, n).len() <= n,
        forall|s: int|
            0 <= s < origins(groups, metadata, n).len() ==> 0 <= (#[trigger] origins(
                groups,
                metadata,
                n,
            )[s]) < n && surviving(groups, metadata, n)[s] == kept_members(
                groups[origins(groups, metadata, n)[s]]@,
                metadata,
                groups[origins(groups, metadata, n)[s]]@.len(),
            ),
        forall|s: int, t: int|
            0 <= s < t < origins(groups, metadata, n).len() ==> (#[trigger] origins(
                groups,
                metadata,
                n,
            )[s]) < (#[trigger] origins(groups, metadata, n)[t]),
        forall|g: int|
            0 <= g < n && kept_members((#[trigger] groups[g])@, metadata, groups[g]@.len()).len() >= 2
                ==> origins(groups, metadata, n).contains(g),
    decreases n,
{
    if n > 0 {
        lemma_origins(groups, metadata, (n - 1) as nat);
        let before = origins(groups, metadata, (n - 1) as nat);
        let now = origins(groups, metadata, n);
        assert forall|g: int|
            0 <= g < n && kept_members((#[trigger] groups[g])@, metadata, groups[g]@.len()).len()
                >= 2 implies now.contains(g) by {
            if g < n - 1 {
                assert(before.contains(g));
                let w = choose|w: int| 0 <= w < before.len() && before[w] == g;
                assert(now[w] == g);
            } else {
                assert(now[before.len() as int] == g);
            }
        }
    }
}

/// If the paths differ from one another, no path occurs twice in the
/// assembled groups: neither in two groups nor twice in one.
pub proof fn lemma_result_paths_distinct(
    result: Seq<DuplicateGroup>,
    groups: Seq<Vec<usize>>,
    fingerprints: Seq<Seq<char>>,
    algorithm: HashAlgorithm,
    threshold: u32,
    paths: Seq<String>,
    hashes: Seq<HashResult>,
    metadata: Seq<Option<FileMetadata>>,
)
    requires
        are_duplicate_groups(groups, fingerprints, algorithm, threshold as int),
        is_assembly(result, groups, paths, hashes, metadata, threshold),
        fingerprints.len() == paths.len(),
        paths_distinct(paths),
    ensures
        images_distinct(result),
{
    let kept = surviving(groups, metadata, groups.len());
    let order = choose|order: Seq<usize>| #[trigger]
        is_ordering(order, result, kept, paths, hashes, metadata, threshold);
    let from = origins(groups, metadata, groups.len());
    lemma_origins(groups, metadata, groups.len());
    assert forall|p: int, q: int, k: int, l: int|
        0 <= p < result.len() && 0 <= q < result.len() && 0 <= k < result[p].images@.len() && 0 <= l
            < result[q].images@.len() && (p != q || k != l) implies (
    #[trigger] result[p].images@[k])@.path != (#[trigger] result[q].images@[l])@.path by {
        let s1 = order[p] as int;
        let s2 = order[q] as int;
        assert(describes(result[p], kept[s1], paths, hashes, metadata, threshold));
        assert(describes(result[q], kept[s2], paths, hashes, metadata, threshold));
        let m1 = kept[s1][k];
        let m2 = kept[s2][l];
        let g1 = from[s1];
        let g2 = from[s2];
        lemma_kept_members(groups[g1]@, metadata, groups[g1]@.len());
        lemma_kept_members(groups[g2]@, metadata, groups[g2]@.len());
        assert(kept[s1].contains(m1));
        assert(kept[s2].contains(m2));
        let w1 = choose|w: int| 0 <= w < groups[g1]@.len() && #[trigger] groups[g1]@[w] == m1;
        let w2 = choose|w: int| 0 <= w < groups[g2]@.len() && #[trigger] groups[g2]@[w] == m2;
        if p != q {
            if p < q {
                assert(ranks_before(crate::detection::duplicate::sizes_of(kept), order[p] as int, order[q] as int));
            } else {
                assert(ranks_before(crate::detection::duplicate::sizes_of(kept), order[q] as int, order[p] as int));
            }
            assert(s1 != s2);
            if s1 < s2 {
                assert(from[s1] < from[s2]);
            } else {
                assert(from[s2] < from[s1]);
            }
            lemma_groups_disjoint(groups, fingerprints, algorithm, threshold as int, g1, g2, w1, w2);
        } else {
            if k < l {
                assert(kept[s1][k] < kept[s1][l]);
            } else {
                assert(kept[s1][l] < kept[s1][k]);
            }
        }
        assert(m1 != m2);
        assert(groups[g1]@[w1] < fingerprints.len());
        assert(groups[g2]@[w2] < fingerprints.len());
        if m1 < m2 {
            assert(paths[m1 as int]@ != paths[m2 as int]@);
        } else {
            assert(paths[m2 as int]@ != paths[m1 as int]@);
        }
    }
}

/// True if some group of `result` holds both an image at `path1` and an
/// image at `path2`.
pub open spec fn together(result: Seq<DuplicateGroup>, path1: Seq<char>, path2: Seq<char>) -> bool {
    exists|p: int, k: int, l: int|
        0 <= p < result.len() && 0 <= k < result[p].images@.len() && 0 <= l < result[p].images@.len()
            && (#[trigger] result[p].images@[k])@.path == path1 && (
        #[trigger] result[p].images@[l])@.path == path2
}

/// If the paths differ from one another, two images are in one assembled
/// group exactly if they are linked and the metadata of both is known.
pub proof fn lemma_together(
    result: Seq<DuplicateGroup>,
    groups: Seq<Vec<usize>>,
    fingerprints: Seq<Seq<char>>,
    algorithm: HashAlgorithm,
    threshold: u32,
    paths: Seq<String>,
    hashes: Seq<HashResult>,
    metadata: Seq<Option<FileMetadata>>,
    i: int,
    j: int,
)
    requires
        are_duplicate_groups(groups, fingerprints, algorithm, threshold as int),
        is_assembly(result, groups, paths, hashes, metadata, threshold),
        fingerprints.len() == paths.len(),
        metadata.len() == paths.len(),
        fingerprints.len() <= usize::MAX,
        groups.len() <= usize::MAX,
        paths_distinct(paths),
        0 <= i < paths.len(),
        0 <= j < paths.len(),
        i != j,
    ensures
        together(result, paths[i]@, paths[j]@) <==> linked(
            fingerprints,
            algorithm,
            threshold as int,
            i,
            j,
        ) && metadata[i] is Some && metadata[j] is Some,
{
    let kept = surviving(groups, metadata, groups.len());
    let order = choose|order: Seq<usize>| #[trigger]
        is_ordering(order, result, kept, paths, hashes, metadata, threshold);
    let from = origins(groups, metadata, groups.len());
    lemma_origins(groups, metadata, groups.len());
    let t = threshold as int;
    if linked(fingerprints, algorithm, t, i, j) && metadata[i] is Some && metadata[j] is Some {
        assert(has_partner(fingerprints, algorithm, t, i, j));
        let g = choose|g: int| 0 <= g < groups.len() && (#[trigger] groups[g])@.contains(i as usize);
        let wi = choose|w: int| 0 <= w < groups[g]@.len() && groups[g]@[w] == i as usize;
        lemma_group_is_whole(groups, fingerprints, algorithm, t, g, wi, j);
        let wj = choose|w: int| 0 <= w < groups[g]@.len() && groups[g]@[w] == j as usize;
        lemma_kept_members(groups[g]@, metadata, groups[g]@.len());
        let members = kept_members(groups[g]@, metadata, groups[g]@.len());
        assert(members.contains(i as usize));
        assert(members.contains(j as usize));
        let ki = choose|k: int| 0 <= k < members.len() && members[k] == i as usize;
        let kj = choose|k: int| 0 <= k < members.len() && members[k] == j as usize;
        assert(ki != kj);
        assert(members.len() >= 2);
        assert(from.contains(g));
        let s = choose|s: int| 0 <= s < from.len() && from[s] == g;
        assert(kept[s] == members);
        assert(order.contains(s as usize));
        let p = choose|p: int| 0 <= p < order.len() && order[p] == s as usize;
        assert(order[p] as int == s);
        assert(describes(result[p], kept[s], paths, hashes, metadata, threshold));
        assert(kept[s][ki] as int == i && kept[s][kj] as int == j);
        assert(result[p].images@[ki]@ == image_of(i, paths, hashes, metadata));
        assert(result[p].images@[kj]@ == image_of(j, paths, hashes, metadata));
        assert(together(result, paths[i]@, paths[j]@));
    }
    if together(result, paths[i]@, paths[j]@) {
        let (p, k, l) = choose|p: int, k: int, l: int|
            0 <= p < result.len() && 0 <= k < result[p].images@.len() && 0 <= l
                < result[p].images@.len() && (#[trigger] result[p].images@[k])@.path == paths[i]@ && (
            #[trigger] result[p].images@[l])@.path == paths[j]@;
        let s = order[p] as int;
        assert(describes(result[p], kept[s], paths, hashes, metadata, threshold));
        let g = from[s];
        lemma_kept_members(groups[g]@, metadata, groups[g]@.len());
        let m1 = kept[s][k];
        let m2 = kept[s][l];
        assert(kept[s].contains(m1));
        assert(kept[s].contains(m2));
        let w1 = choose|w: int| 0 <= w < groups[g]@.len() && #[trigger] groups[g]@[w] == m1;
        let w2 = choose|w: int| 0 <= w < groups[g]@.len() && #[trigger] groups[g]@[w] == m2;
        assert(groups[g]@[w1] < fingerprints.len());
        assert(groups[g]@[w2] < fingerprints.len());
        assert(result[p].images@[k]@ == image_of(m1 as int, paths, hashes, metadata));
        assert(result[p].images@[l]@ == image_of(m2 as int, paths, hashes, metadata));
        assert(m1 == i) by {
            if m1 < i {
                assert(paths[m1 as int]@ != paths[i]@);
            }
            if i < m1 {
                assert(paths[i]@ != paths[m1 as int]@);
            }
        }
        assert(m2 == j) by {
            if m2 < j {
                assert(paths[m2 as int]@ != paths[j]@);
            }
            if j < m2 {
                assert(paths[j]@ != paths[m2 as int]@);
            }
        }
        assert(linked(fingerprints, algorithm, t, groups[g]@[w1] as int, groups[g]@[w2] as int));
    }
}

/// Where only equal fingerprints are admitted, no bucket of the index is
/// full, the paths differ from one another and the metadata of two images
/// with fingerprints is known, the two images are in one assembled group
/// exactly if their fingerprints are equal. "Only equal fingerprints" means
/// the exact algorithm under any threshold from 0 to 100, or a bit-string
/// algorithm under a threshold of 100 with fingerprints of one length that
/// is not less than the number of bands.
pub proof fn lemma_equal_fingerprints_share_a_group(
    result: Seq<DuplicateGroup>,
    groups: Seq<Vec<usize>>,
    fingerprints: Seq<Seq<char>>,
    algorithm: HashAlgorithm,
    threshold: u32,
    len: nat,
    paths: Seq<String>,
    hashes: Seq<HashResult>,
    metadata: Seq<Option<FileMetadata>>,
    i: int,
    j: int,
)
    requires
        are_duplicate_groups(groups, fingerprints, algorithm, threshold as int),
        is_assembly(result, groups, paths, hashes, metadata, threshold),
        fingerprints.len() == paths.len(),
        metadata.len() == paths.len(),
        fingerprints.len() <= usize::MAX,
        groups.len() <= usize::MAX,
        paths_distinct(paths),
        no_bucket_full(fingerprints, algorithm),
        algorithm != HashAlgorithm::ORB,
        threshold <= 100,
        algorithm != HashAlgorithm::Exact ==> threshold == 100 && of_one_length(fingerprints, len)
            && len >= band_count(algorithm),
        0 <= i < paths.len(),
        0 <= j < paths.len(),
        i != j,
        fingerprints[i].len() > 0,
        fingerprints[j].len() > 0,
        metadata[i] is Some,
        metadata[j] is Some,
    ensures
        together(result, paths[i]@, paths[j]@) <==> fingerprints[i] == fingerprints[j],
{
    lemma_together(result, groups, fingerprints, algorithm, threshold, paths, hashes, metadata, i, j);
    lemma_equal_fingerprints_are_linked(fingerprints, algorithm, threshold as int, len, i, j);
}

} // verus!
