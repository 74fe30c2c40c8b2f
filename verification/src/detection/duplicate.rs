//! Grouping: fingerprints are linked where a candidate pair is similar
//! enough, and the groups are the connected components of at least two.

use vstd::prelude::*;
use crate::algorithms::{calculate_similarity, spec_similarity};
use crate::detection::disjoint_set::{merged_sets, DisjointSet};
use crate::detection::graph::{connected, lemma_add_edge, lemma_connected_empty};
use crate::detection::lsh::{compute_candidate_pairs, is_candidate_pair, views_of};
use crate::detection::result_theorems::lemma_result_paths_distinct;
use crate::types::{
    DetectionError, DuplicateGroup, FileMetadata, HashAlgorithm, HashResult, ImageInfo,
    ImageInfoModel,
};
use crate::utils::ranking::{is_top_selection, ranks_before, top_by_key};

verus! {

/// True if fingerprints `a < b` are compared and found similar enough: they
/// are a candidate pair and their similarity meets the threshold.
pub open spec fn is_admitted(
    hashes: Seq<Seq<char>>,
    algorithm: HashAlgorithm,
    threshold: int,
    a: int,
    b: int,
) -> bool {
    0 <= a < b < hashes.len() && is_candidate_pair(hashes, algorithm, a, b) && spec_similarity(
        hashes[a],
        hashes[b],
        algorithm,
    ).spec_meets(threshold)
}

/// The edges of the similarity graph: the admitted pairs.
pub open spec fn admitted_edges(hashes: Seq<Seq<char>>, algorithm: HashAlgorithm, threshold: int) -> Set<
    (int, int),
> {
    Set::new(|e: (int, int)| is_admitted(hashes, algorithm, threshold, e.0, e.1))
}

/// True if images `a` and `b` belong together: a chain of admitted pairs
/// leads from one to the other.
pub open spec fn linked(
    hashes: Seq<Seq<char>>,
    algorithm: HashAlgorithm,
    threshold: int,
    a: int,
    b: int,
) -> bool {
    connected(admitted_edges(hashes, algorithm, threshold), a, b)
}

/// The admitted pairs among the first `k` of a list of pairs.
pub open spec fn admitted_among(
    pairs: Seq<(usize, usize)>,
    k: int,
    hashes: Seq<Seq<char>>,
    algorithm: HashAlgorithm,
    threshold: int,
) -> Set<(int, int)> {
    Set::new(
        |e: (int, int)|
            is_admitted(hashes, algorithm, threshold, e.0, e.1) && exists|p: int|
                0 <= p < k && (#[trigger] pairs[p]).0 == e.0 && pairs[p].1 == e.1,
    )
}

/// Compares every candidate pair of `hashes` and merges the sets of those
/// that are similar enough. In the result, two images are in one set exactly
/// if they are linked.
pub fn link_similar(hashes: &Vec<String>, algorithm: HashAlgorithm, threshold: u32) -> (set:
    DisjointSet)
    ensures
        set.wf(),
        set.len() == hashes@.len(),
        forall|a: int, b: int|
            0 <= a < hashes@.len() && 0 <= b < hashes@.len() ==> (#[trigger] set.same_set(a, b)
                <==> linked(views_of(hashes@), algorithm, threshold as int, a, b)),
{
    let n = hashes.len();
    let ghost views = views_of(hashes@);
    let ghost t = threshold as int;
    let pairs = compute_candidate_pairs(hashes, algorithm);
    let mut set = DisjointSet::new(n);
    proof {
        assert(admitted_among(pairs@, 0, views, algorithm, t) =~= Set::empty());
        assert forall|a: int, b: int| 0 <= a < n && 0 <= b < n implies (#[trigger] set.same_set(a, b)
            <==> connected(admitted_among(pairs@, 0, views, algorithm, t), a, b)) by {
            lemma_connected_empty(a, b);
        }
    }
    let mut k: usize = 0;
    while k < pairs.len()
        invariant
            k <= pairs@.len(),
            n == hashes@.len(),
            views == views_of(hashes@),
            t == threshold as int,
            forall|x: (usize, usize)|
                #[trigger] pairs@.contains(x) <==> x.0 < x.1 < n && is_candidate_pair(
                    views,
                    algorithm,
                    x.0 as int,
                    x.1 as int,
                ),
            set.wf(),
            set.len() == n,
            forall|a: int, b: int|
                0 <= a < n && 0 <= b < n ==> (#[trigger] set.same_set(a, b) <==> connected(
                    admitted_among(pairs@, k as int, views, algorithm, t),
                    a,
                    b,
                )),
        decreases pairs@.len() - k,
    {
        let pair = pairs[k];
        assert(pairs@.contains(pair));
        let score = calculate_similarity(hashes[pair.0].as_str(), hashes[pair.1].as_str(), algorithm);
        let ghost before = admitted_among(pairs@, k as int, views, algorithm, t);
        let ghost after = admitted_among(pairs@, k as int + 1, views, algorithm, t);
        let ghost x = pair.0 as int;
        let ghost y = pair.1 as int;
        if score.meets(threshold) {
            let ghost old_set = set;
            set.union(pair.0, pair.1);
            proof {
                assert(is_admitted(views, algorithm, t, x, y));
                assert(after =~= before.insert((x, y))) by {
                    assert forall|e: (int, int)| after.contains(e) <==> before.insert(
                        (x, y),
                    ).contains(e) by {
                        if after.contains(e) {
                            let p = choose|p: int|
                                0 <= p < k + 1 && (#[trigger] pairs@[p]).0 == e.0 && pairs@[p].1
                                    == e.1;
                            if p < k {
                                assert(before.contains(e));
                            }
                        }
                        if before.contains(e) {
                            let p = choose|p: int|
                                0 <= p < k && (#[trigger] pairs@[p]).0 == e.0 && pairs@[p].1 == e.1;
                            assert(0 <= p < k + 1);
                        }
                        if e == (x, y) {
                            assert(pairs@[k as int].0 == e.0 && pairs@[k as int].1 == e.1);
                        }
                    }
                }
                assert forall|a: int, b: int| 0 <= a < n && 0 <= b < n implies (
                #[trigger] set.same_set(a, b) <==> connected(after, a, b)) by {
                    lemma_add_edge(before, x, y, a, b);
                    assert(old_set.same_set(a, b) <==> connected(before, a, b));
                    assert(old_set.same_set(a, x) <==> connected(before, a, x));
                    assert(old_set.same_set(b, y) <==> connected(before, b, y));
                    assert(old_set.same_set(a, y) <==> connected(before, a, y));
                    assert(old_set.same_set(b, x) <==> connected(before, b, x));
                    assert(set.same_set(a, b) <==> merged_sets(old_set, x, y, a, b));
                }
            }
        } else {
            proof {
                assert(after =~= before) by {
                    assert forall|e: (int, int)| after.contains(e) <==> before.contains(e) by {
                        if after.contains(e) {
                            let p = choose|p: int|
                                0 <= p < k + 1 && (#[trigger] pairs@[p]).0 == e.0 && pairs@[p].1
                                    == e.1;
                            if p == k {
                                assert(e == (x, y));
                                assert(false);
                            }
                        }
                        if before.contains(e) {
                            let p = choose|p: int|
                                0 <= p < k && (#[trigger] pairs@[p]).0 == e.0 && pairs@[p].1 == e.1;
                            assert(0 <= p < k + 1);
                        }
                    }
                }
            }
        }
        k += 1;
    }
    proof {
        let all = admitted_among(pairs@, pairs@.len() as int, views, algorithm, t);
        assert(all =~= admitted_edges(views, algorithm, t)) by {
            assert forall|e: (int, int)| all.contains(e) <==> admitted_edges(
                views,
                algorithm,
                t,
            ).contains(e) by {
                if is_admitted(views, algorithm, t, e.0, e.1) {
                    let x = (e.0 as usize, e.1 as usize);
                    assert(pairs@.contains(x));
                    let p = choose|p: int| 0 <= p < pairs@.len() && pairs@[p] == x;
                    assert(pairs@[p].0 == e.0 && pairs@[p].1 == e.1);
                }
            }
        }
    }
    set
}

/// True if `class` lists, in ascending order, exactly the elements below
/// `bound` whose representative is `r`.
pub open spec fn is_class(class: Seq<usize>, roots: Seq<usize>, r: int, bound: int) -> bool {
    &&& forall|k: int| 0 <= k < class.len() ==> (#[trigger] class[k]) < bound && roots[class[k] as int] == r
    &&& forall|k: int, l: int| 0 <= k < l < class.len() ==> (#[trigger] class[k]) < (#[trigger] class[l])
    &&& forall|j: int| 0 <= j < bound && (#[trigger] roots[j]) == r ==> class.contains(j as usize)
}

/// True if `groups` are the sets of a partition that have at least two
/// elements: each group is one whole set in ascending order, every element
/// that shares its set with another is in a group, and the groups stand in
/// the order of their smallest elements.
pub open spec fn is_grouping(groups: Seq<Vec<usize>>, roots: Seq<usize>) -> bool {
    &&& forall|g: int|
        0 <= g < groups.len() ==> (#[trigger] groups[g])@.len() >= 2 && is_class(
            groups[g]@,
            roots,
            roots[groups[g]@[0] as int] as int,
            roots.len() as int,
        )
    &&& forall|g: int, h: int|
        0 <= g < h < groups.len() ==> (#[trigger] groups[g])@[0] < (#[trigger] groups[h])@[0]
    &&& forall|i: int, j: int|
        0 <= i < roots.len() && 0 <= j < roots.len() && i != j && roots[i] == roots[j]
            ==> exists|g: int| 0 <= g < groups.len() && (#[trigger] groups[g])@.contains(i as usize)
}

/// Sorts the elements into their sets: entry `r` of the result lists the
/// elements whose representative is `r`.
fn classes_of(roots: &Vec<usize>) -> (classes: Vec<Vec<usize>>)
    requires
        forall|i: int| 0 <= i < roots@.len() ==> (#[trigger] roots@[i]) < roots@.len(),
    ensures
        classes@.len() == roots@.len(),
        forall|r: int|
            0 <= r < roots@.len() ==> is_class(
                (#[trigger] classes@[r])@,
                roots@,
                r,
                roots@.len() as int,
            ),
{
    let n = roots.len();
    let mut classes: Vec<Vec<usize>> = Vec::new();
    let mut r: usize = 0;
    while r < n
        invariant
            r <= n,
            classes@.len() == r,
            forall|q: int| 0 <= q < r ==> (#[trigger] classes@[q])@.len() == 0,
        decreases n - r,
    {
        classes.push(Vec::new());
        r += 1;
    }
    let mut i: usize = 0;
    while i < n
        invariant
            i <= n,
            n == roots@.len(),
            classes@.len() == n,
            forall|j: int| 0 <= j < roots@.len() ==> (#[trigger] roots@[j]) < roots@.len(),
            forall|q: int| 0 <= q < n ==> is_class((#[trigger] classes@[q])@, roots@, q, i as int),
        decreases n - i,
    {
        let root = roots[i];
        let ghost before = classes@;
        classes[root].push(i);
        proof {
            assert forall|q: int| 0 <= q < n implies is_class(
                (#[trigger] classes@[q])@,
                roots@,
                q,
                i as int + 1,
            ) by {
                let old_class = before[q]@;
                let class = classes@[q]@;
                assert(is_class(old_class, roots@, q, i as int));
                if q == root {
                    assert(class == old_class.push(i));
                    assert forall|j: int|
                        0 <= j < i + 1 && (#[trigger] roots@[j]) == q implies class.contains(
                        j as usize,
                    ) by {
                        if j < i {
                            assert(old_class.contains(j as usize));
                            let w = choose|w: int| 0 <= w < old_class.len() && old_class[w] == j as usize;
                            assert(class[w] == j as usize);
                        } else {
                            assert(class[old_class.len() as int] == i);
                        }
                    }
                } else {
                    assert(class == old_class);
                }
            }
        }
        i += 1;
    }
    classes
}

/// Copies a list of positions.
fn copy_of(list: &Vec<usize>) -> (copy: Vec<usize>)
    ensures
        copy@ == list@,
{
    let mut copy: Vec<usize> = Vec::new();
    let mut i: usize = 0;
    while i < list.len()
        invariant
            i <= list@.len(),
            copy@ == list@.subrange(0, i as int),
        decreases list@.len() - i,
    {
        copy.push(list[i]);
        assert(copy@ =~= list@.subrange(0, i as int + 1));
        i += 1;
    }
    assert(list@.subrange(0, list@.len() as int) =~= list@);
    copy
}

/// Returns the sets of at least two elements of the partition that `roots`
/// describes, each in ascending order, in the order of their smallest
/// elements.
pub fn collect_groups(roots: &Vec<usize>) -> (groups: Vec<Vec<usize>>)
    requires
        forall|i: int| 0 <= i < roots@.len() ==> (#[trigger] roots@[i]) < roots@.len(),
    ensures
        is_grouping(groups@, roots@),
{
    let n = roots.len();
    let classes = classes_of(roots);
    let mut groups: Vec<Vec<usize>> = Vec::new();
    let mut i: usize = 0;
    while i < n
        invariant
            i <= n,
            n == roots@.len(),
            classes@.len() == n,
            forall|j: int| 0 <= j < roots@.len() ==> (#[trigger] roots@[j]) < roots@.len(),
            forall|r: int| 0 <= r < n ==> is_class((#[trigger] classes@[r])@, roots@, r, n as int),
            forall|g: int|
                0 <= g < groups@.len() ==> (#[trigger] groups@[g])@.len() >= 2 && groups@[g]@[0] < i
                    && groups@[g]@ == classes@[roots@[groups@[g]@[0] as int] as int]@,
            forall|g: int, h: int|
                0 <= g < h < groups@.len() ==> (#[trigger] groups@[g])@[0] < (#[trigger] groups@[h])@[0],
            forall|j: int|
                0 <= j < i && (#[trigger] classes@[roots@[j] as int])@.len() >= 2
                    && classes@[roots@[j] as int]@[0] == j ==> exists|g: int|
                    0 <= g < groups@.len() && (#[trigger] groups@[g])@[0] == j,
        decreases n - i,
    {
        let class = &classes[roots[i]];
        let ghost before = groups@;
        if class.len() >= 2 && class[0] == i {
            groups.push(copy_of(class));
            proof {
                let last = before.len() as int;
                assert(groups@[last]@[0] == i);
                assert forall|j: int|
                    0 <= j < i + 1 && (#[trigger] classes@[roots@[j] as int])@.len() >= 2
                        && classes@[roots@[j] as int]@[0] == j implies exists|g: int|
                    0 <= g < groups@.len() && (#[trigger] groups@[g])@[0] == j by {
                    if j < i {
                        let g = choose|g: int| 0 <= g < before.len() && (#[trigger] before[g])@[0] == j;
                        assert(groups@[g]@[0] == j);
                    }
                }
            }
        }
        i += 1;
    }
    proof {
        assert forall|g: int| 0 <= g < groups@.len() implies (#[trigger] groups@[g])@.len() >= 2
            && is_class(groups@[g]@, roots@, roots@[groups@[g]@[0] as int] as int, n as int) by {
            let r = roots@[groups@[g]@[0] as int] as int;
            assert(is_class(classes@[r]@, roots@, r, n as int));
        }
        assert forall|a: int, b: int|
            0 <= a < n && 0 <= b < n && a != b && roots@[a] == roots@[b] implies exists|g: int|
            0 <= g < groups@.len() && (#[trigger] groups@[g])@.contains(a as usize) by {
            let r = roots@[a] as int;
            let class = classes@[r]@;
            assert(is_class(class, roots@, r, n as int));
            assert(class.contains(a as usize));
            assert(class.contains(b as usize));
            let wa = choose|w: int| 0 <= w < class.len() && class[w] == a as usize;
            let wb = choose|w: int| 0 <= w < class.len() && class[w] == b as usize;
            assert(wa != wb);
            assert(class.len() >= 2);
            let f = class[0] as int;
            assert(roots@[f] == r);
            assert(classes@[roots@[f] as int]@.len() >= 2 && classes@[roots@[f] as int]@[0] == f);
            let g = choose|g: int| 0 <= g < groups@.len() && (#[trigger] groups@[g])@[0] == f;
            assert(groups@[g]@ == class);
        }
    }
    groups
}

/// True if `groups` are the duplicate groups of a list of fingerprints:
/// every group has at least two members, in ascending order; the members of
/// one group are linked with each other and with no member of another
/// group; every image that is linked with another image is in a group; and
/// the groups stand in the order of their smallest members.
pub open spec fn are_duplicate_groups(
    groups: Seq<Vec<usize>>,
    hashes: Seq<Seq<char>>,
    algorithm: HashAlgorithm,
    threshold: int,
) -> bool {
    &&& forall|g: int| 0 <= g < groups.len() ==> (#[trigger] groups[g])@.len() >= 2
    &&& forall|g: int, k: int|
        0 <= g < groups.len() && 0 <= k < groups[g]@.len() ==> (#[trigger] groups[g]@[k]) < hashes.len()
    &&& forall|g: int, k: int, l: int|
        0 <= g < groups.len() && 0 <= k < l < groups[g]@.len() ==> (#[trigger] groups[g]@[k]) < (
        #[trigger] groups[g]@[l])
    &&& forall|g: int, h: int, k: int, l: int|
        0 <= g < groups.len() && 0 <= h < groups.len() && 0 <= k < groups[g]@.len() && 0 <= l
            < groups[h]@.len() ==> (linked(
            hashes,
            algorithm,
            threshold,
            #[trigger] groups[g]@[k] as int,
            #[trigger] groups[h]@[l] as int,
        ) <==> g == h)
    &&& forall|i: int, j: int| #[trigger]
        has_partner(hashes, algorithm, threshold, i, j) ==> exists|g: int|
            0 <= g < groups.len() && (#[trigger] groups[g])@.contains(i as usize)
    &&& forall|g: int, h: int|
        0 <= g < h < groups.len() ==> (#[trigger] groups[g])@[0] < (#[trigger] groups[h])@[0]
}

/// True if image `i` is linked with the other image `j`.
pub open spec fn has_partner(
    hashes: Seq<Seq<char>>,
    algorithm: HashAlgorithm,
    threshold: int,
    i: int,
    j: int,
) -> bool {
    0 <= i < hashes.len() && 0 <= j < hashes.len() && i != j && linked(
        hashes,
        algorithm,
        threshold,
        i,
        j,
    )
}

/// Groups the images whose fingerprints are given: the groups are the
/// connected components, of at least two images, of the graph whose edges
/// are the candidate pairs that meet the threshold.
pub fn group_indices(hashes: &Vec<String>, algorithm: HashAlgorithm, threshold: u32) -> (groups: Vec<
    Vec<usize>,
>)
    ensures
        are_duplicate_groups(groups@, views_of(hashes@), algorithm, threshold as int),
{
    let n = hashes.len();
    let ghost views = views_of(hashes@);
    let ghost t = threshold as int;
    let mut set = link_similar(hashes, algorithm, threshold);
    let ghost linked_set = set;
    let mut roots: Vec<usize> = Vec::new();
    let mut i: usize = 0;
    while i < n
        invariant
            i <= n,
            n == hashes@.len(),
            set.wf(),
            set.len() == n,
            linked_set.wf(),
            linked_set.len() == n,
            forall|a: int| 0 <= a < n ==> set.rep(a) == linked_set.rep(a),
            roots@.len() == i,
            forall|a: int| 0 <= a < i ==> (#[trigger] roots@[a]) == linked_set.rep(a),
        decreases n - i,
    {
        let root = set.find(i);
        roots.push(root);
        i += 1;
    }
    proof {
        assert forall|a: int| 0 <= a < n implies (#[trigger] roots@[a]) < n by {
            linked_set.lemma_rep(a);
        }
    }
    let groups = collect_groups(&roots);
    proof {
        assert forall|a: int, b: int| 0 <= a < n && 0 <= b < n implies (roots@[a] == roots@[b]
            <==> #[trigger] linked(views, algorithm, t, a, b)) by {
            assert(linked_set.same_set(a, b) <==> linked(views, algorithm, t, a, b));
        }
        assert forall|i: int, j: int| #[trigger]
            has_partner(views, algorithm, t, i, j) implies exists|g: int|
            0 <= g < groups@.len() && (#[trigger] groups@[g])@.contains(i as usize) by {
            assert(roots@[i] == roots@[j]);
        }
        assert forall|g: int, h: int, k: int, l: int|
            0 <= g < groups@.len() && 0 <= h < groups@.len() && 0 <= k < groups@[g]@.len() && 0 <= l
                < groups@[h]@.len() implies (linked(
            views,
            algorithm,
            t,
            #[trigger] groups@[g]@[k] as int,
            #[trigger] groups@[h]@[l] as int,
        ) <==> g == h) by {
            let a = groups@[g]@[k] as int;
            let b = groups@[h]@[l] as int;
            let rg = roots@[groups@[g]@[0] as int] as int;
            let rh = roots@[groups@[h]@[0] as int] as int;
            assert(is_class(groups@[g]@, roots@, rg, n as int));
            assert(is_class(groups@[h]@, roots@, rh, n as int));
            assert(roots@[a] == rg && roots@[b] == rh);
            assert(linked(views, algorithm, t, a, b) <==> rg == rh);
            if rg == rh && g != h {
                // Both groups are the whole set, so they begin alike.
                let fg = groups@[g]@[0];
                let fh = groups@[h]@[0];
                assert(groups@[h]@.contains(fg));
                assert(groups@[g]@.contains(fh));
                let wg = choose|w: int| 0 <= w < groups@[h]@.len() && groups@[h]@[w] == fg;
                let wh = choose|w: int| 0 <= w < groups@[g]@.len() && groups@[g]@[w] == fh;
                assert(fh <= fg) by {
                    if wg > 0 {
                        assert(groups@[h]@[0] < groups@[h]@[wg]);
                    }
                }
                assert(fg <= fh) by {
                    if wh > 0 {
                        assert(groups@[g]@[0] < groups@[g]@[wh]);
                    }
                }
                if g < h {
                    assert(groups@[g]@[0] < groups@[h]@[0]);
                } else {
                    assert(groups@[h]@[0] < groups@[g]@[0]);
                }
            }
        }
    }
    groups
}

/// Those of the first `n` members of a group whose file metadata is known.
pub open spec fn kept_members(group: Seq<usize>, metadata: Seq<Option<FileMetadata>>, n: nat) -> Seq<
    usize,
>
    decreases n,
{
    if n == 0 {
        Seq::empty()
    } else if metadata[group[n - 1] as int] is Some {
        kept_members(group, metadata, (n - 1) as nat).push(group[n - 1])
    } else {
        kept_members(group, metadata, (n - 1) as nat)
    }
}

/// What is left of the first `n` groups once the members without metadata
/// are dropped, and after them the groups with fewer than two members.
pub open spec fn surviving(groups: Seq<Vec<usize>>, metadata: Seq<Option<FileMetadata>>, n: nat) -> Seq<
    Seq<usize>,
>
    decreases n,
{
    if n == 0 {
        Seq::empty()
    } else {
        let kept = kept_members(groups[n - 1]@, metadata, groups[n - 1]@.len());
        if kept.len() >= 2 {
            surviving(groups, metadata, (n - 1) as nat).push(kept)
        } else {
            surviving(groups, metadata, (n - 1) as nat)
        }
    }
}

/// What a duplicate group says of image `i`.
pub open spec fn image_of(
    i: int,
    paths: Seq<String>,
    hashes: Seq<HashResult>,
    metadata: Seq<Option<FileMetadata>>,
) -> ImageInfoModel {
    ImageInfoModel {
        path: paths[i]@,
        hash: hashes[i].hash@,
        width: hashes[i].width,
        height: hashes[i].height,
        size_bytes: metadata[i]->0.size_bytes,
        created_at: metadata[i]->0.created_at@,
        modified_at: metadata[i]->0.modified_at@,
    }
}

/// True if `group` describes the images `members`, in that order, under the
/// given threshold.
pub open spec fn describes(
    group: DuplicateGroup,
    members: Seq<usize>,
    paths: Seq<String>,
    hashes: Seq<HashResult>,
    metadata: Seq<Option<FileMetadata>>,
    threshold: u32,
) -> bool {
    &&& group.similarity_threshold == threshold
    &&& group.images@.len() == members.len()
    &&& forall|k: int|
        0 <= k < members.len() ==> (#[trigger] group.images@[k])@ == image_of(
            members[k] as int,
            paths,
            hashes,
            metadata,
        )
}

/// The sizes of a list of groups.
pub open spec fn sizes_of(groups: Seq<Seq<usize>>) -> Seq<u64> {
    Seq::new(groups.len(), |g: int| groups[g].len() as u64)
}

/// True if `result` is the assembly of the index groups `groups`: the
/// surviving groups, described with their metadata, largest first and groups
/// of equal size in their given order.
pub open spec fn is_assembly(
    result: Seq<DuplicateGroup>,
    groups: Seq<Vec<usize>>,
    paths: Seq<String>,
    hashes: Seq<HashResult>,
    metadata: Seq<Option<FileMetadata>>,
    threshold: u32,
) -> bool {
    let kept = surviving(groups, metadata, groups.len());
    exists|order: Seq<usize>| #[trigger]
        is_ordering(order, result, kept, paths, hashes, metadata, threshold)
}

/// True if `order` lists every surviving group once, largest first and
/// groups of equal size in their given order, and `result` describes the
/// groups in that order.
pub open spec fn is_ordering(
    order: Seq<usize>,
    result: Seq<DuplicateGroup>,
    kept: Seq<Seq<usize>>,
    paths: Seq<String>,
    hashes: Seq<HashResult>,
    metadata: Seq<Option<FileMetadata>>,
    threshold: u32,
) -> bool {
    &&& is_top_selection(sizes_of(kept), kept.len(), order)
    &&& forall|s: usize| s < kept.len() ==> #[trigger] order.contains(s)
    &&& result.len() == kept.len()
    &&& forall|p: int|
        0 <= p < result.len() ==> describes(
            #[trigger] result[p],
            kept[order[p] as int],
            paths,
            hashes,
            metadata,
            threshold,
        )
}

/// Drops the members whose metadata is unknown, and then the groups that
/// have fewer than two members left.
fn surviving_members(groups: &Vec<Vec<usize>>, metadata: &Vec<Option<FileMetadata>>) -> (kept: Vec<
    Vec<usize>,
>)
    requires
        forall|g: int, k: int|
            0 <= g < groups@.len() && 0 <= k < groups@[g]@.len() ==> (#[trigger] groups@[g]@[k])
                < metadata@.len(),
    ensures
        kept@.len() == surviving(groups@, metadata@, groups@.len()).len(),
        forall|g: int|
            0 <= g < kept@.len() ==> (#[trigger] kept@[g])@ == surviving(
                groups@,
                metadata@,
                groups@.len(),
            )[g],
        forall|g: int, k: int|
            0 <= g < kept@.len() && 0 <= k < kept@[g]@.len() ==> (#[trigger] kept@[g]@[k])
                < metadata@.len() && metadata@[kept@[g]@[k] as int] is Some,
        forall|g: int| 0 <= g < kept@.len() ==> (#[trigger] kept@[g])@.len() >= 2,
{
    let mut kept: Vec<Vec<usize>> = Vec::new();
    let mut g: usize = 0;
    while g < groups.len()
        invariant
            g <= groups@.len(),
            forall|h: int, k: int|
                0 <= h < groups@.len() && 0 <= k < groups@[h]@.len() ==> (#[trigger] groups@[h]@[k])
                    < metadata@.len(),
            kept@.len() == surviving(groups@, metadata@, g as nat).len(),
            forall|h: int|
                0 <= h < kept@.len() ==> (#[trigger] kept@[h])@ == surviving(
                    groups@,
                    metadata@,
                    g as nat,
                )[h],
            forall|h: int, k: int|
                0 <= h < kept@.len() && 0 <= k < kept@[h]@.len() ==> (#[trigger] kept@[h]@[k])
                    < metadata@.len() && metadata@[kept@[h]@[k] as int] is Some,
            forall|h: int| 0 <= h < kept@.len() ==> (#[trigger] kept@[h])@.len() >= 2,
        decreases groups@.len() - g,
    {
        let group = &groups[g];
        let mut members: Vec<usize> = Vec::new();
        let mut k: usize = 0;
        while k < group.len()
            invariant
                k <= group@.len(),
                forall|l: int| 0 <= l < group@.len() ==> (#[trigger] group@[l]) < metadata@.len(),
                members@ == kept_members(group@, metadata@, k as nat),
                forall|l: int|
                    0 <= l < members@.len() ==> (#[trigger] members@[l]) < metadata@.len()
                        && metadata@[members@[l] as int] is Some,
            decreases group@.len() - k,
        {
            if metadata[group[k]].is_some() {
                members.push(group[k]);
            }
            k += 1;
        }
        if members.len() >= 2 {
            kept.push(members);
        }
        g += 1;
    }
    kept
}

/// Builds the description of the images `members`.
fn describe_group(
    members: &Vec<usize>,
    paths: &Vec<String>,
    hashes: &Vec<HashResult>,
    metadata: &Vec<Option<FileMetadata>>,
    threshold: u32,
) -> (group: DuplicateGroup)
    requires
        paths@.len() == metadata@.len(),
        hashes@.len() == metadata@.len(),
        forall|k: int|
            0 <= k < members@.len() ==> (#[trigger] members@[k]) < metadata@.len()
                && metadata@[members@[k] as int] is Some,
    ensures
        describes(group, members@, paths@, hashes@, metadata@, threshold),
{
    let mut images: Vec<ImageInfo> = Vec::new();
    let mut k: usize = 0;
    while k < members.len()
        invariant
            k <= members@.len(),
            paths@.len() == metadata@.len(),
            hashes@.len() == metadata@.len(),
            forall|l: int|
                0 <= l < members@.len() ==> (#[trigger] members@[l]) < metadata@.len()
                    && metadata@[members@[l] as int] is Some,
            images@.len() == k,
            forall|l: int|
                0 <= l < k ==> (#[trigger] images@[l])@ == image_of(
                    members@[l] as int,
                    paths@,
                    hashes@,
                    metadata@,
                ),
        decreases members@.len() - k,
    {
        let i = members[k];
        match &metadata[i] {
            Some(found) => {
                images.push(
                    ImageInfo {
                        path: paths[i].clone(),
                        hash: hashes[i].hash.clone(),
                        width: hashes[i].width,
                        height: hashes[i].height,
                        size_bytes: found.size_bytes,
                        created_at: found.created_at.clone(),
                        modified_at: found.modified_at.clone(),
                    },
                );
            },
            None => {},
        }
        k += 1;
    }
    DuplicateGroup { images, similarity_threshold: threshold }
}

/// Turns index groups into duplicate groups: members whose metadata is
/// unknown are dropped, groups left with fewer than two members are dropped,
/// and the rest are described and ordered by size, largest first, groups of
/// equal size keeping their order.
pub fn assemble_groups(
    groups: &Vec<Vec<usize>>,
    paths: &Vec<String>,
    hashes: &Vec<HashResult>,
    metadata: &Vec<Option<FileMetadata>>,
    threshold: u32,
) -> (result: Vec<DuplicateGroup>)
    requires
        paths@.len() == metadata@.len(),
        hashes@.len() == metadata@.len(),
        forall|g: int, k: int|
            0 <= g < groups@.len() && 0 <= k < groups@[g]@.len() ==> (#[trigger] groups@[g]@[k])
                < metadata@.len(),
    ensures
        is_assembly(result@, groups@, paths@, hashes@, metadata@, threshold),
        forall|p: int| 0 <= p < result@.len() ==> (#[trigger] result@[p]).images@.len() >= 2,
        forall|p: int, q: int|
            0 <= p < q < result@.len() ==> (#[trigger] result@[p]).images@.len() >= (
            #[trigger] result@[q]).images@.len(),
{
    let kept = surviving_members(groups, metadata);
    let ghost survivors = surviving(groups@, metadata@, groups@.len());
    let mut sizes: Vec<u64> = Vec::new();
    let mut g: usize = 0;
    while g < kept.len()
        invariant
            g <= kept@.len(),
            kept@.len() == survivors.len(),
            forall|h: int| 0 <= h < kept@.len() ==> (#[trigger] kept@[h])@ == survivors[h],
            sizes@.len() == g,
            forall|h: int|
                0 <= h < g ==> sizes@[h] == sizes_of(survivors)[h] && (#[trigger] sizes@[h])
                    == survivors[h].len(),
        decreases kept@.len() - g,
    {
        sizes.push(kept[g].len() as u64);
        g += 1;
    }
    assert(sizes@ =~= sizes_of(survivors));
    assert(forall|h: int| 0 <= h < sizes@.len() ==> (#[trigger] sizes@[h]) == survivors[h].len());
    let order = top_by_key(&sizes, kept.len());
    let mut result: Vec<DuplicateGroup> = Vec::new();
    let mut p: usize = 0;
    while p < order.len()
        invariant
            p <= order@.len(),
            order@.len() == kept@.len(),
            is_top_selection(sizes@, kept@.len() as nat, order@),
            forall|s: usize| s < kept@.len() ==> #[trigger] order@.contains(s),
            sizes@ == sizes_of(survivors),
            forall|h: int| 0 <= h < sizes@.len() ==> (#[trigger] sizes@[h]) == survivors[h].len(),
            kept@.len() == survivors.len(),
            paths@.len() == metadata@.len(),
            hashes@.len() == metadata@.len(),
            forall|h: int| 0 <= h < kept@.len() ==> (#[trigger] kept@[h])@ == survivors[h],
            forall|h: int, k: int|
                0 <= h < kept@.len() && 0 <= k < kept@[h]@.len() ==> (#[trigger] kept@[h]@[k])
                    < metadata@.len() && metadata@[kept@[h]@[k] as int] is Some,
            forall|h: int| 0 <= h < kept@.len() ==> (#[trigger] kept@[h])@.len() >= 2,
            result@.len() == p,
            forall|q: int|
                0 <= q < p ==> describes(
                    #[trigger] result@[q],
                    survivors[order@[q] as int],
                    paths@,
                    hashes@,
                    metadata@,
                    threshold,
                ),
        decreases order@.len() - p,
    {
        let members = &kept[order[p]];
        result.push(describe_group(members, paths, hashes, metadata, threshold));
        p += 1;
    }
    proof {
        assert forall|p: int| 0 <= p < result@.len() implies (#[trigger] result@[p]).images@.len()
            >= 2 by {
            assert(kept@[order@[p] as int]@.len() >= 2);
        }
        assert forall|p: int, q: int| 0 <= p < q < result@.len() implies (
        #[trigger] result@[p]).images@.len() >= (#[trigger] result@[q]).images@.len() by {
            assert(ranks_before(sizes@, order@[p] as int, order@[q] as int));
            let a = order@[p] as int;
            let b = order@[q] as int;
            assert(describes(result@[p], survivors[a], paths@, hashes@, metadata@, threshold));
            assert(describes(result@[q], survivors[b], paths@, hashes@, metadata@, threshold));
            assert(sizes@[a] == survivors[a].len() && sizes@[b] == survivors[b].len());
        }
        assert(is_ordering(order@, result@, survivors, paths@, hashes@, metadata@, threshold));
    }
    result
}

/// Finds the duplicate groups among images whose fingerprints and file
/// metadata are given. Entry `i` of each list belongs to image `i`; an empty
/// fingerprint stands for an image that could not be fingerprinted and is in
/// no group.
///
/// Lists of different lengths are an internal error, also where one of
/// them is empty. Otherwise the images are grouped by `group_indices` and the
/// groups assembled by `assemble_groups`. If no path is given twice, no path
/// occurs twice in the groups.
pub fn find_duplicate_groups(
    paths: &Vec<String>,
    hashes: &Vec<HashResult>,
    metadata: &Vec<Option<FileMetadata>>,
    algorithm: HashAlgorithm,
    threshold: u32,
) -> (result: Result<Vec<DuplicateGroup>, DetectionError>)
    ensures
        result is Err <==> paths@.len() != hashes@.len() || metadata@.len() != hashes@.len(),
        result is Err ==> result->Err_0 == DetectionError::InternalError,
        result is Ok ==> {
            &&& forall|p: int|
                0 <= p < result->Ok_0@.len() ==> (#[trigger] result->Ok_0@[p]).images@.len() >= 2
            &&& forall|p: int, q: int|
                0 <= p < q < result->Ok_0@.len() ==> (#[trigger] result->Ok_0@[p]).images@.len() >= (
                #[trigger] result->Ok_0@[q]).images@.len()
        },
        result is Ok ==> exists|groups: Seq<Vec<usize>>|
            #[trigger] are_duplicate_groups(
                groups,
                fingerprints_of(hashes@),
                algorithm,
                threshold as int,
            ) && is_assembly(result->Ok_0@, groups, paths@, hashes@, metadata@, threshold),
        result is Ok && hashes@.len() == 0 ==> result->Ok_0@.len() == 0,
        result is Ok && paths_distinct(paths@) ==> images_distinct(result->Ok_0@),
{
    if paths.len() != hashes.len() || metadata.len() != hashes.len() {
        return Err(DetectionError::InternalError);
    }
    let mut texts: Vec<String> = Vec::new();
    let mut i: usize = 0;
    while i < hashes.len()
        invariant
            i <= hashes@.len(),
            texts@.len() == i,
            forall|j: int| 0 <= j < i ==> (#[trigger] texts@[j])@ == hashes@[j].hash@,
        decreases hashes@.len() - i,
    {
        texts.push(hashes[i].hash.clone());
        i += 1;
    }
    assert(views_of(texts@) =~= fingerprints_of(hashes@));
    let groups = group_indices(&texts, algorithm, threshold);
    let result = assemble_groups(&groups, paths, hashes, metadata, threshold);
    proof {
        if hashes@.len() == 0 {
            // A group needs two members, and there is none.
            if groups@.len() > 0 {
                assert(groups@[0]@.len() >= 2);
                assert(groups@[0]@[0] < hashes@.len());
            }
            assert(surviving(groups@, metadata@, 0).len() == 0);
        }
        if paths_distinct(paths@) {
            lemma_result_paths_distinct(
                result@,
                groups@,
                fingerprints_of(hashes@),
                algorithm,
                threshold,
                paths@,
                hashes@,
                metadata@,
            );
        }
    }
    Ok(result)
}

/// True if no two paths of the list are equal.
pub open spec fn paths_distinct(paths: Seq<String>) -> bool {
    forall|i: int, j: int| 0 <= i < j < paths.len() ==> (#[trigger] paths[i])@ != (#[trigger] paths[j])@
}

/// True if no path occurs twice in the groups: neither in two groups nor
/// twice in one.
pub open spec fn images_distinct(result: Seq<DuplicateGroup>) -> bool {
    forall|p: int, q: int, k: int, l: int|
        0 <= p < result.len() && 0 <= q < result.len() && 0 <= k < result[p].images@.len() && 0 <= l
            < result[q].images@.len() && (p != q || k != l) ==> (
        #[trigger] result[p].images@[k])@.path != (#[trigger] result[q].images@[l])@.path
}

/// The fingerprint texts of a list of hash results.
pub open spec fn fingerprints_of(hashes: Seq<HashResult>) -> Seq<Seq<char>> {
    Seq::new(hashes.len(), |i: int| hashes[i].hash@)
}

/// What a detection run is asked to do.
#[derive(Debug, Clone)]
pub struct DuplicateDetectionParams {
    /// The folders to search.
    pub folders: Vec<String>,
    /// The algorithm to use.
    pub algorithm: HashAlgorithm,
    /// The similarity threshold in percent.
    pub threshold: u32,
    /// Whether to search subfolders too.
    pub recursive: bool,
}

/// True if `hashes` is `fingerprints` with an empty fingerprint of size zero
/// in the place of every failure.
pub open spec fn with_sentinels(fingerprints: Seq<Option<HashResult>>, hashes: Seq<HashResult>) -> bool {
    &&& hashes.len() == fingerprints.len()
    &&& forall|i: int|
        0 <= i < hashes.len() ==> match fingerprints[i] {
            Some(found) => (#[trigger] hashes[i]).hash@ == found.hash@ && hashes[i].width
                == found.width && hashes[i].height == found.height,
            None => hashes[i].hash@.len() == 0 && hashes[i].width == 0 && hashes[i].height == 0,
        }
}

/// Lines the fingerprints up with the images: image `i` gets its
/// fingerprint, or an empty one if fingerprinting it failed. If it failed
/// for every image, that is an error.
pub fn compute_image_hashes(fingerprints: &Vec<Option<HashResult>>) -> (result: Result<
    Vec<HashResult>,
    DetectionError,
>)
    ensures
        result is Err <==> fingerprints@.len() > 0 && forall|i: int|
            0 <= i < fingerprints@.len() ==> fingerprints@[i] is None,
        result is Err ==> result->Err_0 == DetectionError::IoError,
        result is Ok ==> with_sentinels(fingerprints@, result->Ok_0@),
{
    let mut hashes: Vec<HashResult> = Vec::new();
    let mut any = false;
    let mut i: usize = 0;
    while i < fingerprints.len()
        invariant
            i <= fingerprints@.len(),
            with_sentinels(fingerprints@.subrange(0, i as int), hashes@),
            any <==> exists|j: int| 0 <= j < i && fingerprints@[j] is Some,
        decreases fingerprints@.len() - i,
    {
        let ghost before = hashes@;
        match &fingerprints[i] {
            Some(found) => {
                any = true;
                hashes.push(
                    HashResult { hash: found.hash.clone(), width: found.width, height: found.height },
                );
            },
            None => {
                hashes.push(HashResult { hash: String::new(), width: 0, height: 0 });
            },
        }
        proof {
            let part = fingerprints@.subrange(0, i as int + 1);
            assert forall|j: int| 0 <= j < hashes@.len() implies match part[j] {
                Some(found) => (#[trigger] hashes@[j]).hash@ == found.hash@ && hashes@[j].width
                    == found.width && hashes@[j].height == found.height,
                None => hashes@[j].hash@.len() == 0 && hashes@[j].width == 0 && hashes@[j].height
                    == 0,
            } by {
                if j < i {
                    assert(hashes@[j] == before[j]);
                    assert(part[j] == fingerprints@.subrange(0, i as int)[j]);
                }
            }
        }
        i += 1;
    }
    assert(fingerprints@.subrange(0, fingerprints@.len() as int) =~= fingerprints@);
    if fingerprints.len() > 0 && !any {
        Err(DetectionError::IoError)
    } else {
        Ok(hashes)
    }
}

/// True if fingerprinting failed for every image of a list that is not
/// empty.
pub open spec fn all_failed(fingerprints: Seq<Option<HashResult>>) -> bool {
    fingerprints.len() > 0 && forall|i: int|
        0 <= i < fingerprints.len() ==> fingerprints[i] is None
}

/// Finds the duplicate groups among the images `paths`, given what
/// fingerprinting each image yielded and what is known of each file.
///
/// Lists of different lengths are an internal error. If fingerprinting
/// failed for every image, that is an error too. Otherwise the result is
/// that of `find_duplicate_groups` on the fingerprints, with an empty
/// fingerprint for every failure; no image gives no group.
pub fn detect_duplicates(
    paths: &Vec<String>,
    fingerprints: &Vec<Option<HashResult>>,
    metadata: &Vec<Option<FileMetadata>>,
    params: &DuplicateDetectionParams,
) -> (result: Result<Vec<DuplicateGroup>, DetectionError>)
    ensures
        result is Err <==> paths@.len() != fingerprints@.len() || metadata@.len()
            != fingerprints@.len() || all_failed(fingerprints@),
        result is Err ==> result->Err_0 == if paths@.len() != fingerprints@.len() || metadata@.len()
            != fingerprints@.len() {
            DetectionError::InternalError
        } else {
            DetectionError::IoError
        },
        result is Ok ==> {
            &&& forall|p: int|
                0 <= p < result->Ok_0@.len() ==> (#[trigger] result->Ok_0@[p]).images@.len() >= 2
            &&& forall|p: int, q: int|
                0 <= p < q < result->Ok_0@.len() ==> (#[trigger] result->Ok_0@[p]).images@.len() >= (
                #[trigger] result->Ok_0@[q]).images@.len()
        },
        result is Ok ==> exists|hashes: Seq<HashResult>, groups: Seq<Vec<usize>>|
            #![trigger is_assembly(result->Ok_0@, groups, paths@, hashes, metadata@, params.threshold)]
            with_sentinels(fingerprints@, hashes) && are_duplicate_groups(
                groups,
                fingerprints_of(hashes),
                params.algorithm,
                params.threshold as int,
            ) && is_assembly(result->Ok_0@, groups, paths@, hashes, metadata@, params.threshold),
        result is Ok && paths@.len() == 0 ==> result->Ok_0@.len() == 0,
        result is Ok && paths_distinct(paths@) ==> images_distinct(result->Ok_0@),
{
    if paths.len() != fingerprints.len() || metadata.len() != fingerprints.len() {
        return Err(DetectionError::InternalError);
    }
    let hashes = match compute_image_hashes(fingerprints) {
        Ok(hashes) => hashes,
        Err(e) => {
            return Err(e);
        },
    };
    find_duplicate_groups(paths, &hashes, metadata, params.algorithm, params.threshold)
}

/// True if the sizes of two files allow the files to hold duplicate images:
/// under the exact algorithm the sizes must be equal, under any other the
/// larger must be at most twice the smaller. An empty file rules nothing
/// out.
pub open spec fn spec_sizes_allow(algorithm: HashAlgorithm, size1: u64, size2: u64) -> bool {
    if size1 == 0 || size2 == 0 {
        true
    } else if algorithm == HashAlgorithm::Exact {
        size1 == size2
    } else {
        size1 <= 2 * size2 && size2 <= 2 * size1
    }
}

/// Tells whether the sizes of two files allow the files to hold duplicate
/// images, so that fingerprinting them is worth the while.
pub fn sizes_allow_duplicates(algorithm: HashAlgorithm, size1: u64, size2: u64) -> (allowed: bool)
    ensures
        allowed == spec_sizes_allow(algorithm, size1, size2),
{
    if size1 == 0 || size2 == 0 {
        return true;
    }
    match algorithm {
        HashAlgorithm::Exact => size1 == size2,
        _ => (size1 as u128) <= 2 * (size2 as u128) && (size2 as u128) <= 2 * (size1 as u128),
    }
}

/// Tells whether two fingerprints of the same algorithm are similar enough
/// to count as duplicates.
pub fn are_images_duplicates(
    hash1: &str,
    hash2: &str,
    algorithm: HashAlgorithm,
    threshold: u32,
) -> (duplicates: bool)
    ensures
        duplicates == spec_similarity(hash1@, hash2@, algorithm).spec_meets(threshold as int),
{
    calculate_similarity(hash1, hash2, algorithm).meets(threshold)
}

} // verus!
