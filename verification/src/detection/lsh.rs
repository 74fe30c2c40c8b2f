//! A banded index over fingerprints: images that share a band of their
//! fingerprints land in a common bucket and become candidates for comparison.

use std::collections::HashMap;
use std::collections::HashSet;
use vstd::prelude::*;
use vstd::std_specs::hash::*;
use crate::types::HashAlgorithm;
use crate::utils::hash_utils::{lsh_bands, split_hash_for_lsh};
use crate::utils::text::{chars_of, string_of};

verus! {

broadcast use vstd::std_specs::hash::group_hash_axioms;

/// The most entries that one bucket holds; further entries are dropped from
/// that bucket.
pub const MAX_BUCKET_SIZE: usize = 2000;

/// The longest prefix of a keypoint fingerprint that is banded.
pub const SIGNATURE_LENGTH: usize = 256;

/// The number of fingerprints that share one index when candidate pairs are
/// computed.
pub const BATCH_SIZE: usize = 10000;

/// The start value of the band hash.
pub const KEY_SEED: u64 = 0xcbf2_9ce4_8422_2325;

/// The multiplier of the band hash.
pub const KEY_PRIME: u64 = 0x0000_0100_0000_01b3;

/// The number of bands into which a fingerprint of the algorithm is cut.
pub open spec fn band_count(algorithm: HashAlgorithm) -> nat {
    match algorithm {
        HashAlgorithm::Exact => 1,
        HashAlgorithm::Average => 4,
        HashAlgorithm::Difference => 4,
        HashAlgorithm::Perceptual => 6,
        HashAlgorithm::ORB => 6,
    }
}

/// One step of the band hash: fold a character into the running value.
pub open spec fn key_step(h: u64, c: char) -> u64 {
    (((h ^ (c as u64)) * KEY_PRIME) % 0x1_0000_0000_0000_0000) as u64
}

/// The 64-bit bucket key of a band: the band's characters folded, first to
/// last, into the seed.
pub open spec fn band_key(band: Seq<char>) -> u64
    decreases band.len(),
{
    if band.len() == 0 {
        KEY_SEED
    } else {
        key_step(band_key(band.drop_last()), band.last())
    }
}

/// The bands under which a fingerprint is filed. An empty fingerprint has
/// none. A keypoint fingerprint is cut down to its first 256 characters
/// first, and stands as a single band if that prefix is shorter than the
/// number of bands.
pub open spec fn signature_bands(hash: Seq<char>, algorithm: HashAlgorithm) -> Seq<Seq<char>> {
    if hash.len() == 0 {
        Seq::empty()
    } else if algorithm == HashAlgorithm::ORB {
        let signature = if hash.len() > 256 {
            hash.subrange(0, 256)
        } else {
            hash
        };
        if signature.len() / band_count(algorithm) > 0 {
            lsh_bands(signature, band_count(algorithm) as int)
        } else {
            seq![signature]
        }
    } else {
        lsh_bands(hash, band_count(algorithm) as int)
    }
}

/// The bucket keys of a fingerprint, one per band.
pub open spec fn signature_keys(hash: Seq<char>, algorithm: HashAlgorithm) -> Seq<u64> {
    Seq::new(
        signature_bands(hash, algorithm).len(),
        |i: int| band_key(signature_bands(hash, algorithm)[i]),
    )
}

/// The entries filed under `key`, oldest first.
pub open spec fn bucket_of(buckets: Map<u64, Seq<usize>>, key: u64) -> Seq<usize> {
    if buckets.dom().contains(key) {
        buckets[key]
    } else {
        Seq::empty()
    }
}

/// Files `index` under `key`, unless that bucket is full.
pub open spec fn insert_capped(buckets: Map<u64, Seq<usize>>, key: u64, index: usize) -> Map<
    u64,
    Seq<usize>,
> {
    if bucket_of(buckets, key).len() < MAX_BUCKET_SIZE {
        buckets.insert(key, bucket_of(buckets, key).push(index))
    } else {
        buckets.insert(key, bucket_of(buckets, key))
    }
}

/// Files `index` under each of `keys` in turn.
pub open spec fn insert_all(buckets: Map<u64, Seq<usize>>, keys: Seq<u64>, index: usize) -> Map<
    u64,
    Seq<usize>,
>
    decreases keys.len(),
{
    if keys.len() == 0 {
        buckets
    } else {
        insert_capped(insert_all(buckets, keys.drop_last(), index), keys.last(), index)
    }
}

/// Files `index` under every band of `hash`.
pub open spec fn add_hash(
    buckets: Map<u64, Seq<usize>>,
    hash: Seq<char>,
    index: usize,
    algorithm: HashAlgorithm,
) -> Map<u64, Seq<usize>> {
    insert_all(buckets, signature_keys(hash, algorithm), index)
}

/// Files the fingerprints `hashes` in order, the first under `start_index`,
/// the next under `start_index + 1`, and so on.
pub open spec fn add_batch(
    buckets: Map<u64, Seq<usize>>,
    hashes: Seq<Seq<char>>,
    start_index: int,
    algorithm: HashAlgorithm,
) -> Map<u64, Seq<usize>>
    decreases hashes.len(),
{
    if hashes.len() == 0 {
        buckets
    } else {
        add_hash(
            add_batch(buckets, hashes.drop_last(), start_index, algorithm),
            hashes.last(),
            (start_index + hashes.len() - 1) as usize,
            algorithm,
        )
    }
}

/// The entries found in the buckets of `keys`.
pub open spec fn candidates(buckets: Map<u64, Seq<usize>>, keys: Seq<u64>) -> Set<usize> {
    Set::new(
        |i: usize| exists|b: int| 0 <= b < keys.len() && #[trigger] bucket_of(buckets, keys[b]).contains(i),
    )
}

/// Every entry that some bucket holds.
pub open spec fn indexed(buckets: Map<u64, Seq<usize>>) -> Set<usize> {
    Set::new(|i: usize| exists|key: u64| buckets.dom().contains(key) && #[trigger] buckets[key].contains(i))
}

/// True if `i` is among the first `m` entries of `s`.
pub open spec fn occurs_before(s: Seq<usize>, m: int, i: usize) -> bool {
    exists|w: int| 0 <= w < m && s[w] == i
}

/// The characters of each fingerprint of a list.
pub open spec fn views_of(hashes: Seq<String>) -> Seq<Seq<char>> {
    Seq::new(hashes.len(), |i: int| hashes[i]@)
}

/// Returns how many bands a fingerprint of the algorithm is cut into.
pub fn bands_for(algorithm: HashAlgorithm) -> (bands: usize)
    ensures
        bands == band_count(algorithm),
{
    match algorithm {
        HashAlgorithm::Exact => 1,
        HashAlgorithm::ORB => 6,
        HashAlgorithm::Average => 4,
        HashAlgorithm::Difference => 4,
        HashAlgorithm::Perceptual => 6,
    }
}

/// Computes the bucket key of a band.
pub fn compute_band_key(band: &str) -> (key: u64)
    ensures
        key == band_key(band@),
{
    let mut h: u64 = KEY_SEED;
    for c in it: band.chars()
        invariant
            it.seq() == band@,
            h == band_key(band@.subrange(0, it.index() as int)),
    {
        assert(band@.subrange(0, it.index() + 1).drop_last() =~= band@.subrange(0, it.index() as int));
        h = (h ^ (c as u64)).wrapping_mul(KEY_PRIME);
    }
    assert(band@.subrange(0, band@.len() as int) =~= band@);
    h
}

/// Computes the bands under which a fingerprint is filed.
pub fn compute_signature_bands(hash: &str, algorithm: HashAlgorithm) -> (pieces: Vec<String>)
    ensures
        pieces@.len() == signature_bands(hash@, algorithm).len(),
        forall|i: int|
            0 <= i < pieces@.len() ==> (#[trigger] pieces@[i])@ == signature_bands(hash@, algorithm)[i],
{
    let bands = bands_for(algorithm);
    let chars = chars_of(hash);
    if chars.len() == 0 {
        return Vec::new();
    }
    match algorithm {
        HashAlgorithm::ORB => {
            let signature_len = if chars.len() > SIGNATURE_LENGTH {
                SIGNATURE_LENGTH
            } else {
                chars.len()
            };
            let signature = string_of(&chars, 0, signature_len);
            assert(chars@.subrange(0, chars@.len() as int) =~= chars@);
            if signature_len / bands > 0 {
                split_hash_for_lsh(signature.as_str(), bands)
            } else {
                let mut whole: Vec<String> = Vec::new();
                whole.push(signature);
                whole
            }
        },
        _ => split_hash_for_lsh(hash, bands),
    }
}

/// Computes the bucket keys of a fingerprint.
pub fn compute_signature_keys(hash: &str, algorithm: HashAlgorithm) -> (keys: Vec<u64>)
    ensures
        keys@ == signature_keys(hash@, algorithm),
{
    let pieces = compute_signature_bands(hash, algorithm);
    let mut keys: Vec<u64> = Vec::new();
    let mut i: usize = 0;
    while i < pieces.len()
        invariant
            i <= pieces@.len(),
            pieces@.len() == signature_bands(hash@, algorithm).len(),
            forall|j: int|
                0 <= j < pieces@.len() ==> (#[trigger] pieces@[j])@ == signature_bands(
                    hash@,
                    algorithm,
                )[j],
            keys@.len() == i,
            forall|j: int| 0 <= j < i ==> keys@[j] == signature_keys(hash@, algorithm)[j],
        decreases pieces@.len() - i,
    {
        keys.push(compute_band_key(pieces[i].as_str()));
        i += 1;
    }
    assert(keys@ =~= signature_keys(hash@, algorithm));
    keys
}

/// A banded index from bucket keys to the entries filed under them.
#[derive(Debug)]
pub struct LSHIndex {
    buckets: HashMap<u64, Vec<usize>>,
    algorithm: HashAlgorithm,
}

impl LSHIndex {
    /// The buckets of the index: for each key in use, its entries, oldest
    /// first.
    pub closed spec fn buckets(&self) -> Map<u64, Seq<usize>> {
        Map::new(|key: u64| self.buckets@.dom().contains(key), |key: u64| self.buckets@[key]@)
    }

    /// The algorithm whose fingerprints the index holds.
    pub closed spec fn algorithm(&self) -> HashAlgorithm {
        self.algorithm
    }

    /// Creates an empty index for fingerprints of `algorithm`.
    pub fn new(algorithm: HashAlgorithm) -> (index: LSHIndex)
        ensures
            index.buckets() == Map::<u64, Seq<usize>>::empty(),
            index.algorithm() == algorithm,
    {
        let index = LSHIndex { buckets: HashMap::with_capacity(2000), algorithm };
        assert(index.buckets() =~= Map::<u64, Seq<usize>>::empty());
        index
    }

    /// Files `index` under `key`, unless that bucket is full.
    fn insert_key(&mut self, key: u64, index: usize)
        ensures
            final(self).buckets() == insert_capped(old(self).buckets(), key, index),
            final(self).algorithm() == old(self).algorithm(),
    {
        let mut bucket = match self.buckets.remove(&key) {
            Some(bucket) => bucket,
            None => Vec::new(),
        };
        assert(bucket@ == bucket_of(old(self).buckets(), key));
        if bucket.len() < MAX_BUCKET_SIZE {
            bucket.push(index);
        }
        self.buckets.insert(key, bucket);
        assert(self.buckets() =~= insert_capped(old(self).buckets(), key, index));
    }

    /// Files `index` under every band of `hash`. An empty fingerprint is not
    /// filed.
    pub fn add(&mut self, hash: &str, index: usize)
        ensures
            final(self).buckets() == add_hash(
                old(self).buckets(),
                hash@,
                index,
                old(self).algorithm(),
            ),
            final(self).algorithm() == old(self).algorithm(),
    {
        let keys = compute_signature_keys(hash, self.algorithm);
        let mut k: usize = 0;
        while k < keys.len()
            invariant
                k <= keys@.len(),
                self.algorithm() == old(self).algorithm(),
                self.buckets() == insert_all(old(self).buckets(), keys@.subrange(0, k as int), index),
            decreases keys@.len() - k,
        {
            assert(keys@.subrange(0, k as int + 1).drop_last() =~= keys@.subrange(0, k as int));
            self.insert_key(keys[k], index);
            k += 1;
        }
        assert(keys@.subrange(0, keys@.len() as int) =~= keys@);
    }

    /// Returns the entries that share a bucket with `hash`, each once.
    pub fn query(&self, hash: &str) -> (found: Vec<usize>)
        ensures
            found@.no_duplicates(),
            found@.to_set() == candidates(self.buckets(), signature_keys(hash@, self.algorithm())),
    {
        let keys = compute_signature_keys(hash, self.algorithm);
        let mut found: Vec<usize> = Vec::new();
        let mut seen: HashSet<usize> = HashSet::new();
        let mut k: usize = 0;
        while k < keys.len()
            invariant
                k <= keys@.len(),
                found@.no_duplicates(),
                seen@ == found@.to_set(),
                found@.to_set() == candidates(self.buckets(), keys@.subrange(0, k as int)),
            decreases keys@.len() - k,
        {
            let ghost done = keys@.subrange(0, k as int);
            let ghost next = keys@.subrange(0, k as int + 1);
            match self.buckets.get(&keys[k]) {
                Some(bucket) => {
                    assert(bucket@ == bucket_of(self.buckets(), keys@[k as int]));
                    let mut m: usize = 0;
                    while m < bucket.len()
                        invariant
                            m <= bucket@.len(),
                            k < keys@.len(),
                            done == keys@.subrange(0, k as int),
                            bucket@ == bucket_of(self.buckets(), keys@[k as int]),
                            found@.no_duplicates(),
                            seen@ == found@.to_set(),
                            forall|i: usize|
                                found@.contains(i) <==> (candidates(self.buckets(), done).contains(i)
                                    || occurs_before(bucket@, m as int, i)),
                        decreases bucket@.len() - m,
                    {
                        let member = bucket[m];
                        let ghost before = found@;
                        if seen.insert(member) {
                            found.push(member);
                            assert forall|i: usize| found@.to_set().contains(i) <==> before.to_set().insert(
                                member,
                            ).contains(i) by {
                                if before.contains(i) {
                                    let w = choose|w: int| 0 <= w < before.len() && before[w] == i;
                                    assert(found@[w] == i);
                                }
                                if i == member {
                                    assert(found@[before.len() as int] == i);
                                }
                            }
                            assert(found@.to_set() =~= before.to_set().insert(member));
                        }
                        assert forall|i: usize|
                            found@.contains(i) <==> (candidates(self.buckets(), done).contains(i)
                                || occurs_before(bucket@, m as int + 1, i)) by {
                            assert(found@.to_set().contains(i) <==> before.to_set().contains(i) || i
                                == member);
                            if occurs_before(bucket@, m as int, i) {
                                let w = choose|w: int| 0 <= w < m && bucket@[w] == i;
                                assert(0 <= w < m + 1 && bucket@[w] == i);
                            }
                            if i == member {
                                assert(0 <= m < m + 1 && bucket@[m as int] == i);
                            }
                        }
                        m += 1;
                    }
                    assert forall|i: usize| occurs_before(bucket@, bucket@.len() as int, i)
                        <==> bucket@.contains(i) by {}
                },
                None => {
                    assert(bucket_of(self.buckets(), keys@[k as int]) =~= Seq::<usize>::empty());
                },
            }
            assert(found@.to_set() =~= candidates(self.buckets(), next)) by {
                assert forall|i: usize| found@.to_set().contains(i) <==> candidates(
                    self.buckets(),
                    next,
                ).contains(i) by {
                    let last = bucket_of(self.buckets(), keys@[k as int]);
                    assert(found@.contains(i) <==> candidates(self.buckets(), done).contains(i)
                        || last.contains(i));
                    if candidates(self.buckets(), done).contains(i) {
                        let b = choose|b: int|
                            0 <= b < done.len() && #[trigger] bucket_of(self.buckets(), done[b]).contains(i);
                        assert(bucket_of(self.buckets(), next[b]).contains(i));
                    }
                    if last.contains(i) {
                        assert(bucket_of(self.buckets(), next[k as int]).contains(i));
                    }
                    if candidates(self.buckets(), next).contains(i) {
                        let b = choose|b: int|
                            0 <= b < next.len() && #[trigger] bucket_of(self.buckets(), next[b]).contains(i);
                        if b < k {
                            assert(bucket_of(self.buckets(), done[b]).contains(i));
                        }
                    }
                }
            }
            k += 1;
        }
        assert(keys@.subrange(0, keys@.len() as int) =~= keys@);
        found
    }

    /// Files the fingerprints of `hashes` in order, the first under
    /// `start_index`, the next under `start_index + 1`, and so on.
    pub fn batch_add(&mut self, hashes: &Vec<String>, start_index: usize)
        requires
            start_index + hashes@.len() <= usize::MAX,
        ensures
            final(self).buckets() == add_batch(
                old(self).buckets(),
                views_of(hashes@),
                start_index as int,
                old(self).algorithm(),
            ),
            final(self).algorithm() == old(self).algorithm(),
    {
        let mut i: usize = 0;
        while i < hashes.len()
            invariant
                i <= hashes@.len(),
                start_index + hashes@.len() <= usize::MAX,
                self.algorithm() == old(self).algorithm(),
                self.buckets() == add_batch(
                    old(self).buckets(),
                    views_of(hashes@).subrange(0, i as int),
                    start_index as int,
                    old(self).algorithm(),
                ),
            decreases hashes@.len() - i,
        {
            assert(views_of(hashes@).subrange(0, i as int + 1).drop_last() =~= views_of(
                hashes@,
            ).subrange(0, i as int));
            self.add(hashes[i].as_str(), start_index + i);
            i += 1;
        }
        assert(views_of(hashes@).subrange(0, hashes@.len() as int) =~= views_of(hashes@));
    }

    /// Returns the number of different entries that the index holds.
    pub fn len(&self) -> (count: usize)
        ensures
            count == indexed(self.buckets()).len(),
    {
        let mut all: HashSet<usize> = HashSet::new();
        let ghost mut seen: Set<u64> = Set::empty();
        let ghost total = self.buckets@.dom().len();
        for key in it: self.buckets.keys()
            invariant
                it.seq().unref().to_set() == self.buckets@.dom(),
                it.seq().no_duplicates(),
                it.seq().len() == total,
                total == self.buckets@.dom().len(),
                seen.finite(),
                seen.len() == it.index(),
                seen.subset_of(self.buckets@.dom()),
                forall|k: int| 0 <= k < it.index() ==> seen.contains(*#[trigger] it.seq()[k]),
                forall|u: u64|
                    seen.contains(u) ==> exists|k: int| 0 <= k < it.index() && *#[trigger] it.seq()[k] == u,
                forall|i: usize|
                    all@.contains(i) <==> exists|u: u64|
                        seen.contains(u) && #[trigger] self.buckets@[u]@.contains(i),
        {
            let ghost done = all@;
            let ghost seen_before = seen;
            proof {
                assert(it.seq().unref()[it.index() as int] == *key);
                assert(it.seq().unref().to_set().contains(*key));
                if seen.contains(*key) {
                    let k = choose|k: int| 0 <= k < it.index() && *#[trigger] it.seq()[k] == *key;
                    assert(it.seq()[k] == it.seq()[it.index() as int]);
                }
                seen = seen.insert(*key);
            }
            match self.buckets.get(key) {
                Some(bucket) => {
                    let mut m: usize = 0;
                    while m < bucket.len()
                        invariant
                            m <= bucket@.len(),
                            forall|i: usize|
                                #[trigger] all@.contains(i) <==> done.contains(i) || occurs_before(
                                    bucket@,
                                    m as int,
                                    i,
                                ),
                        decreases bucket@.len() - m,
                    {
                        let ghost before = all@;
                        all.insert(bucket[m]);
                        assert(all@ == before.insert(bucket@[m as int]));
                        assert forall|i: usize|
                            #[trigger] all@.contains(i) <==> done.contains(i) || occurs_before(
                                bucket@,
                                m as int + 1,
                                i,
                            ) by {
                            assert(before.contains(i) <==> done.contains(i) || occurs_before(
                                bucket@,
                                m as int,
                                i,
                            ));
                            if occurs_before(bucket@, m as int + 1, i) && !occurs_before(
                                bucket@,
                                m as int,
                                i,
                            ) {
                                let w = choose|w: int| 0 <= w < m + 1 && bucket@[w] == i;
                                assert(w == m);
                            }
                            if occurs_before(bucket@, m as int, i) {
                                let w = choose|w: int| 0 <= w < m && bucket@[w] == i;
                                assert(0 <= w < m + 1 && bucket@[w] == i);
                            }
                            if i == bucket@[m as int] {
                                assert(0 <= m < m + 1 && bucket@[m as int] == i);
                            }
                        }
                        m += 1;
                    }
                    assert forall|i: usize|
                        all@.contains(i) <==> exists|u: u64|
                            seen.contains(u) && #[trigger] self.buckets@[u]@.contains(i) by {
                        assert(occurs_before(bucket@, bucket@.len() as int, i) <==> bucket@.contains(
                            i,
                        ));
                        if done.contains(i) {
                            let u = choose|u: u64|
                                seen_before.contains(u) && #[trigger] self.buckets@[u]@.contains(i);
                            assert(seen.contains(u));
                        }
                        if bucket@.contains(i) {
                            assert(seen.contains(*key) && self.buckets@[*key]@.contains(i));
                        }
                    }
                },
                None => {
                    assert(false);
                },
            }
        }
        proof {
            vstd::set_lib::lemma_subset_equality(seen, self.buckets@.dom());
            assert forall|i: usize| all@.contains(i) <==> indexed(self.buckets()).contains(i) by {
                if all@.contains(i) {
                    let u = choose|u: u64|
                        seen.contains(u) && #[trigger] self.buckets@[u]@.contains(i);
                    assert(self.buckets().dom().contains(u) && self.buckets()[u].contains(i));
                }
                if indexed(self.buckets()).contains(i) {
                    let u = choose|u: u64|
                        self.buckets().dom().contains(u) && #[trigger] self.buckets()[u].contains(i);
                    assert(seen.contains(u) && self.buckets@[u]@.contains(i));
                }
            }
            assert(all@ =~= indexed(self.buckets()));
        }
        all.len()
    }

    /// Empties the index.
    pub fn clear(&mut self)
        ensures
            final(self).buckets() == Map::<u64, Seq<usize>>::empty(),
            final(self).algorithm() == old(self).algorithm(),
    {
        self.buckets.clear();
        assert(self.buckets() =~= Map::<u64, Seq<usize>>::empty());
    }

    /// Tells whether no bucket exists.
    pub fn is_empty(&self) -> (empty: bool)
        ensures
            empty == (self.buckets() == Map::<u64, Seq<usize>>::empty()),
    {
        let empty = self.buckets.is_empty();
        proof {
            if empty {
                assert(self.buckets@.dom().len() == 0);
                assert(self.buckets@.dom() =~= Set::empty());
                assert(self.buckets() =~= Map::<u64, Seq<usize>>::empty());
            } else {
                if self.buckets() == Map::<u64, Seq<usize>>::empty() {
                    assert(self.buckets().dom() =~= self.buckets@.dom());
                    assert(self.buckets@.dom() =~= Set::empty());
                }
            }
        }
        empty
    }
}

/// True if every entry of every bucket is below `bound`.
pub open spec fn entries_below(buckets: Map<u64, Seq<usize>>, bound: int) -> bool {
    forall|key: u64, w: int|
        buckets.dom().contains(key) && 0 <= w < buckets[key].len() ==> (#[trigger] buckets[key][w])
            < bound
}

/// Filing an entry below the bound keeps every entry below the bound.
pub proof fn lemma_insert_all_below(
    buckets: Map<u64, Seq<usize>>,
    keys: Seq<u64>,
    index: usize,
    bound: int,
)
    requires
        entries_below(buckets, bound),
        index < bound,
    ensures
        entries_below(insert_all(buckets, keys, index), bound),
    decreases keys.len(),
{
    if keys.len() > 0 {
        lemma_insert_all_below(buckets, keys.drop_last(), index, bound);
        let prev = insert_all(buckets, keys.drop_last(), index);
        let next = insert_capped(prev, keys.last(), index);
        assert forall|key: u64, w: int|
            next.dom().contains(key) && 0 <= w < next[key].len() implies (#[trigger] next[key][w])
            < bound by {
            if key == keys.last() {
                if w < bucket_of(prev, key).len() {
                    assert(next[key][w] == prev[key][w]);
                }
            } else {
                assert(next[key][w] == prev[key][w]);
            }
        }
    }
}

/// An index built from a list of fingerprints, numbered from zero, holds only
/// entries below the length of the list.
pub proof fn lemma_batch_entries_below(hashes: Seq<Seq<char>>, algorithm: HashAlgorithm)
    requires
        hashes.len() <= usize::MAX,
    ensures
        entries_below(add_batch(Map::empty(), hashes, 0, algorithm), hashes.len() as int),
    decreases hashes.len(),
{
    if hashes.len() > 0 {
        lemma_batch_entries_below(hashes.drop_last(), algorithm);
        let prev = add_batch(Map::empty(), hashes.drop_last(), 0, algorithm);
        assert(entries_below(prev, hashes.len() as int));
        lemma_insert_all_below(
            prev,
            signature_keys(hashes.last(), algorithm),
            (hashes.len() - 1) as usize,
            hashes.len() as int,
        );
    }
}

/// The fingerprints of batch `batch`: those numbered from `batch * 10000` up
/// to, and without, the next multiple of 10000.
pub open spec fn batch_hashes(hashes: Seq<Seq<char>>, batch: int) -> Seq<Seq<char>> {
    hashes.subrange(
        batch * BATCH_SIZE,
        if (batch + 1) * BATCH_SIZE <= hashes.len() {
            (batch + 1) * BATCH_SIZE
        } else {
            hashes.len() as int
        },
    )
}

/// The buckets of the index over batch `batch`, its fingerprints numbered
/// from zero.
pub open spec fn batch_buckets(hashes: Seq<Seq<char>>, algorithm: HashAlgorithm, batch: int) -> Map<
    u64,
    Seq<usize>,
> {
    add_batch(Map::empty(), batch_hashes(hashes, batch), 0, algorithm)
}

/// True if fingerprints `a < b` meet in a bucket. If both lie in one batch,
/// `b` must share a bucket of that batch's index with `a`; if not, `a` must
/// be found in the index of its own batch under a band of `b`.
pub open spec fn share_bucket(
    hashes: Seq<Seq<char>>,
    algorithm: HashAlgorithm,
    a: int,
    b: int,
) -> bool {
    let home = a / (BATCH_SIZE as int);
    let same = b / (BATCH_SIZE as int) == home;
    let probe = if same {
        hashes[a]
    } else {
        hashes[b]
    };
    let target = if same {
        b
    } else {
        a
    };
    candidates(batch_buckets(hashes, algorithm, home), signature_keys(probe, algorithm)).contains(
        (target - home * BATCH_SIZE) as usize,
    )
}

/// The member of a pair whose query reports the pair.
pub open spec fn pair_prober(pair: (usize, usize)) -> int {
    if pair.0 / BATCH_SIZE == pair.1 / BATCH_SIZE {
        pair.0 as int
    } else {
        pair.1 as int
    }
}

/// The batch whose index reports the pair.
pub open spec fn pair_home(pair: (usize, usize)) -> int {
    (pair.0 / BATCH_SIZE) as int
}

/// True if the pair is reported before fingerprint `i` queries batch `batch`.
pub open spec fn reported_before(pair: (usize, usize), i: int, batch: int) -> bool {
    pair_prober(pair) < i || (pair_prober(pair) == i && pair_home(pair) < batch)
}

/// Where the partner of the prober of a pair stands within the home batch.
pub open spec fn pair_local(pair: (usize, usize)) -> int {
    if pair.0 / BATCH_SIZE == pair.1 / BATCH_SIZE {
        pair.1 - pair_home(pair) * BATCH_SIZE
    } else {
        pair.0 - pair_home(pair) * BATCH_SIZE
    }
}

/// True if `v` is among the first `m` entries of `s`.
pub open spec fn occurs_among(s: Seq<usize>, m: int, v: int) -> bool {
    exists|w: int| 0 <= w < m && s[w] as int == v
}

/// Appends to `pairs` the pairs that the query of fingerprint `i` against the
/// index of batch `batch` yields.
fn append_pairs(pairs: &mut Vec<(usize, usize)>, found: &Vec<usize>, i: usize, batch: usize)
    requires
        found@.no_duplicates(),
        batch <= i / BATCH_SIZE,
        forall|m: int|
            0 <= m < found@.len() ==> (#[trigger] found@[m]) < BATCH_SIZE && found@[m] + batch
                * BATCH_SIZE <= usize::MAX,
        old(pairs)@.no_duplicates(),
        forall|p: int|
            0 <= p < old(pairs)@.len() ==> reported_before(#[trigger] old(pairs)@[p], i as int, batch as int),
    ensures
        final(pairs)@.no_duplicates(),
        forall|x: (usize, usize)|
            #[trigger] final(pairs)@.contains(x) <==> old(pairs)@.contains(x) || (x.0 < x.1
                && pair_prober(x) == i && pair_home(x) == batch && occurs_among(
                found@,
                found@.len() as int,
                pair_local(x),
            )),
{
    let offset = batch * BATCH_SIZE;
    let same = batch == i / BATCH_SIZE;
    let mut m: usize = 0;
    while m < found.len()
        invariant
            m <= found@.len(),
            found@.no_duplicates(),
            batch <= i / BATCH_SIZE,
            offset == batch * BATCH_SIZE,
            same == (batch == i / BATCH_SIZE),
            forall|w: int|
                0 <= w < found@.len() ==> (#[trigger] found@[w]) < BATCH_SIZE && found@[w] + batch
                    * BATCH_SIZE <= usize::MAX,
            forall|p: int|
                0 <= p < old(pairs)@.len() ==> reported_before(
                    #[trigger] old(pairs)@[p],
                    i as int,
                    batch as int,
                ),
            pairs@.no_duplicates(),
            forall|x: (usize, usize)|
                #[trigger] pairs@.contains(x) <==> old(pairs)@.contains(x) || (x.0 < x.1
                    && pair_prober(x) == i && pair_home(x) == batch && occurs_among(
                    found@,
                    m as int,
                    pair_local(x),
                )),
        decreases found@.len() - m,
    {
        let target = found[m] + offset;
        let ghost before = pairs@;
        let fresh = if same {
            (i, target)
        } else {
            (target, i)
        };
        let emit = !same || target > i;
        if emit {
            pairs.push(fresh);
        }
        proof {
            assert(target / BATCH_SIZE == batch);
            if emit {
                assert(fresh.0 < fresh.1);
                assert(pair_home(fresh) == batch);
                assert(pair_prober(fresh) == i);
                assert(pair_local(fresh) == found@[m as int]);
                if before.contains(fresh) {
                    if old(pairs)@.contains(fresh) {
                        let p = choose|p: int| 0 <= p < old(pairs)@.len() && old(pairs)@[p] == fresh;
                        assert(reported_before(old(pairs)@[p], i as int, batch as int));
                        assert(false);
                    } else {
                        assert(occurs_among(found@, m as int, pair_local(fresh)));
                        let w = choose|w: int| 0 <= w < m && found@[w] as int == pair_local(fresh);
                        assert(found@[w] == found@[m as int]);
                        assert(false);
                    }
                }
                assert(pairs@ == before.push(fresh));
                assert forall|a: int, b: int| 0 <= a < b < pairs@.len() implies pairs@[a]
                    != pairs@[b] by {
                    if b == before.len() {
                        assert(before[a] == pairs@[a]);
                        assert(before.contains(pairs@[a]));
                    } else {
                        assert(before[a] == pairs@[a] && before[b] == pairs@[b]);
                    }
                }
            }
            assert forall|x: (usize, usize)|
                #[trigger] pairs@.contains(x) <==> old(pairs)@.contains(x) || (x.0 < x.1
                    && pair_prober(x) == i && pair_home(x) == batch && occurs_among(
                    found@,
                    m as int + 1,
                    pair_local(x),
                )) by {
                let shaped = x.0 < x.1 && pair_prober(x) == i && pair_home(x) == batch;
                assert(before.contains(x) <==> old(pairs)@.contains(x) || (shaped && occurs_among(
                    found@,
                    m as int,
                    pair_local(x),
                )));
                if occurs_among(found@, m as int, pair_local(x)) {
                    let w = choose|w: int| 0 <= w < m && found@[w] as int == pair_local(x);
                    assert(0 <= w < m + 1 && found@[w] as int == pair_local(x));
                }
                if emit {
                    if before.contains(x) {
                        let w = choose|w: int| 0 <= w < before.len() && before[w] == x;
                        assert(pairs@[w] == x);
                    }
                    if x == fresh {
                        assert(pairs@[before.len() as int] == x);
                        assert(0 <= m < m + 1 && found@[m as int] as int == pair_local(x));
                    }
                    if pairs@.contains(x) {
                        let w = choose|w: int| 0 <= w < pairs@.len() && pairs@[w] == x;
                        if w < before.len() {
                            assert(before[w] == x);
                        }
                    }
                }
                if shaped && occurs_among(found@, m as int + 1, pair_local(x)) && !occurs_among(
                    found@,
                    m as int,
                    pair_local(x),
                ) {
                    let w = choose|w: int| 0 <= w < m + 1 && found@[w] as int == pair_local(x);
                    assert(w == m);
                    if x.0 / BATCH_SIZE == x.1 / BATCH_SIZE {
                        assert(x.0 == i);
                        assert(same);
                        assert(x.1 == target);
                    } else {
                        assert(x.1 == i);
                        assert(!same);
                        assert(x.0 == target);
                    }
                    assert(emit && x == fresh);
                }
            }
        }
        m += 1;
    }
}

/// Builds one index per batch of at most 10000 fingerprints, each batch
/// numbered from zero.
fn build_batch_indexes(hashes: &Vec<String>, algorithm: HashAlgorithm) -> (indexes: Vec<LSHIndex>)
    ensures
        hashes@.len() <= indexes@.len() * BATCH_SIZE,
        forall|b: int|
            0 <= b < indexes@.len() ==> (#[trigger] indexes@[b]).buckets() == batch_buckets(
                views_of(hashes@),
                algorithm,
                b,
            ) && indexes@[b].algorithm() == algorithm && b * BATCH_SIZE < hashes@.len(),
{
    let n = hashes.len();
    let ghost views = views_of(hashes@);
    let mut indexes: Vec<LSHIndex> = Vec::new();
    let mut start: usize = 0;
    while start < n
        invariant
            n == hashes@.len(),
            views == views_of(hashes@),
            start <= n,
            start < n ==> start == indexes@.len() * BATCH_SIZE,
            start == n ==> n <= indexes@.len() * BATCH_SIZE,
            forall|b: int|
                0 <= b < indexes@.len() ==> (#[trigger] indexes@[b]).buckets() == batch_buckets(
                    views,
                    algorithm,
                    b,
                ) && indexes@[b].algorithm() == algorithm && b * BATCH_SIZE < n,
        decreases n - start,
    {
        let end = if n - start > BATCH_SIZE {
            start + BATCH_SIZE
        } else {
            n
        };
        let mut index = LSHIndex::new(algorithm);
        let mut i: usize = start;
        while i < end
            invariant
                start <= i <= end <= n,
                n == hashes@.len(),
                views == views_of(hashes@),
                index.algorithm() == algorithm,
                index.buckets() == add_batch(
                    Map::empty(),
                    views.subrange(start as int, i as int),
                    0,
                    algorithm,
                ),
            decreases end - i,
        {
            assert(views.subrange(start as int, i as int + 1).drop_last() =~= views.subrange(
                start as int,
                i as int,
            ));
            index.add(hashes[i].as_str(), i - start);
            i += 1;
        }
        assert(views.subrange(start as int, end as int) == batch_hashes(views, indexes@.len() as int));
        indexes.push(index);
        start = end;
    }
    indexes
}

/// Computes the pairs of fingerprints that meet in a bucket.
///
/// The fingerprints are indexed in batches of 10000. Each fingerprint is
/// looked up in the index of its own batch, which yields the later
/// fingerprints of that batch that share a bucket with it, and in the index
/// of every earlier batch. Every pair is returned once, smaller position
/// first.
fn bucket_pairs(hashes: &Vec<String>, algorithm: HashAlgorithm) -> (pairs: Vec<
    (usize, usize),
>)
    ensures
        pairs@.no_duplicates(),
        forall|x: (usize, usize)|
            #[trigger] pairs@.contains(x) <==> x.0 < x.1 < hashes@.len() && share_bucket(
                views_of(hashes@),
                algorithm,
                x.0 as int,
                x.1 as int,
            ),
{
    let n = hashes.len();
    let ghost views = views_of(hashes@);
    let mut pairs: Vec<(usize, usize)> = Vec::new();
    if n <= 1 {
        return pairs;
    }
    let indexes = build_batch_indexes(hashes, algorithm);
    let mut i: usize = 0;
    while i < n
        invariant
            i <= n,
            n == hashes@.len(),
            views == views_of(hashes@),
            n <= indexes@.len() * BATCH_SIZE,
            forall|b: int|
                0 <= b < indexes@.len() ==> (#[trigger] indexes@[b]).buckets() == batch_buckets(
                    views,
                    algorithm,
                    b,
                ) && indexes@[b].algorithm() == algorithm && b * BATCH_SIZE < n,
            pairs@.no_duplicates(),
            forall|x: (usize, usize)|
                #[trigger] pairs@.contains(x) <==> x.0 < x.1 < n && share_bucket(
                    views,
                    algorithm,
                    x.0 as int,
                    x.1 as int,
                ) && reported_before(x, i as int, 0),
        decreases n - i,
    {
        let last = i / BATCH_SIZE;
        let mut batch: usize = 0;
        while batch <= last
            invariant
                i < n,
                last == i / BATCH_SIZE,
                batch <= last + 1,
                n == hashes@.len(),
                views == views_of(hashes@),
                n <= indexes@.len() * BATCH_SIZE,
                forall|b: int|
                    0 <= b < indexes@.len() ==> (#[trigger] indexes@[b]).buckets() == batch_buckets(
                        views,
                        algorithm,
                        b,
                    ) && indexes@[b].algorithm() == algorithm && b * BATCH_SIZE < n,
                pairs@.no_duplicates(),
                forall|x: (usize, usize)|
                    #[trigger] pairs@.contains(x) <==> x.0 < x.1 < n && share_bucket(
                        views,
                        algorithm,
                        x.0 as int,
                        x.1 as int,
                    ) && reported_before(x, i as int, batch as int),
            decreases last + 1 - batch,
        {
            let found = indexes[batch].query(hashes[i].as_str());
            let ghost buckets = batch_buckets(views, algorithm, batch as int);
            let ghost keys = signature_keys(views[i as int], algorithm);
            proof {
                lemma_batch_entries_below(batch_hashes(views, batch as int), algorithm);
                assert forall|m: int| 0 <= m < found@.len() implies (#[trigger] found@[m])
                    < BATCH_SIZE && found@[m] + batch * BATCH_SIZE < n by {
                    assert(found@.to_set().contains(found@[m]));
                    let b = choose|b: int|
                        0 <= b < keys.len() && #[trigger] bucket_of(buckets, keys[b]).contains(found@[m]);
                    let w = choose|w: int|
                        0 <= w < bucket_of(buckets, keys[b]).len() && bucket_of(buckets, keys[b])[w]
                            == found@[m];
                    assert(buckets[keys[b]][w] < batch_hashes(views, batch as int).len());
                }
            }
            let ghost before = pairs@;
            assert forall|p: int| 0 <= p < before.len() implies reported_before(
                #[trigger] before[p],
                i as int,
                batch as int,
            ) by {
                assert(before.contains(before[p]));
            }
            append_pairs(&mut pairs, &found, i, batch);
            proof {
                assert forall|x: (usize, usize)|
                    #[trigger] pairs@.contains(x) <==> x.0 < x.1 < n && share_bucket(
                        views,
                        algorithm,
                        x.0 as int,
                        x.1 as int,
                    ) && reported_before(x, i as int, batch as int + 1) by {
                    let shaped = x.0 < x.1 && pair_prober(x) == i && pair_home(x) == batch;
                    assert(before.contains(x) <==> x.0 < x.1 < n && share_bucket(
                        views,
                        algorithm,
                        x.0 as int,
                        x.1 as int,
                    ) && reported_before(x, i as int, batch as int));
                    if shaped {
                        let local = pair_local(x);
                        assert(0 <= local);
                        assert(share_bucket(views, algorithm, x.0 as int, x.1 as int)
                            == candidates(buckets, keys).contains(local as usize));
                        assert(found@.to_set().contains(local as usize) == found@.contains(
                            local as usize,
                        ));
                        if occurs_among(found@, found@.len() as int, local) {
                            let w = choose|w: int| 0 <= w < found@.len() && found@[w] as int == local;
                            assert(found@[w] == local as usize);
                            assert(found@[w] + batch * BATCH_SIZE < n);
                        }
                        if found@.contains(local as usize) {
                            let w = choose|w: int|
                                0 <= w < found@.len() && found@[w] == local as usize;
                            assert(found@[w] as int == local);
                        }
                    }
                }
            }
            batch += 1;
        }
        i += 1;
    }
    pairs
}

/// True if some band of one fingerprint is a band of the other.
pub open spec fn share_band(hash1: Seq<char>, hash2: Seq<char>, algorithm: HashAlgorithm) -> bool {
    exists|x: int, y: int|
        0 <= x < signature_bands(hash1, algorithm).len() && 0 <= y < signature_bands(
            hash2,
            algorithm,
        ).len() && #[trigger] signature_bands(hash1, algorithm)[x] == #[trigger] signature_bands(
            hash2,
            algorithm,
        )[y]
}

/// True if fingerprints `a < b` are a candidate pair: they meet in a bucket
/// and have a band in common.
pub open spec fn is_candidate_pair(
    hashes: Seq<Seq<char>>,
    algorithm: HashAlgorithm,
    a: int,
    b: int,
) -> bool {
    share_bucket(hashes, algorithm, a, b) && share_band(hashes[a], hashes[b], algorithm)
}

/// Tells whether two lists hold the same characters.
fn same_chars(a: &Vec<char>, b: &Vec<char>) -> (same: bool)
    ensures
        same == (a@ == b@),
{
    if a.len() != b.len() {
        return false;
    }
    let mut i: usize = 0;
    while i < a.len()
        invariant
            i <= a@.len(),
            a@.len() == b@.len(),
            forall|j: int| 0 <= j < i ==> a@[j] == b@[j],
        decreases a@.len() - i,
    {
        if a[i] != b[i] {
            assert(a@[i as int] != b@[i as int]);
            return false;
        }
        i += 1;
    }
    assert(a@ =~= b@);
    true
}

/// Tells whether some band of the first list is a band of the second.
fn bands_meet(first: &Vec<Vec<char>>, second: &Vec<Vec<char>>) -> (meet: bool)
    ensures
        meet == exists|x: int, y: int|
            0 <= x < first@.len() && 0 <= y < second@.len() && (#[trigger] first@[x])@ == (
            #[trigger] second@[y])@,
{
    let mut x: usize = 0;
    while x < first.len()
        invariant
            x <= first@.len(),
            forall|u: int, v: int|
                0 <= u < x && 0 <= v < second@.len() ==> (#[trigger] first@[u])@ != (
                #[trigger] second@[v])@,
        decreases first@.len() - x,
    {
        let mut y: usize = 0;
        while y < second.len()
            invariant
                y <= second@.len(),
                x < first@.len(),
                forall|v: int| 0 <= v < y ==> first@[x as int]@ != (#[trigger] second@[v])@,
            decreases second@.len() - y,
        {
            if same_chars(&first[x], &second[y]) {
                return true;
            }
            y += 1;
        }
        x += 1;
    }
    false
}

/// Cuts every fingerprint of a list into its bands.
fn all_bands(hashes: &Vec<String>, algorithm: HashAlgorithm) -> (bands: Vec<Vec<Vec<char>>>)
    ensures
        bands@.len() == hashes@.len(),
        forall|i: int|
            0 <= i < bands@.len() ==> (#[trigger] bands@[i])@.len() == signature_bands(
                hashes@[i]@,
                algorithm,
            ).len(),
        forall|i: int, x: int|
            0 <= i < bands@.len() && 0 <= x < bands@[i]@.len() ==> (#[trigger] bands@[i]@[x])@
                == signature_bands(hashes@[i]@, algorithm)[x],
{
    let mut bands: Vec<Vec<Vec<char>>> = Vec::new();
    let mut i: usize = 0;
    while i < hashes.len()
        invariant
            i <= hashes@.len(),
            bands@.len() == i,
            forall|j: int|
                0 <= j < bands@.len() ==> (#[trigger] bands@[j])@.len() == signature_bands(
                    hashes@[j]@,
                    algorithm,
                ).len(),
            forall|j: int, x: int|
                0 <= j < bands@.len() && 0 <= x < bands@[j]@.len() ==> (#[trigger] bands@[j]@[x])@
                    == signature_bands(hashes@[j]@, algorithm)[x],
        decreases hashes@.len() - i,
    {
        let pieces = compute_signature_bands(hashes[i].as_str(), algorithm);
        let mut cut: Vec<Vec<char>> = Vec::new();
        let mut x: usize = 0;
        while x < pieces.len()
            invariant
                x <= pieces@.len(),
                i < hashes@.len(),
                pieces@.len() == signature_bands(hashes@[i as int]@, algorithm).len(),
                forall|y: int|
                    0 <= y < pieces@.len() ==> (#[trigger] pieces@[y])@ == signature_bands(
                        hashes@[i as int]@,
                        algorithm,
                    )[y],
                cut@.len() == x,
                forall|y: int|
                    0 <= y < x ==> (#[trigger] cut@[y])@ == signature_bands(
                        hashes@[i as int]@,
                        algorithm,
                    )[y],
            decreases pieces@.len() - x,
        {
            cut.push(chars_of(pieces[x].as_str()));
            x += 1;
        }
        bands.push(cut);
        i += 1;
    }
    bands
}

/// Computes the pairs of fingerprints that are worth comparing: those that
/// meet in a bucket of the index and have a band in common.
///
/// The fingerprints are indexed in batches of 10000. Each fingerprint is
/// looked up in the index of its own batch, which yields the later
/// fingerprints of that batch that share a bucket with it, and in the index
/// of every earlier batch. Buckets go by a hash of the band, so a pair found
/// there is kept only if the two fingerprints have a band in common. Every
/// pair is returned once, smaller position first.
pub fn compute_candidate_pairs(hashes: &Vec<String>, algorithm: HashAlgorithm) -> (pairs: Vec<
    (usize, usize),
>)
    ensures
        pairs@.no_duplicates(),
        forall|x: (usize, usize)|
            #[trigger] pairs@.contains(x) <==> x.0 < x.1 < hashes@.len() && is_candidate_pair(
                views_of(hashes@),
                algorithm,
                x.0 as int,
                x.1 as int,
            ),
{
    let ghost views = views_of(hashes@);
    let met = bucket_pairs(hashes, algorithm);
    let mut pairs: Vec<(usize, usize)> = Vec::new();
    let bands = all_bands(hashes, algorithm);
    let mut k: usize = 0;
    while k < met.len()
        invariant
            k <= met@.len(),
            views == views_of(hashes@),
            met@.no_duplicates(),
            forall|x: (usize, usize)|
                #[trigger] met@.contains(x) <==> x.0 < x.1 < hashes@.len() && share_bucket(
                    views,
                    algorithm,
                    x.0 as int,
                    x.1 as int,
                ),
            bands@.len() == hashes@.len(),
            forall|i: int|
                0 <= i < bands@.len() ==> (#[trigger] bands@[i])@.len() == signature_bands(
                    hashes@[i]@,
                    algorithm,
                ).len(),
            forall|i: int, x: int|
                0 <= i < bands@.len() && 0 <= x < bands@[i]@.len() ==> (#[trigger] bands@[i]@[x])@
                    == signature_bands(hashes@[i]@, algorithm)[x],
            pairs@.no_duplicates(),
            forall|x: (usize, usize)|
                #[trigger] pairs@.contains(x) <==> occurs_pair(met@, k as int, x) && share_band(
                    views[x.0 as int],
                    views[x.1 as int],
                    algorithm,
                ),
        decreases met@.len() - k,
    {
        let pair = met[k];
        assert(met@.contains(pair));
        let ghost before = pairs@;
        let keep = bands_meet(&bands[pair.0], &bands[pair.1]);
        proof {
            let b0 = signature_bands(views[pair.0 as int], algorithm);
            let b1 = signature_bands(views[pair.1 as int], algorithm);
            if keep {
                let (x, y) = choose|x: int, y: int|
                    0 <= x < bands@[pair.0 as int]@.len() && 0 <= y < bands@[pair.1 as int]@.len() && (
                    #[trigger] bands@[pair.0 as int]@[x])@ == (#[trigger] bands@[pair.1 as int]@[y])@;
                assert(b0[x] == b1[y]);
            }
            if share_band(views[pair.0 as int], views[pair.1 as int], algorithm) {
                let (x, y) = choose|x: int, y: int|
                    0 <= x < b0.len() && 0 <= y < b1.len() && #[trigger] b0[x] == #[trigger] b1[y];
                assert(bands@[pair.0 as int]@[x]@ == bands@[pair.1 as int]@[y]@);
            }
        }
        if keep {
            pairs.push(pair);
        }
        proof {
            if keep {
                if before.contains(pair) {
                    let w = choose|w: int| 0 <= w < k && met@[w] == pair;
                    assert(met@[w] == met@[k as int]);
                }
                assert forall|a: int, b: int| 0 <= a < b < pairs@.len() implies pairs@[a]
                    != pairs@[b] by {
                    if b == before.len() {
                        assert(before[a] == pairs@[a]);
                        assert(before.contains(pairs@[a]));
                    } else {
                        assert(before[a] == pairs@[a] && before[b] == pairs@[b]);
                    }
                }
            }
            assert forall|x: (usize, usize)|
                #[trigger] pairs@.contains(x) <==> occurs_pair(met@, k as int + 1, x) && share_band(
                    views[x.0 as int],
                    views[x.1 as int],
                    algorithm,
                ) by {
                assert(before.contains(x) <==> occurs_pair(met@, k as int, x) && share_band(
                    views[x.0 as int],
                    views[x.1 as int],
                    algorithm,
                ));
                if occurs_pair(met@, k as int, x) {
                    let w = choose|w: int| 0 <= w < k && met@[w] == x;
                    assert(0 <= w < k + 1 && met@[w] == x);
                }
                if occurs_pair(met@, k as int + 1, x) && !occurs_pair(met@, k as int, x) {
                    let w = choose|w: int| 0 <= w < k + 1 && met@[w] == x;
                    assert(w == k);
                }
                if x == pair {
                    assert(0 <= k < k + 1 && met@[k as int] == x);
                }
                if keep {
                    if before.contains(x) {
                        let w = choose|w: int| 0 <= w < before.len() && before[w] == x;
                        assert(pairs@[w] == x);
                    }
                    if x == pair {
                        assert(pairs@[before.len() as int] == x);
                    }
                    if pairs@.contains(x) {
                        let w = choose|w: int| 0 <= w < pairs@.len() && pairs@[w] == x;
                        if w < before.len() {
                            assert(before[w] == x);
                        }
                    }
                }
            }
        }
        k += 1;
    }
    proof {
        assert forall|x: (usize, usize)|
            #[trigger] pairs@.contains(x) <==> x.0 < x.1 < hashes@.len() && is_candidate_pair(
                views,
                algorithm,
                x.0 as int,
                x.1 as int,
            ) by {
            assert(occurs_pair(met@, met@.len() as int, x) <==> met@.contains(x));
        }
    }
    pairs
}

/// True if `x` is among the first `m` pairs of `s`.
pub open spec fn occurs_pair(s: Seq<(usize, usize)>, m: int, x: (usize, usize)) -> bool {
    exists|w: int| 0 <= w < m && s[w] == x
}

} // verus!
