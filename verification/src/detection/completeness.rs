//! When the index misses nothing: as long as no bucket is full, every two
//! fingerprints with a band in common are a candidate pair.

use vstd::prelude::*;
use crate::detection::lsh::{
    add_batch, band_count, band_key, batch_buckets, batch_hashes, bucket_of, candidates, insert_all,
    insert_capped, is_candidate_pair, share_band, share_bucket, signature_bands, signature_keys,
    BATCH_SIZE, MAX_BUCKET_SIZE,
};
use crate::types::HashAlgorithm;

verus! {

/// True if no bucket of any batch index over `hashes` is full, so that no
/// entry was dropped.
pub open spec fn no_bucket_full(hashes: Seq<Seq<char>>, algorithm: HashAlgorithm) -> bool {
    forall|batch: int, key: u64|
        0 <= batch && batch * BATCH_SIZE < hashes.len() ==> (#[trigger] bucket_of(
            batch_buckets(hashes, algorithm, batch),
            key,
        )).len() < MAX_BUCKET_SIZE
}

/// A fingerprint has at most as many bucket keys as its algorithm has bands.
pub proof fn lemma_keys_len(hash: Seq<char>, algorithm: HashAlgorithm)
    ensures
        signature_keys(hash, algorithm).len() <= band_count(algorithm),
        signature_keys(hash, algorithm).len() == signature_bands(hash, algorithm).len(),
        forall|x: int|
            0 <= x < signature_keys(hash, algorithm).len() ==> #[trigger] signature_keys(
                hash,
                algorithm,
            )[x] == band_key(signature_bands(hash, algorithm)[x]),
{
}

/// Filing an entry under some keys lengthens the bucket of `key` by at most
/// one entry per key and keeps what it held; and if `key` is among the keys
/// and its bucket is not full afterwards, the bucket holds the entry.
pub proof fn lemma_insert_all_grows(
    buckets: Map<u64, Seq<usize>>,
    keys: Seq<u64>,
    index: usize,
    key: u64,
)
    ensures
        bucket_of(buckets, key).len() <= bucket_of(insert_all(buckets, keys, index), key).len()
            <= bucket_of(buckets, key).len() + keys.len(),
        forall|w: int|
            0 <= w < bucket_of(buckets, key).len() ==> #[trigger] bucket_of(
                insert_all(buckets, keys, index),
                key,
            )[w] == bucket_of(buckets, key)[w],
        keys.contains(key) && bucket_of(insert_all(buckets, keys, index), key).len()
            < MAX_BUCKET_SIZE ==> bucket_of(insert_all(buckets, keys, index), key).contains(index),
    decreases keys.len(),
{
    if keys.len() > 0 {
        let front = keys.drop_last();
        lemma_insert_all_grows(buckets, front, index, key);
        let prev = insert_all(buckets, front, index);
        let next = insert_capped(prev, keys.last(), index);
        assert(next == insert_all(buckets, keys, index));
        let before = bucket_of(prev, key);
        let after = bucket_of(next, key);
        if keys.last() == key {
            if before.len() < MAX_BUCKET_SIZE {
                assert(after == before.push(index));
                assert(after[before.len() as int] == index);
            } else {
                assert(after == before);
            }
        } else {
            assert(after == before);
            if keys.contains(key) {
                let w = choose|w: int| 0 <= w < keys.len() && keys[w] == key;
                assert(front[w] == key);
            }
        }
        assert forall|w: int| 0 <= w < bucket_of(buckets, key).len() implies #[trigger] after[w]
            == bucket_of(buckets, key)[w] by {
            assert(before[w] == bucket_of(buckets, key)[w]);
        }
    }
}

/// In an index over the first `m` fingerprints of a list, the bucket of
/// `key` has at most one entry per band and fingerprint; and unless it is
/// full, it holds every fingerprint that has `key` among its keys.
pub proof fn lemma_batch_files(hashes: Seq<Seq<char>>, algorithm: HashAlgorithm, m: nat, key: u64)
    requires
        m <= hashes.len() <= usize::MAX,
    ensures
        bucket_of(add_batch(Map::empty(), hashes.subrange(0, m as int), 0, algorithm), key).len()
            <= band_count(algorithm) * m,
        bucket_of(add_batch(Map::empty(), hashes.subrange(0, m as int), 0, algorithm), key).len()
            < MAX_BUCKET_SIZE ==> forall|i: int|
            0 <= i < m && signature_keys(#[trigger] hashes[i], algorithm).contains(key) ==> bucket_of(
                add_batch(Map::empty(), hashes.subrange(0, m as int), 0, algorithm),
                key,
            ).contains(i as usize),
    decreases m,
{
    if m > 0 {
        lemma_batch_files(hashes, algorithm, (m - 1) as nat, key);
        let part = hashes.subrange(0, m as int);
        assert(part.drop_last() =~= hashes.subrange(0, m as int - 1));
        assert(part.last() == hashes[m - 1]);
        let prev = add_batch(Map::empty(), part.drop_last(), 0, algorithm);
        let next = add_batch(Map::empty(), part, 0, algorithm);
        let keys = signature_keys(hashes[m - 1], algorithm);
        let index = (m - 1) as usize;
        assert(next == insert_all(prev, keys, index));
        lemma_insert_all_grows(prev, keys, index, key);
        lemma_keys_len(hashes[m - 1], algorithm);
        assert(band_count(algorithm) * m == band_count(algorithm) * (m - 1) + band_count(algorithm))
            by (nonlinear_arith);
        let before = bucket_of(prev, key);
        let after = bucket_of(next, key);
        if after.len() < MAX_BUCKET_SIZE {
            assert forall|i: int|
                0 <= i < m && signature_keys(#[trigger] hashes[i], algorithm).contains(
                    key,
                ) implies after.contains(i as usize) by {
                if i < m - 1 {
                    assert(before.contains(i as usize));
                    let w = choose|w: int| 0 <= w < before.len() && before[w] == i as usize;
                    assert(after[w] == i as usize);
                }
            }
        }
    } else {
        assert(hashes.subrange(0, 0) =~= Seq::<Seq<char>>::empty());
    }
}

/// As long as no bucket is full, two fingerprints with a band in common are
/// a candidate pair: the candidate pairs are then exactly the pairs with a
/// band in common.
pub proof fn lemma_shared_band_pairs(hashes: Seq<Seq<char>>, algorithm: HashAlgorithm, a: int, b: int)
    requires
        0 <= a < b < hashes.len() <= usize::MAX,
        no_bucket_full(hashes, algorithm),
    ensures
        is_candidate_pair(hashes, algorithm, a, b) <==> share_band(hashes[a], hashes[b], algorithm),
{
    if share_band(hashes[a], hashes[b], algorithm) {
        let bands_a = signature_bands(hashes[a], algorithm);
        let bands_b = signature_bands(hashes[b], algorithm);
        let (x, y) = choose|x: int, y: int|
            0 <= x < bands_a.len() && 0 <= y < bands_b.len() && #[trigger] bands_a[x]
                == #[trigger] bands_b[y];
        lemma_keys_len(hashes[a], algorithm);
        lemma_keys_len(hashes[b], algorithm);
        let keys_a = signature_keys(hashes[a], algorithm);
        let keys_b = signature_keys(hashes[b], algorithm);
        let key = keys_a[x];
        assert(keys_b[y] == key);
        assert(keys_a.contains(key));
        assert(keys_b.contains(key));
        let home = a / (BATCH_SIZE as int);
        let start = home * BATCH_SIZE;
        let batch = batch_hashes(hashes, home);
        let buckets = batch_buckets(hashes, algorithm, home);
        assert(bucket_of(buckets, key).len() < MAX_BUCKET_SIZE);
        lemma_batch_files(batch, algorithm, batch.len(), key);
        assert(batch.subrange(0, batch.len() as int) =~= batch);
        assert(batch[a - start] == hashes[a]);
        if b / (BATCH_SIZE as int) == home {
            assert(batch[b - start] == hashes[b]);
            assert(bucket_of(buckets, keys_a[x]).contains((b - start) as usize));
            assert(candidates(buckets, keys_a).contains((b - start) as usize));
        } else {
            assert(bucket_of(buckets, keys_b[y]).contains((a - start) as usize));
            assert(candidates(buckets, keys_b).contains((a - start) as usize));
        }
        assert(share_bucket(hashes, algorithm, a, b));
    }
}

/// A list so short that its fingerprints have fewer bands than a bucket has
/// room fills no bucket.
pub proof fn lemma_short_list_fills_no_bucket(hashes: Seq<Seq<char>>, algorithm: HashAlgorithm)
    requires
        band_count(algorithm) * hashes.len() < MAX_BUCKET_SIZE,
    ensures
        no_bucket_full(hashes, algorithm),
{
    assert(hashes.len() < MAX_BUCKET_SIZE) by (nonlinear_arith)
        requires
            band_count(algorithm) * hashes.len() < MAX_BUCKET_SIZE,
            band_count(algorithm) >= 1,
    ;
    assert forall|batch: int, key: u64|
        0 <= batch && batch * BATCH_SIZE < hashes.len() implies (#[trigger] bucket_of(
        batch_buckets(hashes, algorithm, batch),
        key,
    )).len() < MAX_BUCKET_SIZE by {
        assert(batch == 0);
        assert(batch_hashes(hashes, 0) =~= hashes);
        lemma_batch_files(hashes, algorithm, hashes.len(), key);
        assert(hashes.subrange(0, hashes.len() as int) =~= hashes);
    }
}

} // verus!
