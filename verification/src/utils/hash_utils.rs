//! Fingerprint strings: banding, Base64 and SHA-256.

use vstd::prelude::*;
use crate::algorithms::spec_similarity;
use crate::types::{DetectionError, HashAlgorithm};
use crate::utils::hamming::Similarity;
use crate::utils::text::{chars_of, string_of};

verus! {

/// The bands of a fingerprint: `num_bands` contiguous pieces of equal length,
/// the characters that do not fill a band dropped from the end. A fingerprint
/// shorter than `num_bands` has no band.
pub open spec fn lsh_bands(hash: Seq<char>, num_bands: int) -> Seq<Seq<char>> {
    let band_size = hash.len() as int / num_bands;
    if band_size == 0 {
        Seq::empty()
    } else {
        Seq::new(num_bands as nat, |i: int| hash.subrange(i * band_size, (i + 1) * band_size))
    }
}

/// Splits a fingerprint into `num_bands` bands of equal length.
pub fn split_hash_for_lsh(hash: &str, num_bands: usize) -> (bands: Vec<String>)
    requires
        num_bands > 0,
    ensures
        bands@.len() == lsh_bands(hash@, num_bands as int).len(),
        forall|i: int| 0 <= i < bands@.len() ==> bands@[i]@ == lsh_bands(hash@, num_bands as int)[i],
{
    let chars = chars_of(hash);
    let len = chars.len();
    let band_size = len / num_bands;
    let mut bands: Vec<String> = Vec::new();
    if band_size == 0 {
        return bands;
    }
    let mut i: usize = 0;
    while i < num_bands
        invariant
            i <= num_bands,
            chars@ == hash@,
            chars@.len() <= usize::MAX,
            band_size as int == (chars@.len() as int) / (num_bands as int),
            band_size > 0,
            bands@.len() == i,
            forall|j: int| 0 <= j < i ==> bands@[j]@ == lsh_bands(hash@, num_bands as int)[j],
        decreases num_bands - i,
    {
        proof {
            lemma_band_bounds(chars@.len() as int, num_bands as int, i as int);
        }
        let start = i * band_size;
        let end = start + band_size;
        bands.push(string_of(&chars, start, end));
        i += 1;
    }
    bands
}

/// Band `i` of `num_bands` lies inside a fingerprint of `len` characters.
pub proof fn lemma_band_bounds(len: int, num_bands: int, i: int)
    requires
        0 <= i < num_bands,
        0 <= len,
    ensures
        0 <= i * (len / num_bands),
        (i + 1) * (len / num_bands) == i * (len / num_bands) + len / num_bands,
        (i + 1) * (len / num_bands) <= len,
{
    let b = len / num_bands;
    assert(0 <= b && b * num_bands <= len) by (nonlinear_arith)
        requires
            b == len / num_bands,
            num_bands > 0,
            len >= 0,
    ;
    assert(0 <= i * b && (i + 1) * b == i * b + b && (i + 1) * b <= b * num_bands)
        by (nonlinear_arith)
        requires
            0 <= i < num_bands,
            0 <= b,
    ;
}

/// The standard Base64 text, with padding, of a byte string.
pub uninterp spec fn base64_encode(data: Seq<u8>) -> Seq<char>;

/// The byte string that a standard Base64 text with canonical padding
/// stands for, if it is one.
pub uninterp spec fn base64_decode(text: Seq<char>) -> Option<Seq<u8>>;

/// The SHA-256 digest of a byte string as lowercase hexadecimal text.
pub uninterp spec fn sha256_hex(data: Seq<u8>) -> Seq<char>;

/// True if `c` is a lowercase hexadecimal digit.
pub open spec fn is_lower_hex(c: char) -> bool {
    ('0' <= c && c <= '9') || ('a' <= c && c <= 'f')
}

/// The error with which `base64` rejects a text.
#[verifier::external_type_specification]
#[verifier::external_body]
pub struct ExDecodeError(base64::DecodeError);

/// Encodes bytes as standard Base64 with padding.
///
/// Wraps `Engine::encode` of `base64::engine::general_purpose::STANDARD`. The
/// text has four characters for every three bytes begun, and the same engine
/// decodes it to the bytes it was made from. The bound keeps the text within
/// what the encoder can allocate.
///
/// This contract is assumed, not proved.
#[verifier::external_body]
pub fn serialize_to_base64(data: &[u8]) -> (text: String)
    requires
        4 * ((data@.len() + 2) / 3) <= isize::MAX,
    ensures
        text@ == base64_encode(data@),
        text@.len() == 4 * ((data@.len() + 2) / 3),
        base64_decode(text@) == Some(data@),
{
    base64::Engine::encode(&base64::engine::general_purpose::STANDARD, data)
}

/// Decodes standard Base64.
///
/// Wraps `Engine::decode` of `base64::engine::general_purpose::STANDARD`,
/// which returns the bytes or the reason why the text is no canonical
/// Base64.
///
/// This contract is assumed, not proved.
#[verifier::external_body]
fn decode_standard(encoded: &str) -> (result: Result<Vec<u8>, base64::DecodeError>)
    ensures
        result is Ok <==> base64_decode(encoded@) is Some,
        result is Ok ==> base64_decode(encoded@) == Some(result->Ok_0@),
{
    base64::Engine::decode(&base64::engine::general_purpose::STANDARD, encoded)
}

/// Decodes standard Base64; a text that is none is a codec error.
pub fn deserialize_from_base64(encoded: &str) -> (result: Result<Vec<u8>, DetectionError>)
    ensures
        result is Ok <==> base64_decode(encoded@) is Some,
        result is Ok ==> base64_decode(encoded@) == Some(result->Ok_0@),
        result is Err ==> result->Err_0 == DetectionError::CodecError,
{
    match decode_standard(encoded) {
        Ok(data) => Ok(data),
        Err(_) => Err(DetectionError::CodecError),
    }
}

/// Computes the SHA-256 digest of `data` as 64 lowercase hexadecimal digits.
///
/// Wraps `sha2::Sha256` (`new`, `update`, `finalize`) and the lowercase
/// hexadecimal formatting of the 32-byte digest.
///
/// This contract is assumed, not proved.
#[verifier::external_body]
pub fn compute_data_sha256(data: &[u8]) -> (hex: String)
    ensures
        hex@ == sha256_hex(data@),
        hex@.len() == 64,
        forall|i: int| 0 <= i < hex@.len() ==> is_lower_hex(#[trigger] hex@[i]),
{
    let mut hasher = <sha2::Sha256 as sha2::Digest>::new();
    sha2::Digest::update(&mut hasher, data);
    format!("{:x}", sha2::Digest::finalize(hasher))
}

/// Scores two fingerprints of the same algorithm: equality for the exact
/// hash, the share of agreeing characters for the bit-string hashes, the
/// match rate for keypoint fingerprints, with zero for a keypoint
/// fingerprint that does not decode.
pub fn calculate_similarity(hash1: &str, hash2: &str, algorithm: HashAlgorithm) -> (score: Similarity)
    ensures
        score@ == spec_similarity(hash1@, hash2@, algorithm),
{
    crate::algorithms::calculate_similarity(hash1, hash2, algorithm)
}

} // verus!
