//! A compact form of a fingerprint text: a bit vector for bit strings, an
//! integer for short hexadecimal texts, raw bytes or the text itself.

use bit_vec::BitVec;
use std::collections::hash_map::DefaultHasher;
use std::hash::Hasher;
use vstd::prelude::*;
use vstd::std_specs::hash::DefaultHasherAdditionalSpecFns;
use vstd::string::StringSliceAdditionalSpecFns;
use vstd::string::StrSliceExecFns;
use vstd::utf8::encode_utf8;
use crate::utils::hamming::{
    common_len, differing, lemma_ones_in_bound, ones_in, Ratio, Similarity,
};
use crate::utils::hash_utils::{base64_encode, serialize_to_base64};
use crate::utils::text::{bit_char, chars_of, is_binary, push_bit, push_char, str_equal};

verus! {

/// The bit vector of the `bit-vec` crate.
#[verifier::external_type_specification]
#[verifier::external_body]
#[verifier::reject_recursive_types(B)]
pub struct ExBitVec<B>(BitVec<B>);

/// The bits that a bit vector holds, first to last.
pub uninterp spec fn bit_vec_bits(bits: BitVec) -> Seq<bool>;

/// Creates an empty bit vector.
///
/// Wraps `BitVec::new`, which returns a vector of no bits. This contract is
/// assumed, not proved.
#[verifier::external_body]
fn bits_new() -> (bits: BitVec)
    ensures
        bit_vec_bits(bits) == Seq::<bool>::empty(),
{
    BitVec::new()
}

/// Appends a bit.
///
/// Wraps `BitVec::push`, which adds the bit at the end and fails if the
/// number of bits would exceed `usize::MAX`. This contract is assumed, not
/// proved.
#[verifier::external_body]
fn bits_push(bits: &mut BitVec, bit: bool)
    requires
        bit_vec_bits(*old(bits)).len() < usize::MAX,
    ensures
        bit_vec_bits(*final(bits)) == bit_vec_bits(*old(bits)).push(bit),
{
    bits.push(bit)
}

/// Returns the number of bits.
///
/// Wraps `BitVec::len`. This contract is assumed, not proved.
#[verifier::external_body]
fn bits_len(bits: &BitVec) -> (len: usize)
    ensures
        len == bit_vec_bits(*bits).len(),
{
    bits.len()
}

/// Returns bit `i`.
///
/// Wraps the indexing of a `BitVec`, which returns the bit at the position
/// and fails for a position past the end. This contract is assumed, not
/// proved.
#[verifier::external_body]
fn bits_get(bits: &BitVec, i: usize) -> (bit: bool)
    requires
        i < bit_vec_bits(*bits).len(),
    ensures
        bit == bit_vec_bits(*bits)[i as int],
{
    bits[i]
}

/// Formats a number as sixteen lowercase hexadecimal digits, highest first.
fn hex16(value: u64) -> (text: String)
    ensures
        text@ == spec_hex16(value),
{
    let mut text = String::new();
    let mut i: u64 = 0;
    while i < 16
        invariant
            i <= 16,
            text@ == spec_hex16(value).subrange(0, i as int),
        decreases 16 - i,
    {
        let shift: u64 = 60 - 4 * i;
        let d = (value >> shift) & 0xf;
        assert(d < 16) by (bit_vector)
            requires
                d == (value >> shift) & 0xf,
        ;
        let c = if d < 10 {
            ((48 + d) as u8) as char
        } else {
            ((87 + d) as u8) as char
        };
        push_char(&mut text, c);
        i += 1;
        assert(text@ =~= spec_hex16(value).subrange(0, i as int));
    }
    assert(spec_hex16(value).subrange(0, 16) =~= spec_hex16(value));
    text
}

/// The lowercase hexadecimal digit of a number below sixteen.
pub open spec fn hex_char(d: u64) -> char {
    if d < 10 {
        ((48 + d) as u8) as char
    } else {
        ((87 + d) as u8) as char
    }
}

/// The sixteen lowercase hexadecimal digits of a number, highest first.
pub open spec fn spec_hex16(value: u64) -> Seq<char> {
    Seq::new(16, |i: int| hex_char((value >> ((60 - 4 * i) as u64)) & 0xf))
}

/// A fingerprint in compact form.
#[derive(Debug)]
pub enum CompactHash {
    /// A bit string, one bit per character.
    Binary(BitVec),
    /// A hexadecimal text of at most sixteen digits, as its value.
    Integer(u64),
    /// The bytes of a text of no known form.
    Bytes(Vec<u8>),
    /// A text kept as it is.
    Text(String),
}

/// What a compact fingerprint holds, as plain values.
pub enum CompactModel {
    Binary(Seq<bool>),
    Integer(u64),
    Bytes(Seq<u8>),
    Text(Seq<char>),
}

impl View for CompactHash {
    type V = CompactModel;

    open spec fn view(&self) -> CompactModel {
        match self {
            CompactHash::Binary(bits) => CompactModel::Binary(bit_vec_bits(*bits)),
            CompactHash::Integer(value) => CompactModel::Integer(*value),
            CompactHash::Bytes(bytes) => CompactModel::Bytes(bytes@),
            CompactHash::Text(text) => CompactModel::Text(text@),
        }
    }
}

/// True if `c` is a hexadecimal digit in either case.
pub open spec fn is_hex_digit(c: char) -> bool {
    ('0' <= c && c <= '9') || ('a' <= c && c <= 'f') || ('A' <= c && c <= 'F')
}

/// True if every character of `s` is a hexadecimal digit.
pub open spec fn is_hex(s: Seq<char>) -> bool {
    forall|i: int| 0 <= i < s.len() ==> is_hex_digit(#[trigger] s[i])
}

/// The value of a hexadecimal digit.
pub open spec fn hex_digit_value(c: char) -> int {
    if '0' <= c && c <= '9' {
        c as int - 48
    } else if 'a' <= c && c <= 'f' {
        c as int - 87
    } else {
        c as int - 55
    }
}

/// The value of a hexadecimal text.
pub open spec fn hex_value(s: Seq<char>) -> int
    decreases s.len(),
{
    if s.len() == 0 {
        0
    } else {
        16 * hex_value(s.drop_last()) + hex_digit_value(s.last())
    }
}

/// Sixteen to the power of `n`.
pub open spec fn pow16(n: nat) -> int
    decreases n,
{
    if n == 0 {
        1
    } else {
        16 * pow16((n - 1) as nat)
    }
}

/// The bits of a bit string: set where the character is `'1'`.
pub open spec fn bits_of_text(s: Seq<char>) -> Seq<bool> {
    Seq::new(s.len(), |i: int| s[i] == '1')
}

/// The text of a sequence of bits.
pub open spec fn text_of_bits(bits: Seq<bool>) -> Seq<char> {
    Seq::new(bits.len(), |i: int| bit_char(bits[i]))
}

/// The compact form of a text of the given characters and UTF-8 bytes: a
/// bit vector for a bit string of at least sixteen bytes, the value of a
/// hexadecimal text of one to sixteen digits, the text itself where it is
/// an empty hexadecimal text or has more than twenty bytes and begins with
/// `eJ`, and the bytes of anything else.
pub open spec fn spec_from_string(chars: Seq<char>, bytes: Seq<u8>) -> CompactModel {
    if bytes.len() >= 16 && is_binary(chars) {
        CompactModel::Binary(bits_of_text(chars))
    } else if bytes.len() <= 16 && is_hex(chars) {
        if 0 < chars.len() <= 16 {
            CompactModel::Integer(hex_value(chars) as u64)
        } else {
            CompactModel::Text(chars)
        }
    } else if bytes.len() > 20 && chars.len() >= 2 && chars[0] == 'e' && chars[1] == 'J' {
        CompactModel::Text(chars)
    } else {
        CompactModel::Bytes(bytes)
    }
}

/// The text that a compact fingerprint stands for: the bit string, sixteen
/// hexadecimal digits, the Base64 of the bytes, or the text.
pub open spec fn spec_to_string(hash: CompactModel) -> Seq<char> {
    match hash {
        CompactModel::Binary(bits) => text_of_bits(bits),
        CompactModel::Integer(value) => spec_hex16(value),
        CompactModel::Bytes(bytes) => base64_encode(bytes),
        CompactModel::Text(text) => text,
    }
}

/// The length of a compact fingerprint: its bits, 64 for an integer, eight
/// times its bytes, or the bytes of its text.
pub open spec fn spec_len(hash: CompactModel) -> int {
    match hash {
        CompactModel::Binary(bits) => bits.len() as int,
        CompactModel::Integer(_) => 64,
        CompactModel::Bytes(bytes) => (8 * bytes.len()) as int,
        CompactModel::Text(text) => encode_utf8(text).len() as int,
    }
}

/// A hexadecimal text of `n` digits is less than sixteen to the `n`.
pub proof fn lemma_hex_value_bound(s: Seq<char>)
    requires
        is_hex(s),
    ensures
        0 <= hex_value(s) < pow16(s.len()),
    decreases s.len(),
{
    if s.len() > 0 {
        assert(is_hex(s.drop_last())) by {
            assert forall|i: int| 0 <= i < s.drop_last().len() implies is_hex_digit(
                #[trigger] s.drop_last()[i],
            ) by {
                assert(s.drop_last()[i] == s[i]);
            }
        }
        lemma_hex_value_bound(s.drop_last());
        assert(is_hex_digit(s[s.len() - 1]));
    }
}

/// Sixteen to the sixteenth is two to the sixty-fourth, and the powers
/// below it are smaller.
pub proof fn lemma_pow16(n: nat)
    requires
        n <= 16,
    ensures
        0 < pow16(n) <= 0x1_0000_0000_0000_0000,
        n < 16 ==> 16 * pow16(n) <= 0x1_0000_0000_0000_0000,
    decreases 16 - n,
{
    if n == 16 {
        reveal_with_fuel(pow16, 17);
    } else {
        lemma_pow16(n + 1);
    }
}

/// Tells whether `c` is a hexadecimal digit.
fn hex_digit(c: char) -> (value: Option<u8>)
    ensures
        value is Some <==> is_hex_digit(c),
        value is Some ==> value->0 == hex_digit_value(c) && value->0 < 16,
{
    if '0' <= c && c <= '9' {
        Some((c as u8) - 48)
    } else if 'a' <= c && c <= 'f' {
        Some((c as u8) - 87)
    } else if 'A' <= c && c <= 'F' {
        Some((c as u8) - 55)
    } else {
        None
    }
}

/// Reads a text of hexadecimal digits; `None` if some character is no such
/// digit.
fn parse_hex(chars: &Vec<char>) -> (value: Option<u64>)
    requires
        chars@.len() <= 16,
    ensures
        value is Some <==> is_hex(chars@),
        value is Some ==> value->0 == hex_value(chars@),
{
    let mut value: u64 = 0;
    let mut i: usize = 0;
    while i < chars.len()
        invariant
            i <= chars@.len() <= 16,
            is_hex(chars@.subrange(0, i as int)),
            value == hex_value(chars@.subrange(0, i as int)),
        decreases chars@.len() - i,
    {
        let ghost done = chars@.subrange(0, i as int);
        let ghost next = chars@.subrange(0, i as int + 1);
        proof {
            assert(next.drop_last() =~= done);
            lemma_hex_value_bound(done);
            lemma_pow16(i as nat);
        }
        match hex_digit(chars[i]) {
            Some(d) => {
                value = value * 16 + d as u64;
                proof {
                    assert forall|j: int| 0 <= j < next.len() implies is_hex_digit(
                        #[trigger] next[j],
                    ) by {
                        if j < i {
                            assert(done[j] == next[j]);
                        }
                    }
                }
            },
            None => {
                assert(!is_hex_digit(chars@[i as int]));
                return None;
            },
        }
        i += 1;
    }
    assert(chars@.subrange(0, chars@.len() as int) =~= chars@);
    Some(value)
}

/// Tells whether every character is `'0'` or `'1'`.
fn all_binary(chars: &Vec<char>) -> (binary: bool)
    ensures
        binary == is_binary(chars@),
{
    let mut i: usize = 0;
    while i < chars.len()
        invariant
            i <= chars@.len(),
            forall|j: int| 0 <= j < i ==> chars@[j] == '0' || chars@[j] == '1',
        decreases chars@.len() - i,
    {
        if chars[i] != '0' && chars[i] != '1' {
            return false;
        }
        i += 1;
    }
    true
}

impl CompactHash {
    /// Chooses the compact form of a text.
    pub fn from_string(s: &str) -> (hash: CompactHash)
        ensures
            hash@ == spec_from_string(s@, s.spec_bytes()),
    {
        let chars = chars_of(s);
        let byte_len = s.as_bytes().len();
        if byte_len >= 16 && all_binary(&chars) {
            let mut bits = bits_new();
            let mut i: usize = 0;
            while i < chars.len()
                invariant
                    i <= chars@.len(),
                    bit_vec_bits(bits) == bits_of_text(chars@.subrange(0, i as int)),
                decreases chars@.len() - i,
            {
                bits_push(&mut bits, chars[i] == '1');
                i += 1;
                assert(bit_vec_bits(bits) =~= bits_of_text(chars@.subrange(0, i as int)));
            }
            assert(chars@.subrange(0, chars@.len() as int) =~= chars@);
            return CompactHash::Binary(bits);
        }
        if byte_len <= 16 && chars.len() <= 16 {
            match parse_hex(&chars) {
                Some(value) => {
                    proof {
                        lemma_hex_value_bound(chars@);
                        lemma_pow16(chars@.len());
                    }
                    if chars.len() > 0 {
                        return CompactHash::Integer(value);
                    } else {
                        return CompactHash::Text(s.to_owned());
                    }
                },
                None => {},
            }
        } else if byte_len <= 16 && all_hex(&chars) {
            let text = s.to_owned();
            assert(text@ == chars@);
            assert(!(0 < chars@.len() <= 16));
            return CompactHash::Text(text);
        }
        if byte_len > 20 && chars.len() >= 2 && chars[0] == 'e' && chars[1] == 'J' {
            CompactHash::Text(s.to_owned())
        } else {
            CompactHash::Bytes(s.as_bytes_vec())
        }
    }

    /// Returns the text that the fingerprint stands for.
    pub fn to_string(&self) -> (text: String)
        requires
            self matches CompactHash::Bytes(bytes) ==> 4 * ((bytes@.len() + 2) / 3) <= isize::MAX,
        ensures
            text@ == spec_to_string(self@),
    {
        match self {
            CompactHash::Binary(bits) => {
                let n = bits_len(bits);
                let mut text = String::new();
                let mut i: usize = 0;
                while i < n
                    invariant
                        i <= n,
                        n == bit_vec_bits(*bits).len(),
                        text@ == text_of_bits(bit_vec_bits(*bits).subrange(0, i as int)),
                    decreases n - i,
                {
                    push_bit(&mut text, bits_get(bits, i));
                    i += 1;
                    assert(text@ =~= text_of_bits(bit_vec_bits(*bits).subrange(0, i as int)));
                }
                assert(bit_vec_bits(*bits).subrange(0, n as int) =~= bit_vec_bits(*bits));
                text
            },
            CompactHash::Integer(value) => hex16(*value),
            CompactHash::Bytes(bytes) => serialize_to_base64(bytes.as_slice()),
            CompactHash::Text(text) => text.clone(),
        }
    }

    /// Returns the length of the fingerprint: its bits, 64 for an integer,
    /// eight times its bytes, or the bytes of its text.
    pub fn len(&self) -> (n: usize)
        requires
            self matches CompactHash::Bytes(bytes) ==> 8 * bytes@.len() <= usize::MAX,
        ensures
            n == spec_len(self@),
    {
        match self {
            CompactHash::Binary(bits) => bits_len(bits),
            CompactHash::Integer(_) => 64,
            CompactHash::Bytes(bytes) => bytes.len() * 8,
            CompactHash::Text(text) => text.as_str().as_bytes().len(),
        }
    }

    /// Tells whether the fingerprint is empty: no bits, the integer zero, no
    /// bytes, or no text.
    pub fn is_empty(&self) -> (empty: bool)
        ensures
            empty == match self@ {
                CompactModel::Binary(bits) => bits.len() == 0,
                CompactModel::Integer(value) => value == 0,
                CompactModel::Bytes(bytes) => bytes.len() == 0,
                CompactModel::Text(text) => text.len() == 0,
            },
    {
        match self {
            CompactHash::Binary(bits) => bits_len(bits) == 0,
            CompactHash::Integer(value) => *value == 0,
            CompactHash::Bytes(bytes) => bytes.len() == 0,
            CompactHash::Text(text) => text.as_str().is_empty(),
        }
    }
}

/// Tells whether every character is a hexadecimal digit.
fn all_hex(chars: &Vec<char>) -> (hex: bool)
    ensures
        hex == is_hex(chars@),
{
    let mut i: usize = 0;
    while i < chars.len()
        invariant
            i <= chars@.len(),
            forall|j: int| 0 <= j < i ==> is_hex_digit(#[trigger] chars@[j]),
        decreases chars@.len() - i,
    {
        if hex_digit(chars[i]).is_none() {
            return false;
        }
        i += 1;
    }
    true
}

/// The number of one bits of a 64-bit number: those of its eight bytes.
pub open spec fn ones_in_u64(x: u64) -> nat {
    ones_in((x & 0xff) as u8) + ones_in(((x >> 8) & 0xff) as u8) + ones_in(((x >> 16) & 0xff) as u8)
        + ones_in(((x >> 24) & 0xff) as u8) + ones_in(((x >> 32) & 0xff) as u8) + ones_in(
        ((x >> 40) & 0xff) as u8,
    ) + ones_in(((x >> 48) & 0xff) as u8) + ones_in(((x >> 56) & 0xff) as u8)
}

/// `u64::count_ones` returns the number of ones in the binary
/// representation of its argument.
///
/// This contract is assumed, not proved.
pub assume_specification[ u64::count_ones ](x: u64) -> (count: u32)
    ensures
        count == ones_in_u64(x),
;

/// A number rotated left by `n` bits: the bits shifted out at the top come
/// back in at the bottom.
pub open spec fn rotated_left(x: u64, n: u32) -> u64 {
    let k = (n % 64) as u64;
    if k == 0 {
        x
    } else {
        (x << k) | (x >> ((64 - k) as u64))
    }
}

/// `u64::rotate_left` shifts the bits to the left by `n`, wrapping the
/// truncated bits to the end of the result.
///
/// This contract is assumed, not proved.
pub assume_specification[ u64::rotate_left ](x: u64, n: u32) -> (rotated: u64)
    ensures
        rotated == rotated_left(x, n),
;

/// The sum of the absolute differences of the first `n` bytes of `a` and
/// `b`.
pub open spec fn byte_gap(a: Seq<u8>, b: Seq<u8>, n: nat) -> int
    decreases n,
{
    if n == 0 {
        0
    } else {
        byte_gap(a, b, (n - 1) as nat) + if a[n - 1] >= b[n - 1] {
            a[n - 1] - b[n - 1]
        } else {
            b[n - 1] - a[n - 1]
        }
    }
}

/// The length of the longer of two sequences.
pub open spec fn longer_len<T>(a: Seq<T>, b: Seq<T>) -> nat {
    if a.len() >= b.len() {
        a.len()
    } else {
        b.len()
    }
}

/// The share of common characters among the characters of two texts; zero
/// where both texts are empty.
pub open spec fn jaccard(s1: Seq<char>, s2: Seq<char>) -> Ratio {
    let a = s1.to_set();
    let b = s2.to_set();
    if a.union(b).len() == 0 {
        Ratio { matched: 0, total: 1 }
    } else {
        Ratio { matched: a.intersect(b).len() as int, total: a.union(b).len() as int }
    }
}

/// The similarity of two compact fingerprints. Two bit vectors, or two byte
/// strings, are compared position by position, what the longer has beyond
/// the shorter counting as different, and score zero if one is empty; two
/// integers are compared bit by bit; any other pair by the characters that
/// their texts have in common.
pub open spec fn spec_compact_similarity(a: CompactModel, b: CompactModel) -> Ratio {
    match (a, b) {
        (CompactModel::Binary(x), CompactModel::Binary(y)) => {
            if common_len(x, y) == 0 {
                Ratio { matched: 0, total: 1 }
            } else {
                Ratio {
                    matched: common_len(x, y) - differing(x, y, common_len(x, y)),
                    total: longer_len(x, y) as int,
                }
            }
        },
        (CompactModel::Integer(x), CompactModel::Integer(y)) => Ratio {
            matched: 64 - ones_in_u64(x ^ y),
            total: 64,
        },
        (CompactModel::Bytes(x), CompactModel::Bytes(y)) => {
            if common_len(x, y) == 0 {
                Ratio { matched: 0, total: 1 }
            } else {
                Ratio {
                    matched: 255 * common_len(x, y) - byte_gap(x, y, common_len(x, y)),
                    total: (255 * longer_len(x, y)) as int,
                }
            }
        },
        _ => jaccard(spec_to_string(a), spec_to_string(b)),
    }
}

/// The gap of `n` bytes is at most `255 * n`.
pub proof fn lemma_byte_gap_bound(a: Seq<u8>, b: Seq<u8>, n: nat)
    ensures
        0 <= byte_gap(a, b, n) <= 255 * n,
    decreases n,
{
    if n > 0 {
        lemma_byte_gap_bound(a, b, (n - 1) as nat);
    }
}

/// A 64-bit number has at most 64 one bits.
pub proof fn lemma_ones_in_u64_bound(x: u64)
    ensures
        ones_in_u64(x) <= 64,
{
    lemma_ones_in_bound((x & 0xff) as u8);
    lemma_ones_in_bound(((x >> 8) & 0xff) as u8);
    lemma_ones_in_bound(((x >> 16) & 0xff) as u8);
    lemma_ones_in_bound(((x >> 24) & 0xff) as u8);
    lemma_ones_in_bound(((x >> 32) & 0xff) as u8);
    lemma_ones_in_bound(((x >> 40) & 0xff) as u8);
    lemma_ones_in_bound(((x >> 48) & 0xff) as u8);
    lemma_ones_in_bound(((x >> 56) & 0xff) as u8);
}

/// Tells whether a list holds a character.
fn holds_char(list: &Vec<char>, c: char) -> (found: bool)
    ensures
        found == list@.contains(c),
{
    let mut i: usize = 0;
    while i < list.len()
        invariant
            i <= list@.len(),
            forall|j: int| 0 <= j < i ==> list@[j] != c,
        decreases list@.len() - i,
    {
        if list[i] == c {
            return true;
        }
        i += 1;
    }
    false
}

/// Lists the different characters of `keep` that `among` holds too, or, if
/// `wanted` is false, that it does not hold, after the characters of
/// `start`, which must be different from one another.
fn sift(start: Vec<char>, keep: &Vec<char>, among: &Vec<char>, wanted: bool) -> (out: Vec<char>)
    requires
        start@.no_duplicates(),
    ensures
        out@.no_duplicates(),
        forall|c: char|
            #[trigger] out@.contains(c) <==> start@.contains(c) || (keep@.contains(c) && (
            among@.contains(c) == wanted)),
{
    let mut out = start;
    let mut i: usize = 0;
    while i < keep.len()
        invariant
            i <= keep@.len(),
            out@.no_duplicates(),
            forall|c: char|
                #[trigger] out@.contains(c) <==> start@.contains(c) || (keep@.subrange(
                    0,
                    i as int,
                ).contains(c) && (among@.contains(c) == wanted)),
        decreases keep@.len() - i,
    {
        let c = keep[i];
        let ghost before = out@;
        let ghost seen = keep@.subrange(0, i as int);
        let ghost next = keep@.subrange(0, i as int + 1);
        let add = holds_char(among, c) == wanted && !holds_char(&out, c);
        if add {
            out.push(c);
        }
        proof {
            assert(next =~= seen.push(c));
            assert forall|x: char|
                #[trigger] out@.contains(x) <==> start@.contains(x) || (next.contains(x) && (
                among@.contains(x) == wanted)) by {
                assert(before.contains(x) <==> start@.contains(x) || (seen.contains(x) && (
                among@.contains(x) == wanted)));
                if seen.contains(x) {
                    let w = choose|w: int| 0 <= w < seen.len() && seen[w] == x;
                    assert(next[w] == x);
                }
                if next.contains(x) && x != c {
                    let w = choose|w: int| 0 <= w < next.len() && next[w] == x;
                    assert(seen[w] == x);
                }
                if x == c {
                    assert(next[i as int] == c);
                }
                if add {
                    if before.contains(x) {
                        let w = choose|w: int| 0 <= w < before.len() && before[w] == x;
                        assert(out@[w] == x);
                    }
                    if x == c {
                        assert(out@[before.len() as int] == c);
                    }
                    if out@.contains(x) && x != c {
                        let w = choose|w: int| 0 <= w < out@.len() && out@[w] == x;
                        assert(before[w] == x);
                    }
                }
            }
        }
        i += 1;
    }
    assert(keep@.subrange(0, keep@.len() as int) =~= keep@);
    out
}

/// Scores two texts by the characters they have in common.
fn jaccard_of(text1: &str, text2: &str) -> (score: Similarity)
    ensures
        score@ == jaccard(text1@, text2@),
{
    let s1 = chars_of(text1);
    let s2 = chars_of(text2);
    let shared = sift(Vec::new(), &s1, &s2, true);
    let only1 = sift(Vec::new(), &s1, &s2, false);
    let first = sift(shared, &s1, &s2, false);
    let shared_again = sift(Vec::new(), &s1, &s2, true);
    let all = sift(first, &s2, &s1, false);
    proof {
        let a = s1@.to_set();
        let b = s2@.to_set();
        assert(shared_again@.to_set() =~= a.intersect(b));
        assert(all@.to_set() =~= a.union(b));
        shared_again@.unique_seq_to_set();
        all@.unique_seq_to_set();
    }
    if all.len() == 0 {
        Similarity { matched: 0, total: 1 }
    } else {
        Similarity { matched: shared_again.len() as u64, total: all.len() as u64 }
    }
}

/// The low bit of the seed shifted right by `i` modulo 64.
pub open spec fn seed_bit(seed: u64, i: int) -> u8 {
    ((seed >> ((i % 64) as u64)) & 1) as u8
}

/// The low byte of the seed shifted right by `i` modulo 8.
pub open spec fn seed_byte(seed: u64, i: int) -> u8 {
    ((seed >> ((i % 8) as u64)) & 0xff) as u8
}

/// The low byte of the code of a character.
pub open spec fn low_byte(c: char) -> u8 {
    ((c as u32) & 0xff) as u8
}

/// What the bucket key of a bit vector hashes: one byte for each of the
/// first 64 bits, the bit mixed with a bit of the seed.
pub open spec fn binary_writes(bits: Seq<bool>, seed: u64) -> Seq<Seq<u8>> {
    Seq::new(
        if bits.len() <= 64 {
            bits.len()
        } else {
            64
        },
        |i: int|
            seq![(if bits[i] {
                1u8
            } else {
                0u8
            }) ^ seed_bit(seed, i)],
    )
}

/// What the bucket key of a byte string hashes: each of the first 16 bytes
/// mixed with a byte of the seed.
pub open spec fn bytes_writes(bytes: Seq<u8>, seed: u64) -> Seq<Seq<u8>> {
    Seq::new(
        if bytes.len() <= 16 {
            bytes.len()
        } else {
            16
        },
        |i: int| seq![bytes[i] ^ seed_byte(seed, i)],
    )
}

/// The distance between the characters that the bucket key of a text of
/// `byte_len` bytes samples.
pub open spec fn sample_step(byte_len: nat) -> nat {
    if byte_len <= 64 {
        1
    } else {
        byte_len / 64
    }
}

/// How many characters the bucket key of a text samples: every
/// `sample_step`-th, up to 64 and up to the end of the text.
pub open spec fn sample_count(char_len: nat, byte_len: nat) -> nat {
    let limit = if byte_len <= 64 {
        byte_len
    } else {
        64
    };
    let available = (char_len + sample_step(byte_len) - 1) / (sample_step(byte_len) as int);
    if available <= limit {
        available as nat
    } else {
        limit
    }
}

/// What the bucket key of a text hashes: the low byte of each sampled
/// character mixed with a byte of the seed.
pub open spec fn text_writes(text: Seq<char>, seed: u64) -> Seq<Seq<u8>> {
    let byte_len = encode_utf8(text).len();
    Seq::new(
        sample_count(text.len(), byte_len),
        |k: int| seq![low_byte(text[k * sample_step(byte_len)]) ^ seed_byte(seed, k)],
    )
}

/// The bucket key of a compact fingerprint under a seed: the hash of the
/// bytes listed by `binary_writes`, `bytes_writes` or `text_writes`, or, for
/// an integer, its product with a constant, rotated left by the low 32 bits
/// of the seed.
pub open spec fn spec_bucket_key(hash: CompactModel, seed: u64) -> u64 {
    match hash {
        CompactModel::Binary(bits) => DefaultHasher::spec_finish(binary_writes(bits, seed)),
        CompactModel::Integer(value) => rotated_left(
            ((value * 0x517c_c1b7_2722_0a95) % 0x1_0000_0000_0000_0000) as u64,
            (seed & 0xffff_ffff) as u32,
        ),
        CompactModel::Bytes(bytes) => DefaultHasher::spec_finish(bytes_writes(bytes, seed)),
        CompactModel::Text(text) => DefaultHasher::spec_finish(text_writes(text, seed)),
    }
}

/// Feeds one byte to a hasher.
fn write_byte(hasher: &mut DefaultHasher, byte: u8)
    ensures
        final(hasher)@ == old(hasher)@.push(seq![byte]),
{
    let buffer = [byte];
    hasher.write(buffer.as_slice());
    assert(buffer@ =~= seq![byte]);
}

impl CompactHash {
    /// Scores the similarity of two compact fingerprints.
    ///
    /// The bounds keep the Base64 of a byte string within what can be
    /// allocated, and 255 times the length of a byte string within 64 bits.
    pub fn similarity(&self, other: &CompactHash) -> (score: Similarity)
        requires
            self matches CompactHash::Bytes(bytes) ==> 4 * ((bytes@.len() + 2) / 3) <= isize::MAX
                && 255 * bytes@.len() <= u64::MAX,
            other matches CompactHash::Bytes(bytes) ==> 4 * ((bytes@.len() + 2) / 3) <= isize::MAX
                && 255 * bytes@.len() <= u64::MAX,
        ensures
            score@ == spec_compact_similarity(self@, other@),
    {
        match (self, other) {
            (CompactHash::Binary(a), CompactHash::Binary(b)) => {
                let len_a = bits_len(a);
                let len_b = bits_len(b);
                let shorter = if len_a <= len_b {
                    len_a
                } else {
                    len_b
                };
                let longer = if len_a >= len_b {
                    len_a
                } else {
                    len_b
                };
                if shorter == 0 {
                    return Similarity { matched: 0, total: 1 };
                }
                let mut distance: usize = 0;
                let mut i: usize = 0;
                while i < shorter
                    invariant
                        i <= shorter,
                        shorter == common_len(bit_vec_bits(*a), bit_vec_bits(*b)),
                        distance == differing(bit_vec_bits(*a), bit_vec_bits(*b), i as nat),
                        distance <= i,
                    decreases shorter - i,
                {
                    if bits_get(a, i) != bits_get(b, i) {
                        distance += 1;
                    }
                    i += 1;
                }
                Similarity { matched: (shorter - distance) as u64, total: longer as u64 }
            },
            (CompactHash::Integer(a), CompactHash::Integer(b)) => {
                proof {
                    lemma_ones_in_u64_bound(*a ^ *b);
                }
                Similarity { matched: (64 - (*a ^ *b).count_ones()) as u64, total: 64 }
            },
            (CompactHash::Bytes(a), CompactHash::Bytes(b)) => {
                let shorter = if a.len() <= b.len() {
                    a.len()
                } else {
                    b.len()
                };
                let longer = if a.len() >= b.len() {
                    a.len()
                } else {
                    b.len()
                };
                if shorter == 0 {
                    return Similarity { matched: 0, total: 1 };
                }
                let mut gap: u64 = 0;
                let mut i: usize = 0;
                while i < shorter
                    invariant
                        i <= shorter,
                        shorter == common_len(a@, b@),
                        255 * shorter <= u64::MAX,
                        gap == byte_gap(a@, b@, i as nat),
                        gap <= 255 * i,
                    decreases shorter - i,
                {
                    let d = if a[i] >= b[i] {
                        a[i] - b[i]
                    } else {
                        b[i] - a[i]
                    };
                    gap = gap + d as u64;
                    i += 1;
                }
                Similarity {
                    matched: 255 * (shorter as u64) - gap,
                    total: 255 * (longer as u64),
                }
            },
            _ => {
                let text1 = self.to_string();
                let text2 = other.to_string();
                jaccard_of(text1.as_str(), text2.as_str())
            },
        }
    }

    /// Computes the bucket key of the fingerprint under a seed.
    ///
    /// A text must not be empty.
    pub fn lsh_bucket_key(&self, seed: u64) -> (key: u64)
        requires
            self matches CompactHash::Text(text) ==> text@.len() > 0,
        ensures
            key == spec_bucket_key(self@, seed),
    {
        match self {
            CompactHash::Binary(bits) => {
                let len = bits_len(bits);
                let count = if len <= 64 {
                    len
                } else {
                    64
                };
                let mut hasher = DefaultHasher::new();
                let mut i: usize = 0;
                while i < count
                    invariant
                        i <= count <= 64,
                        count <= bit_vec_bits(*bits).len(),
                        count == binary_writes(bit_vec_bits(*bits), seed).len(),
                        hasher@ == binary_writes(bit_vec_bits(*bits), seed).subrange(0, i as int),
                    decreases count - i,
                {
                    let mask = #[verifier::truncate] (((seed >> (i as u64 % 64)) & 1) as u8);
                    let bit: u8 = if bits_get(bits, i) {
                        1
                    } else {
                        0
                    };
                    write_byte(&mut hasher, bit ^ mask);
                    i += 1;
                    assert(hasher@ =~= binary_writes(bit_vec_bits(*bits), seed).subrange(
                        0,
                        i as int,
                    ));
                }
                assert(hasher@ =~= binary_writes(bit_vec_bits(*bits), seed));
                hasher.finish()
            },
            CompactHash::Integer(value) => {
                let turns = #[verifier::truncate] ((seed & 0xffff_ffff) as u32);
                value.wrapping_mul(0x517c_c1b7_2722_0a95).rotate_left(turns)
            },
            CompactHash::Bytes(bytes) => {
                let count = if bytes.len() <= 16 {
                    bytes.len()
                } else {
                    16
                };
                let mut hasher = DefaultHasher::new();
                let mut i: usize = 0;
                while i < count
                    invariant
                        i <= count <= 16,
                        count <= bytes@.len(),
                        count == bytes_writes(bytes@, seed).len(),
                        hasher@ == bytes_writes(bytes@, seed).subrange(0, i as int),
                    decreases count - i,
                {
                    let mask = #[verifier::truncate] (((seed >> (i as u64 % 8)) & 0xff) as u8);
                    write_byte(&mut hasher, bytes[i] ^ mask);
                    i += 1;
                    assert(hasher@ =~= bytes_writes(bytes@, seed).subrange(0, i as int));
                }
                assert(hasher@ =~= bytes_writes(bytes@, seed));
                hasher.finish()
            },
            CompactHash::Text(text) => {
                let chars = chars_of(text.as_str());
                let char_len = chars.len();
                let byte_len = text.as_str().as_bytes().len();
                let limit = if byte_len <= 64 {
                    byte_len
                } else {
                    64
                };
                let step = if byte_len <= 64 {
                    1
                } else {
                    byte_len / 64
                };
                let ghost writes = text_writes(text@, seed);
                assert(byte_len == encode_utf8(text@).len());
                assert((chars@.len() + step - 1) / (step as int) <= chars@.len()) by (nonlinear_arith)
                    requires
                        step >= 1,
                ;
                let available = ((chars.len() as u128 + step as u128 - 1) / (step as u128)) as usize;
                let count = if available <= limit {
                    available
                } else {
                    limit
                };
                let mut hasher = DefaultHasher::new();
                let mut k: usize = 0;
                while k < count
                    invariant
                        k <= count <= 64,
                        chars@ == text@,
                        chars@.len() <= usize::MAX,
                        step == sample_step(encode_utf8(text@).len()),
                        count == sample_count(text@.len(), encode_utf8(text@).len()),
                        writes == text_writes(text@, seed),
                        count == writes.len(),
                        hasher@ == writes.subrange(0, k as int),
                    decreases count - k,
                {
                    proof {
                        lemma_sample_count(chars@.len(), encode_utf8(text@).len(), k as int);
                        assert(k * step == k * sample_step(encode_utf8(text@).len()));
                        assert(k * step < chars@.len());
                    }
                    let c = chars[k * step];
                    let mask = #[verifier::truncate] (((seed >> (k as u64 % 8)) & 0xff) as u8);
                    let low = #[verifier::truncate] (((c as u32) & 0xff) as u8);
                    write_byte(&mut hasher, low ^ mask);
                    k += 1;
                    assert(hasher@ =~= writes.subrange(0, k as int));
                }
                assert(hasher@ =~= writes);
                hasher.finish()
            },
        }
    }

    /// Tells whether two fingerprints are equal: in contents where both have
    /// one form, in their texts where the forms differ.
    pub fn same_as(&self, other: &CompactHash) -> (same: bool)
        requires
            self matches CompactHash::Bytes(bytes) ==> 4 * ((bytes@.len() + 2) / 3) <= isize::MAX,
            other matches CompactHash::Bytes(bytes) ==> 4 * ((bytes@.len() + 2) / 3) <= isize::MAX,
        ensures
            same == match (self@, other@) {
                (CompactModel::Binary(x), CompactModel::Binary(y)) => x == y,
                (CompactModel::Integer(x), CompactModel::Integer(y)) => x == y,
                (CompactModel::Bytes(x), CompactModel::Bytes(y)) => x == y,
                (CompactModel::Text(x), CompactModel::Text(y)) => x == y,
                _ => spec_to_string(self@) == spec_to_string(other@),
            },
    {
        match (self, other) {
            (CompactHash::Integer(a), CompactHash::Integer(b)) => *a == *b,
            (CompactHash::Binary(a), CompactHash::Binary(b)) => {
                let n = bits_len(a);
                if n != bits_len(b) {
                    assert(bit_vec_bits(*a).len() != bit_vec_bits(*b).len());
                    return false;
                }
                let mut i: usize = 0;
                while i < n
                    invariant
                        i <= n,
                        n == bit_vec_bits(*a).len(),
                        n == bit_vec_bits(*b).len(),
                        self@ == CompactModel::Binary(bit_vec_bits(*a)),
                        other@ == CompactModel::Binary(bit_vec_bits(*b)),
                        forall|j: int| 0 <= j < i ==> bit_vec_bits(*a)[j] == bit_vec_bits(*b)[j],
                    decreases n - i,
                {
                    if bits_get(a, i) != bits_get(b, i) {
                        assert(bit_vec_bits(*a)[i as int] != bit_vec_bits(*b)[i as int]);
                        return false;
                    }
                    i += 1;
                }
                assert(bit_vec_bits(*a) =~= bit_vec_bits(*b));
                true
            },
            (CompactHash::Bytes(a), CompactHash::Bytes(b)) => {
                let n = a.len();
                if n != b.len() {
                    assert(a@.len() != b@.len());
                    return false;
                }
                let mut i: usize = 0;
                while i < n
                    invariant
                        i <= n,
                        n == a@.len(),
                        n == b@.len(),
                        self@ == CompactModel::Bytes(a@),
                        other@ == CompactModel::Bytes(b@),
                        forall|j: int| 0 <= j < i ==> a@[j] == b@[j],
                    decreases n - i,
                {
                    if a[i] != b[i] {
                        assert(a@[i as int] != b@[i as int]);
                        return false;
                    }
                    i += 1;
                }
                assert(a@ =~= b@);
                true
            },
            (CompactHash::Text(a), CompactHash::Text(b)) => str_equal(a.as_str(), b.as_str()),
            _ => {
                let text1 = self.to_string();
                let text2 = other.to_string();
                str_equal(text1.as_str(), text2.as_str())
            },
        }
    }
}

/// While the sampling loop runs, the next sample is one of those counted.
proof fn lemma_sample_count(char_len: nat, byte_len: nat, k: int)
    requires
        0 <= k,
    ensures
        k < sample_count(char_len, byte_len) <==> (k < (if byte_len <= 64 {
            byte_len
        } else {
            64
        }) && k * sample_step(byte_len) < char_len),
        k < sample_count(char_len, byte_len) ==> 0 <= k * sample_step(byte_len) < char_len,
{
    let step = sample_step(byte_len) as int;
    let available = (char_len + step - 1) / step;
    assert(step >= 1);
    assert(k * step < char_len <==> k < available) by (nonlinear_arith)
        requires
            step >= 1,
            k >= 0,
            char_len >= 0,
            available == (char_len + step - 1) / step,
    ;
    assert(0 <= k * step) by (nonlinear_arith)
        requires
            step >= 1,
            k >= 0,
    ;
}

impl From<&str> for CompactHash {
    fn from(s: &str) -> (hash: CompactHash) {
        CompactHash::from_string(s)
    }
}

/// Conversion gives the compact form that `from_string` chooses; the bit
/// vector of the result is known by its bits only, so no equation is claimed
/// of the conversion.
impl vstd::std_specs::convert::FromSpecImpl<&str> for CompactHash {
    open spec fn obeys_from_spec() -> bool {
        false
    }

    open spec fn from_spec(s: &str) -> CompactHash {
        choose|hash: CompactHash| hash@ == spec_from_string(s@, s.spec_bytes())
    }
}

impl vstd::std_specs::convert::FromSpecImpl<String> for CompactHash {
    open spec fn obeys_from_spec() -> bool {
        false
    }

    open spec fn from_spec(s: String) -> CompactHash {
        choose|hash: CompactHash| hash@ == spec_from_string(s@, encode_utf8(s@))
    }
}

impl From<String> for CompactHash {
    fn from(s: String) -> (hash: CompactHash) {
        CompactHash::from_string(s.as_str())
    }
}

} // verus!
