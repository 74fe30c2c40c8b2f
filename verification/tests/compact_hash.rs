use delo::types::compact_hash::CompactHash;
use std::collections::hash_map::DefaultHasher;
use std::hash::Hasher;

fn bits_of(hash: &CompactHash) -> Vec<bool> {
    match hash {
        CompactHash::Binary(bits) => bits.iter().collect(),
        _ => panic!("not a bit vector"),
    }
}

#[test]
fn bit_strings_of_sixteen_characters_become_bit_vectors() {
    let hash = CompactHash::from_string("0101010101010111");
    assert!(matches!(hash, CompactHash::Binary(_)));
    let mut expected = vec![false, true].repeat(8);
    expected[14] = true;
    assert_eq!(bits_of(&hash), expected);
    assert_eq!(hash.len(), 16);
    assert!(!hash.is_empty());
    assert_eq!(hash.to_string(), "0101010101010111");
    let long = "10".repeat(40);
    assert_eq!(CompactHash::from_string(&long).to_string(), long);
    assert_eq!(CompactHash::from_string(&long).len(), 80);
}

#[test]
fn short_hexadecimal_texts_become_integers() {
    assert!(matches!(CompactHash::from_string("ff"), CompactHash::Integer(255)));
    assert!(matches!(CompactHash::from_string("FF"), CompactHash::Integer(255)));
    assert!(matches!(
        CompactHash::from_string("0123456789abcdef"),
        CompactHash::Integer(0x0123_4567_89ab_cdef)
    ));
    assert!(matches!(
        CompactHash::from_string("ffffffffffffffff"),
        CompactHash::Integer(u64::MAX)
    ));
    // A bit string shorter than sixteen characters is read as hexadecimal.
    assert!(matches!(CompactHash::from_string("101"), CompactHash::Integer(0x101)));
    let hash = CompactHash::from_string("1f");
    assert_eq!(hash.to_string(), "000000000000001f");
    assert_eq!(hash.len(), 64);
    assert!(!hash.is_empty());
    assert!(CompactHash::from_string("0").is_empty());
}

#[test]
fn other_texts_are_kept_as_text_or_bytes() {
    let empty = CompactHash::from_string("");
    assert!(matches!(&empty, CompactHash::Text(t) if t.is_empty()));
    assert!(empty.is_empty());
    assert_eq!(empty.len(), 0);
    let packed = "eJ".to_string() + &"x".repeat(19);
    let hash = CompactHash::from_string(&packed);
    assert!(matches!(&hash, CompactHash::Text(t) if *t == packed));
    assert_eq!(hash.to_string(), packed);
    assert_eq!(hash.len(), 21);
    // Twenty bytes are not more than twenty.
    let shorter = "eJ".to_string() + &"x".repeat(18);
    assert!(matches!(CompactHash::from_string(&shorter), CompactHash::Bytes(_)));
    let hash = CompactHash::from_string("hello world");
    assert!(matches!(&hash, CompactHash::Bytes(b) if b == b"hello world"));
    assert_eq!(hash.to_string(), "aGVsbG8gd29ybGQ=");
    assert_eq!(hash.len(), 88);
    // Seventeen hexadecimal digits are too many for an integer.
    assert!(matches!(CompactHash::from_string("0123456789abcdef0"), CompactHash::Bytes(_)));
}

#[test]
fn conversions_choose_the_same_form() {
    assert!(matches!(CompactHash::from("ff"), CompactHash::Integer(255)));
    assert!(matches!(CompactHash::from("hello world".to_string()), CompactHash::Bytes(_)));
}

#[test]
fn bit_vectors_are_compared_bit_by_bit() {
    let a = CompactHash::from_string("1111000011110000");
    let b = CompactHash::from_string("1111000011110011");
    let score = a.similarity(&b);
    assert_eq!((score.matched, score.total), (14, 16));
    assert_eq!(score.percent(), 87);
    let longer = CompactHash::from_string("11110000111100001111");
    let score = a.similarity(&longer);
    assert_eq!((score.matched, score.total), (16, 20));
    assert_eq!(a.similarity(&a).percent(), 100);
}

#[test]
fn integers_are_compared_bit_by_bit() {
    let a = CompactHash::from_string("ff");
    let b = CompactHash::from_string("0f");
    let score = a.similarity(&b);
    assert_eq!((score.matched, score.total), (60, 64));
    let all = CompactHash::from_string("ffffffffffffffff");
    let none = CompactHash::from_string("0");
    let score = all.similarity(&none);
    assert_eq!((score.matched, score.total), (0, 64));
}

#[test]
fn byte_strings_are_compared_by_value() {
    let a = CompactHash::from_string("hello world");
    let b = CompactHash::from_string("hello worle");
    let score = a.similarity(&b);
    assert_eq!((score.matched, score.total), (255 * 11 - 1, 255 * 11));
    let longer = CompactHash::from_string("hello world!");
    let score = a.similarity(&longer);
    assert_eq!((score.matched, score.total), (255 * 11, 255 * 12));
}

#[test]
fn different_forms_are_compared_by_their_characters() {
    let number = CompactHash::from_string("ff");
    let bytes = CompactHash::from_string("hello world");
    let score = number.similarity(&bytes);
    assert_eq!((score.matched, score.total), (0, 15));
    let a = CompactHash::from_string(&("eJ".to_string() + &"a".repeat(20) + "b"));
    let b = CompactHash::from_string(&("eJ".to_string() + &"b".repeat(20) + "c"));
    let score = a.similarity(&b);
    assert_eq!((score.matched, score.total), (3, 5));
    let empty = CompactHash::from_string("");
    let score = empty.similarity(&CompactHash::Text(String::new()));
    assert_eq!((score.matched, score.total), (0, 1));
}

#[test]
fn bucket_key_of_an_integer_is_multiplied_and_rotated() {
    let hash = CompactHash::from_string("1");
    assert_eq!(hash.lsh_bucket_key(0), 0x517c_c1b7_2722_0a95);
    assert_eq!(hash.lsh_bucket_key(4), 0x517c_c1b7_2722_0a95u64.rotate_left(4));
    assert_eq!(hash.lsh_bucket_key(64), 0x517c_c1b7_2722_0a95);
    assert_eq!(hash.lsh_bucket_key(1 << 32), 0x517c_c1b7_2722_0a95);
    let three = CompactHash::from_string("3");
    assert_eq!(three.lsh_bucket_key(1), 0x517c_c1b7_2722_0a95u64.wrapping_mul(3).rotate_left(1));
}

#[test]
fn bucket_key_of_a_bit_vector_hashes_the_first_64_bits() {
    let text = "10".repeat(40);
    let hash = CompactHash::from_string(&text);
    let seed = 0b1011u64;
    let mut hasher = DefaultHasher::new();
    for (i, c) in text.chars().take(64).enumerate() {
        let bit = if c == '1' { 1u8 } else { 0u8 };
        hasher.write_u8(bit ^ ((seed >> (i % 64)) as u8 & 1));
    }
    assert_eq!(hash.lsh_bucket_key(seed), hasher.finish());
    assert_ne!(hash.lsh_bucket_key(seed), hash.lsh_bucket_key(seed + 1));
}

#[test]
fn bucket_key_of_bytes_hashes_the_first_16() {
    let hash = CompactHash::from_string("the quick brown fox jumps");
    let seed = 0x1234_5678_9abc_def0u64;
    let mut hasher = DefaultHasher::new();
    for (i, &b) in b"the quick brown fox jumps".iter().enumerate().take(16) {
        hasher.write_u8(b ^ ((seed >> (i % 8)) as u8));
    }
    assert_eq!(hash.lsh_bucket_key(seed), hasher.finish());
}

#[test]
fn bucket_key_of_a_text_samples_its_characters() {
    let text = "eJ".to_string() + &"abcdefghij".repeat(20);
    let hash = CompactHash::from_string(&text);
    let seed = 77u64;
    let sample_size = text.len().min(64);
    let step = text.len() / sample_size;
    let mut hasher = DefaultHasher::new();
    for (i, c) in text.chars().step_by(step.max(1)).enumerate().take(sample_size) {
        hasher.write_u8((c as u8) ^ ((seed >> (i % 8)) as u8));
    }
    assert_eq!(hash.lsh_bucket_key(seed), hasher.finish());
}

#[test]
fn equality_compares_contents_or_texts() {
    let a = CompactHash::from_string("0101010101010101");
    let b = CompactHash::from_string("0101010101010101");
    let c = CompactHash::from_string("0101010101010100");
    assert!(a.same_as(&b));
    assert!(!a.same_as(&c));
    assert!(CompactHash::from_string("ff").same_as(&CompactHash::from_string("FF")));
    assert!(!CompactHash::from_string("ff").same_as(&CompactHash::from_string("fe")));
    assert!(CompactHash::from_string("hello world").same_as(&CompactHash::from_string("hello world")));
    assert!(!CompactHash::from_string("hello world").same_as(&CompactHash::from_string("hello")));
    // An integer equals the text of its sixteen digits.
    let number = CompactHash::from_string("ff");
    assert!(number.same_as(&CompactHash::Text("00000000000000ff".to_string())));
    assert!(!number.same_as(&CompactHash::Text("ff".to_string())));
}
