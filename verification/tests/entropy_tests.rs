//! Entropy values are in 1/65536-bit fixed point: 65536 units are one
//! bit of entropy.

use rust_recovery::entropy::{
    calculate_shannon_entropy, get_entropy_category, is_compressed_like, is_structured_text,
};

#[test]
fn test_entropy_zero_data() {
    assert_eq!(calculate_shannon_entropy(b""), 0);
}

#[test]
fn test_entropy_uniform_data() {
    // All same byte should have zero entropy.
    let data = b"aaaaaaaaaaaaaaaaaaaa";
    assert_eq!(calculate_shannon_entropy(data), 0);
}

#[test]
fn test_entropy_random_data() {
    // Sixteen distinct bytes: high entropy, above 3 bits.
    let data = b"\x00\x01\x02\x03\x04\x05\x06\x07\x08\t\n\x0b\x0c\r\x0e\x0f";
    let entropy = calculate_shannon_entropy(data);
    assert!(entropy > 3 * 65536);
}

#[test]
fn test_entropy_text_data() {
    // English text should have medium entropy.
    let data = b"hello world this is a test";
    let entropy = calculate_shannon_entropy(data);
    assert!(entropy >= 3 * 65536 && entropy <= 6 * 65536);
}

#[test]
fn test_entropy_two_symbol_exact() {
    // Two equally likely symbols carry exactly one bit.
    assert_eq!(calculate_shannon_entropy(b"ab"), 65536);
    assert_eq!(calculate_shannon_entropy(b"aabb"), 65536);
}

#[test]
fn test_is_compressed_like() {
    // High entropy data should be flagged.
    let random_data: Vec<u8> = (0..200u32).map(|i| (i * 37 + 17) as u8).collect();
    assert!(is_compressed_like(&random_data));

    // Low entropy text should not be flagged.
    let text_data = b"hello world hello world hello world";
    assert!(!is_compressed_like(text_data));
}

#[test]
fn test_is_structured_text() {
    // Text should be identified as structured.
    let text_data = b"hello world this is a test of structured text";
    assert!(is_structured_text(text_data));

    // High entropy data should not be identified as structured text.
    let random_data: Vec<u8> = (0..100u32).map(|i| (i * 17 + 23) as u8).collect();
    assert!(!is_structured_text(&random_data));
}

#[test]
fn test_entropy_categories() {
    let uniform = b"aaaaaaaaaaaaaaaaaaaa";
    assert_eq!(get_entropy_category(uniform), "very_low_entropy_uniform");

    let text = b"hello world this is a test";
    let category = get_entropy_category(text);
    assert!(category == "structured_text" || category == "low_entropy_repetitive");
}

#[test]
fn test_entropy_exact_four_symbols() {
    // Four equally frequent symbols: exactly two bits.
    let mut data = Vec::new();
    for _ in 0..64 {
        data.extend_from_slice(&[0u8, 1, 2, 3]);
    }
    assert_eq!(calculate_shannon_entropy(&data), 2 * 65536);
}

#[test]
fn test_entropy_category_boundaries() {
    // Two symbols: exactly one bit, the top of the lowest bucket.
    let two: Vec<u8> = (0..128).map(|i| (i % 2) as u8).collect();
    assert_eq!(calculate_shannon_entropy(&two), 65536);
    assert_eq!(get_entropy_category(&two), "very_low_entropy_uniform");
    let four: Vec<u8> = (0..128).map(|i| (i % 4) as u8).collect();
    assert_eq!(get_entropy_category(&four), "low_entropy_repetitive");
}
