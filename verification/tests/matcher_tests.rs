use rust_recovery::matcher::{sha256_hash, to_hex_string, EnhancedMatcher};
use rust_recovery::validator::{is_valid_json, is_valid_video_id};
use rust_recovery::matcher::is_valid_youtube_url;
use rust_recovery::simd_search::{count_pattern_simd, find_pattern_simd, scan_block_simd};

#[test]
fn test_video_id_validation() {
    assert!(is_valid_video_id(b"dQw4w9WgXcQ"));
    assert!(is_valid_video_id(b"_-123456789"));
    assert!(!is_valid_video_id(b"short"));
    assert!(!is_valid_video_id(b"toolongvideo"));
    assert!(!is_valid_video_id(b"invalid$cha"));
}

#[test]
fn validator_test_video_id_validation() {
    assert!(is_valid_video_id(b"dQw4w9WgXcQ"));
    assert!(is_valid_video_id(b"_-123456789"));
    assert!(!is_valid_video_id(b"short"));
    assert!(!is_valid_video_id(b"toolongvideo"));
    assert!(!is_valid_video_id(b"invalid$cha"));
}

#[test]
fn test_json_validation() {
    // Valid JSON.
    assert!(is_valid_json(b"{\"key\": \"value\"}"));
    assert!(is_valid_json(b"[\"item1\", \"item2\"]"));
    assert!(is_valid_json(b"  {\"nested\": {\"data\": true}}  "));

    // Invalid JSON.
    assert!(!is_valid_json(b"not json"));
    assert!(!is_valid_json(b"{"));
    assert!(!is_valid_json(b""));
}

#[test]
fn test_youtube_url_validation() {
    // Valid platform URLs.
    assert!(is_valid_youtube_url(b"https://youtube.com/watch?v=dQw4w9WgXcQ"));
    assert!(is_valid_youtube_url(b"https://youtu.be/dQw4w9WgXcQ"));
    assert!(is_valid_youtube_url(b"https://www.youtube.com/watch?v=dQw4w9WgXcQ"));

    // Invalid URLs.
    assert!(!is_valid_youtube_url(b"not a url"));
    assert!(!is_valid_youtube_url(b"https://example.com"));
    assert!(!is_valid_youtube_url(b""));
}

#[test]
fn test_find_pattern_simd() {
    let haystack = b"youtube.com/watch?v=dQw4w9WgXcQ youtube.com/watch?v=abc123";
    let needle = b"youtube.com";

    let pos = find_pattern_simd(haystack, needle);
    assert_eq!(pos, Some(0));
}

#[test]
fn test_count_pattern_simd() {
    let haystack = b"youtube.com/watch?v=dQw4w9WgXcQ youtube.com/watch?v=abc123";
    let needle = b"youtube.com";

    let count = count_pattern_simd(haystack, needle);
    assert_eq!(count, 2);
}

#[test]
fn test_small_pattern() {
    let haystack = b"abcdefghijklmnop";
    let needle = b"def";

    let pos = find_pattern_simd(haystack, needle);
    assert_eq!(pos, Some(3));
}

#[test]
fn test_fast_scan_block() {
    let empty = [0u8; 32];
    let res = scan_block_simd(&empty);
    assert!(res.is_empty);
    assert!(!res.has_metadata);
    assert_eq!(res.hot_mask, 0);

    let mut meta = [0u8; 32];
    meta[0] = 0x85;
    let res = scan_block_simd(&meta);
    assert!(!res.is_empty);
    assert!(res.has_metadata);

    let mut hot = [0u8; 32];
    hot[0] = b'y';
    hot[1] = b'o';
    hot[2] = b'u';
    let res = scan_block_simd(&hot);
    assert!(!res.is_empty);
    assert!(res.hot_mask & 1 != 0);
}

#[test]
fn test_scan_chunk_finds_watch_token() {
    let text = b"see https://example.invalid/watch?v=dQw4w9WgXcQ now";
    let mut matcher = EnhancedMatcher::new();
    let links = matcher.scan_chunk(text, 0, true);
    assert_eq!(links.len(), 1);
    assert_eq!(&links[0].video_id, b"dQw4w9WgXcQ");
    assert_eq!(links[0].confidence, 1000);
    assert!(links[0].title.is_none());
}

#[test]
fn test_hex_encoding() {
    assert_eq!(to_hex_string(&[0x00, 0xAB, 0xFF]), "00abff");
}

#[test]
fn test_sha256_known_value() {
    // The well-known digest of "abc".
    let h = sha256_hash(b"abc");
    assert_eq!(
        h,
        "ba7816bf8f01cfea414140de5dae2223b00361a396177a9cb410ff61f20015ad"
    );
}

#[test]
fn test_csv_verdict_positive() {
    let data = b"a,b,c\n1,2,3\n4,5,6\n";
    assert!(rust_recovery::matcher::is_valid_csv(data));
}

#[test]
fn test_csv_verdict_negative() {
    // One line only: no second row to corroborate the header.
    assert!(!rust_recovery::matcher::is_valid_csv(b"a,b,c"));
    // No comma in the first line.
    assert!(!rust_recovery::matcher::is_valid_csv(b"abc\ndef\n"));
    // Not UTF-8.
    assert!(!rust_recovery::matcher::is_valid_csv(&[0xFF, 0xFE, 44, 10, 44]));
}

#[test]
fn test_title_extraction_bounds() {
    let page = b"<html><title>A readable page name</title></html> watch?v=dQw4w9WgXcQ";
    let title = rust_recovery::matcher::extract_title_from_context(page, 49);
    assert_eq!(title.as_deref(), Some("A readable page name"));
    // A platform-named title is rejected.
    let page2 = b"<title>YouTube</title> watch?v=dQw4w9WgXcQ";
    assert_eq!(rust_recovery::matcher::extract_title_from_context(page2, 23), None);
}
