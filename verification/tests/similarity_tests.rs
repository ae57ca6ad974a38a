//! Similarities are in milli: 1000 stands for a ratio of 1.0.

use rust_recovery::smart_separation::ByteFrequency;
use rust_recovery::fragment_linker::{
    distance_decay, find_related_groups, jaccard_similarity, ExFatMetadata, FragmentClusterer,
    FragmentDescriptor, FragmentInfo, FragmentLinker,
};
use rust_recovery::types::FileType;

fn set(items: &[&str]) -> Vec<Vec<u8>> {
    items.iter().map(|s| s.as_bytes().to_vec()).collect()
}

#[test]
fn test_feature_vector_normalization() {
    let vector = ByteFrequency::from_bytes(&[0, 0, 1, 1]);
    assert_eq!(vector.counts[0], 2);
    assert_eq!(vector.counts[1], 2);
    let sum: u64 = vector.counts.iter().sum();
    assert_eq!(sum, vector.total);
    assert_eq!(vector.total, 4);
}

#[test]
fn test_cosine_similarity_identical() {
    let data = b"aaaaaa";
    let vec_a = ByteFrequency::from_bytes(data);
    let vec_b = ByteFrequency::from_bytes(data);
    assert_eq!(vec_a.cosine_similarity(&vec_b), 1000);
}

#[test]
fn test_cosine_similarity_different() {
    let vec_a = ByteFrequency::from_bytes(&[0, 0, 0]);
    let vec_b = ByteFrequency::from_bytes(&[1, 1, 1]);
    assert_eq!(vec_a.cosine_similarity(&vec_b), 0);
}

#[test]
fn test_jaccard() {
    let s1 = set(&["a", "b"]);
    let s2 = set(&["b", "c"]);
    assert_eq!(jaccard_similarity(&s1, &s2), 333);
    assert_eq!(jaccard_similarity(&s1, &s1), 1000);
    let empty: Vec<Vec<u8>> = Vec::new();
    assert_eq!(jaccard_similarity(&s1, &empty), 0);
}

#[test]
fn test_empty_sets() {
    let s1: Vec<Vec<u8>> = Vec::new();
    let s2: Vec<Vec<u8>> = Vec::new();
    assert_eq!(jaccard_similarity(&s1, &s2), 0);
}

#[test]
fn test_jaccard_similarity() {
    let left = set(&["x", "y"]);
    let right = set(&["y", "z"]);
    assert_eq!(jaccard_similarity(&left, &right), 333);
}

#[test]
fn test_fragment_linker_scores_components() {
    let left = FragmentDescriptor::new(b"aaaaaa").with_links(set(&["a", "b"]));
    let right = FragmentDescriptor::new(b"aaaaaa").with_links(set(&["b", "c"]));

    let left = left.with_exfat_metadata(ExFatMetadata {
        filename: Some(String::from("clip.txt")),
        first_cluster: Some(2),
        size: Some(100),
    });
    let right = right.with_exfat_metadata(ExFatMetadata {
        filename: Some(String::from("clip.txt")),
        first_cluster: Some(3),
        size: Some(200),
    });

    let linker = FragmentLinker::default();
    let score = linker.score(&left, &right);

    assert_eq!(score.cosine_similarity, 1000);
    assert!(score.jaccard_similarity > 300);
    assert_eq!(score.exfat_similarity, 1000);
    // 1000 * 550 / 1000 + 333 * 250 / 1000 + 1000 * 200 / 1000.
    assert_eq!(score.total_score, 550 + 83 + 200);
}

#[test]
fn test_fragment_linker_respects_thresholds() {
    let left = FragmentDescriptor::new(b"aaaaaa");
    let right = FragmentDescriptor::new(b"bbbbbb");
    let linker = FragmentLinker::default();
    let score = linker.score(&left, &right);

    assert_eq!(score.cosine_similarity, 0);
    assert_eq!(score.total_score, 0);
}

#[test]
fn test_distance_decay_bounds() {
    // Zero distance keeps everything.
    assert_eq!(distance_decay(0, 10000), 1000);
    // One hundred mebibytes at factor 10 is e^(-10): essentially gone.
    assert!(distance_decay(100 * 1024 * 1024, 10000) < 100);
    // Ten mebibytes at factor 10 is e^(-1): a bit over a third.
    let d = distance_decay(10 * 1024 * 1024, 10000);
    assert!(d >= 360 && d <= 370);
}

#[test]
fn test_cluster_fragments_partition() {
    let mut clusterer = FragmentClusterer::new();
    // Two nearby lookalikes and one distant stranger.
    clusterer.add_fragment(0, b"the quick brown foxes jumped over lazy hounds", Vec::new());
    clusterer.add_fragment(100, b"the quick brown foxes jumped over lazy hounds", Vec::new());
    clusterer.add_fragment(1 << 33, b"\x01\x02\x03\x04\x05\x06\x07\x08", Vec::new());
    let clusters = clusterer.cluster_fragments();
    let total: usize = clusters.iter().map(|c| c.len()).sum();
    assert_eq!(total, 3);
    assert!(clusters.iter().any(|c| c == &vec![0, 1]));
    assert!(clusters.iter().any(|c| c == &vec![2]));
}

#[test]
fn test_find_related_groups_by_type_and_links() {
    let frag = |offset: u64, ft: FileType, links: &[&str]| FragmentInfo {
        offset,
        size: 8,
        file_type: ft,
        links: links.iter().map(|s| s.as_bytes().to_vec()).collect(),
    };
    let fragments = vec![
        frag(0, FileType::Json, &["a", "b"]),
        frag(50, FileType::Json, &["b", "c"]),
        frag(100, FileType::Html, &["a", "b"]),
    ];
    let groups = find_related_groups(&fragments, 300);
    let total: usize = groups.iter().map(|g| g.len()).sum();
    assert_eq!(total, 3);
    // Same type and a third of shared tokens: grouped. The other type
    // stays alone even with the same tokens.
    assert!(groups.iter().any(|g| g == &vec![0, 1]));
    assert!(groups.iter().any(|g| g == &vec![2]));
}
