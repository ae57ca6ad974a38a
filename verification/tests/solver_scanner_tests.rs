//! Scores are milli-points: 1000 milli-points are one point.

use rust_recovery::scanner::{create_chunks, deduplicate_links, ParallelScanner};
use rust_recovery::stream_solver::{assemble_streams_with_weights, assemble_streams};
use rust_recovery::types::{
    EnrichedLink, FileType, FragmentScore, ScanConfig, ScanProgress, StreamFragment,
    StreamScoringWeights,
};

fn make_fragment(offset: u64, data: &[u8], file_type: FileType) -> StreamFragment {
    StreamFragment::from_bytes(
        offset,
        data,
        file_type,
        10000,
        FragmentScore {
            overall_score: 40000,
            is_valid_json: file_type == FileType::Json,
            is_valid_html: file_type == FileType::Html,
            is_valid_csv: false,
            is_valid_youtube_url: false,
            has_structured_text: true,
            is_compressed: false,
            reasons: Vec::new(),
        },
    )
}

#[test]
fn test_stream_solver_separates_interleaved_streams() {
    let fragments = vec![
        make_fragment(0, b"aaaaaaaa", FileType::Json),
        make_fragment(50, b"zzzzzzzz", FileType::Html),
        make_fragment(140, b"aaaaaaab", FileType::Json),
        make_fragment(190, b"zzzzzzzy", FileType::Html),
    ];

    let weights = StreamScoringWeights {
        max_gap: 200,
        max_overlap: 20,
        ..StreamScoringWeights::default()
    };

    let streams = assemble_streams_with_weights(fragments, &weights, Some(2));
    assert_eq!(streams.len(), 2);

    let total_fragments: usize = streams.iter().map(|stream| stream.fragments.len()).sum();
    assert_eq!(total_fragments, 4);

    for stream in streams {
        let file_type = stream.fragments[0].file_type;
        assert!(stream.fragments.iter().all(|fragment| fragment.file_type == file_type));
    }
}

#[test]
fn test_single_fragment_stream_confidence() {
    let fragments = vec![make_fragment(0, b"aaaaaaaa", FileType::Json)];
    let streams = assemble_streams(fragments);
    assert_eq!(streams.len(), 1);
    assert_eq!(streams[0].fragments.len(), 1);
    // A single-fragment path's confidence is its whole score.
    assert_eq!(streams[0].confidence, streams[0].total_score);
    assert_eq!(streams[0].total_score, 50000);
}

#[test]
fn test_chunk_creation() {
    let chunks = create_chunks(5000, 0, 1024, 64);
    assert!(!chunks.is_empty());
    assert!(chunks[0].offset == 0);
    assert!(chunks[0].size > 0);
}

#[test]
fn test_chunk_alignment() {
    // Chunk size is aligned down to 64 bytes, with a floor of 64.
    let config = ScanConfig::new(100, 64, 0);
    assert_eq!(config.chunk_size % 64, 0);
    assert_eq!(config.chunk_size, 64);
}

#[test]
fn test_chunk_coverage_formula() {
    let chunks = create_chunks(5000, 0, 1024, 64);
    // Bases every 1024 bytes, each chunk reading 64 bytes ahead,
    // clipped at the end.
    assert_eq!(chunks.len(), 5);
    for (k, c) in chunks.iter().enumerate() {
        assert_eq!(c.offset, (k as u64) * 1024);
        let base = k * 1024;
        let want = if base + 1024 + 64 <= 5000 { 1024 + 64 } else { 5000 - base };
        assert_eq!(c.size, want);
    }
}

fn link(id: &str, offset: u64, confidence: u32, title: Option<&str>) -> EnrichedLink {
    let mut l = EnrichedLink::new(
        id.as_bytes().to_vec(),
        id.as_bytes().to_vec(),
        offset,
        "watch",
        confidence,
    );
    l.title = title.map(|t| t.to_string());
    l
}

#[test]
fn test_dedup_prefers_title_then_confidence() {
    let links = vec![
        link("aaaaaaaaaaa", 0, 600, None),
        link("aaaaaaaaaaa", 10, 500, Some("named")),
        link("bbbbbbbbbbb", 20, 500, None),
        link("bbbbbbbbbbb", 30, 900, None),
    ];
    let out = deduplicate_links(links);
    assert_eq!(out.len(), 2);
    for l in &out {
        if l.video_id == b"aaaaaaaaaaa" {
            assert!(l.title.is_some());
        } else {
            assert_eq!(l.confidence, 900);
        }
    }
}

#[test]
fn test_dedup_twice_is_stable() {
    let links = vec![
        link("aaaaaaaaaaa", 0, 600, None),
        link("aaaaaaaaaaa", 10, 500, Some("named")),
        link("bbbbbbbbbbb", 20, 500, None),
    ];
    let once = deduplicate_links(links);
    let twice = deduplicate_links(once.clone());
    assert_eq!(once.len(), twice.len());
    for (a, b) in once.iter().zip(twice.iter()) {
        assert_eq!(a.video_id, b.video_id);
        assert_eq!(a.offset, b.offset);
        assert_eq!(a.confidence, b.confidence);
    }
}

#[test]
fn test_empty_image_scan() {
    let scanner = ParallelScanner::new(ScanConfig::default());
    let data: Vec<u8> = Vec::new();
    let (result, hot, events, entries) = scanner.scan_streaming(&data, 0);
    assert_eq!(result.links.len(), 0);
    assert_eq!(result.bytes_scanned, 0);
    assert!(hot.is_empty());
    assert!(entries.is_empty());
    assert!(!events.iter().any(|e| matches!(e, ScanProgress::ChunkError(_, _))));
}

#[test]
fn test_zero_image_scan() {
    // One mebibyte of zero bytes: nothing hot, nothing found, every
    // byte visited.
    let scanner = ParallelScanner::new(ScanConfig::default());
    let data: Vec<u8> = vec![0u8; 1 << 20];
    let (result, hot, events, entries) = scanner.scan_streaming(&data, 0);
    assert_eq!(result.links.len(), 0);
    assert!(hot.is_empty());
    assert!(entries.is_empty());
    let mut scanned: u64 = 0;
    for e in &events {
        if let ScanProgress::BytesScanned(n) = e {
            scanned += n;
        }
    }
    assert_eq!(scanned, 1 << 20);
    assert!(!events.iter().any(|e| matches!(e, ScanProgress::ChunkError(_, _))));
}

#[test]
fn test_repeated_url_token() {
    // A few kibibytes of one repeated URL: exactly one token after
    // deduplication, at full confidence, with no title.
    let piece = b"https://example.invalid/watch?v=dQw4w9WgXcQ ";
    let mut data: Vec<u8> = Vec::new();
    while data.len() + piece.len() <= 4096 {
        data.extend_from_slice(piece);
    }
    let scanner = ParallelScanner::new(ScanConfig::default());
    let (result, _hot, _events, _entries) = scanner.scan_streaming(&data, 0);
    assert_eq!(result.links.len(), 1);
    assert_eq!(&result.links[0].video_id, b"dQw4w9WgXcQ");
    assert_eq!(result.links[0].confidence, 1000);
    assert!(result.links[0].title.is_none());
}

#[test]
fn test_distribution_balance() {
    let topo = rust_recovery::numa::NumaTopology {
        nodes: vec![
            rust_recovery::numa::NumaNode {
                node_id: 0,
                cpu_cores: vec![0, 1],
                memory_size_mb: 1024,
            },
            rust_recovery::numa::NumaNode {
                node_id: 1,
                cpu_cores: vec![2, 3],
                memory_size_mb: 1024,
            },
            rust_recovery::numa::NumaNode {
                node_id: 2,
                cpu_cores: vec![4, 5],
                memory_size_mb: 1024,
            },
        ],
        total_cores: 6,
    };
    let groups = topo.distribute_chunks(11);
    // 11 over 3 nodes: 4, 4, 3.
    assert_eq!(groups.len(), 3);
    assert_eq!(groups[0].1.len(), 4);
    assert_eq!(groups[1].1.len(), 4);
    assert_eq!(groups[2].1.len(), 3);
}
