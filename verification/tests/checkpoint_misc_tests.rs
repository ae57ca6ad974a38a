use rust_recovery::checkpoint::{
    checkpoint_decode, checkpoint_encode, fingerprint, validate_resume, Checkpoint,
};
use rust_recovery::numa::{parse_cpu_list, parse_memory_size, NumaNode, NumaTopology};
use rust_recovery::recovery::{clean_file_content, extract_title, sanitize_filename};
use rust_recovery::types::FileType;
use rust_recovery::heatmap::DiskHeatmap;
use rust_recovery::report::{ProfessionalReportGenerator, RecoveredFile, ValidationStatus};

#[test]
fn test_checkpoint_round_trip() {
    let cp = Checkpoint::new(
        String::from("/tmp/image.bin"),
        String::from("0a0b0c"),
        128,
        String::from("step one"),
        1700000000,
    );
    let bytes = checkpoint_encode(&cp);
    let loaded = checkpoint_decode(&bytes).expect("own encoding must load");
    assert_eq!(loaded.version, 1);
    assert_eq!(loaded.timestamp, 1700000000);
    assert_eq!(loaded.image_path, "/tmp/image.bin");
    assert_eq!(loaded.image_hash, "0a0b0c");
    assert_eq!(loaded.position, 128);
    assert_eq!(loaded.state, "step one");
    // And the loaded snapshot re-encodes to the very same bytes.
    assert_eq!(checkpoint_encode(&loaded), bytes);
}

#[test]
fn test_checkpoint_rejects_garbage() {
    assert!(checkpoint_decode(b"not a checkpoint").is_none());
    assert!(checkpoint_decode(b"").is_none());
}

#[test]
fn test_resume_validation_detects_hash_mismatch() {
    let cp = Checkpoint::new(
        String::from("/tmp/image.bin"),
        String::from("invalid"),
        64,
        String::from(""),
        0,
    );
    let actual = fingerprint(b"example_data", 12);
    let validation = validate_resume("/tmp/image.bin", actual.as_str(), 1024, &cp);
    assert!(!validation.is_valid);
    assert!(validation.reason.unwrap_or_default().contains("hash"));
}

#[test]
fn test_resume_validation_checks_in_order() {
    let hash = fingerprint(b"example_data", 12);
    let cp = Checkpoint::new(
        String::from("/tmp/image.bin"),
        hash.clone(),
        64,
        String::from(""),
        0,
    );
    // Wrong path first.
    let v = validate_resume("/tmp/other.bin", hash.as_str(), 1024, &cp);
    assert!(!v.is_valid);
    assert!(v.reason.unwrap_or_default().contains("path"));
    // Position beyond the image.
    let v = validate_resume("/tmp/image.bin", hash.as_str(), 10, &cp);
    assert!(!v.is_valid);
    assert!(v.reason.unwrap_or_default().contains("position"));
    // All good.
    let v = validate_resume("/tmp/image.bin", hash.as_str(), 1024, &cp);
    assert!(v.is_valid);
}

#[test]
fn test_fingerprint_depends_on_length() {
    // Same head bytes, different image length: different fingerprints.
    let a = fingerprint(b"example_data", 12);
    let b = fingerprint(b"example_data", 13);
    assert_eq!(a.len(), 64);
    assert_ne!(a, b);
}

#[test]
fn test_parse_cpu_list() {
    assert_eq!(parse_cpu_list("0-3,8-11"), vec![0, 1, 2, 3, 8, 9, 10, 11]);
    assert_eq!(parse_cpu_list("0,2,4"), vec![0, 2, 4]);
}

#[test]
fn test_parse_memory_size() {
    let meminfo = "Node 0 MemTotal:       2048 kB\nNode 0 MemFree:        1024 kB\n";
    assert_eq!(parse_memory_size(meminfo), Some(2));
    assert_eq!(parse_memory_size("nothing here"), None);
}

#[test]
fn test_node_for_cpu_and_distribution() {
    let topo = NumaTopology {
        nodes: vec![
            NumaNode { node_id: 0, cpu_cores: vec![0, 1], memory_size_mb: 1024 },
            NumaNode { node_id: 1, cpu_cores: vec![2, 3], memory_size_mb: 1024 },
        ],
        total_cores: 4,
    };
    assert_eq!(topo.node_for_cpu(2), Some(1));
    assert_eq!(topo.node_for_cpu(9), None);
    let dist = topo.distribute_chunks(5);
    let total: usize = dist.iter().map(|(_, v)| v.len()).sum();
    assert_eq!(total, 5);
}

#[test]
fn test_cleaner_scrubs_controls() {
    let dirty = b"ab\x00cd\x01ef\n";
    let clean = clean_file_content(dirty, FileType::Txt);
    assert_eq!(&clean, b"abcd ef\n");
    // Unknown content passes through untouched.
    let raw = clean_file_content(dirty, FileType::Unknown);
    assert_eq!(&raw, dirty);
}

#[test]
fn test_sanitize_filename_caps() {
    let long = [b'a'; 80];
    let out = sanitize_filename(&long);
    assert_eq!(out.len(), 50);
    assert_eq!(&out[47..], b"...");
    let out = sanitize_filename(b"  a*b?c  ");
    assert_eq!(&out, b"abc");
}

#[test]
fn test_extract_title_html() {
    let html = b"<html><title>My Page</title></html>";
    let t = extract_title(html, FileType::Html).expect("title expected");
    assert_eq!(&t, b"My Page");
}

#[test]
fn test_heatmap_updates() {
    let mut map = DiskHeatmap::new(1000, String::from("img"), String::from("out"));
    assert_eq!(map.get_block_char(0), '\u{2591}');
    map.update_position(500, 1000);
    // Half the grid is marked scanned.
    assert_eq!(map.get_block_char(0), '\u{2592}');
    map.mark_found_data(0, 1000);
    assert_eq!(map.get_block_char(0), '\u{2588}');
}

#[test]
fn test_create_metadata() {
    let metadata =
        rust_recovery::report::create_report_metadata("test.img", "/output", "1.0.0", 7);
    assert_eq!(metadata.image_path, "test.img");
    assert_eq!(metadata.output_dir, "/output");
    assert_eq!(metadata.version, "1.0.0");
    assert_eq!(metadata.timestamp, 7);
}

#[test]
fn test_create_scan_results() {
    // One MiB image, half scanned, over ten seconds.
    let results = rust_recovery::report::create_scan_results(
        1024 * 1024,
        512 * 1024,
        5,
        10_000,
        false,
        true,
        false,
    );
    assert_eq!(results.image_size_kb, 1024);
    assert_eq!(results.bytes_scanned_kb, 512);
    assert_eq!(results.candidates_found, 5);
    assert_eq!(results.scan_time_ms, 10_000);
    // 512 KiB over 10 s: 51 KiB per second.
    assert_eq!(results.avg_speed_kbps, 51);
    assert!(results.exfat_enabled);
    assert!(!results.reverse_scan);
}

#[test]
fn test_recovery_stats_rate() {
    let file = |id: usize, status: ValidationStatus| RecoveredFile {
        id,
        filename: format!("f{}", id),
        file_type: FileType::Json,
        confidence: 900,
        size_kb: 4,
        sha256: String::new(),
        start_offset: 0,
        end_offset: 4096,
        validation_status: status,
    };
    let files = vec![
        file(0, ValidationStatus::Valid),
        file(1, ValidationStatus::MinorIssues),
        file(2, ValidationStatus::Failed),
        file(3, ValidationStatus::Valid),
    ];
    let generator = ProfessionalReportGenerator::new(String::from("/out"));
    let stats = generator.calculate_recovery_stats(&files);
    assert_eq!(stats.total_processed, 4);
    assert_eq!(stats.successful_recoveries, 3);
    assert_eq!(stats.failed_recoveries, 1);
    assert_eq!(stats.success_rate, 750);
    assert_eq!(stats.total_bytes_recovered, 4 * 4096);
}

#[test]
fn test_checkpoint_round_trip_with_escapes() {
    // Quotes and backslashes in the fields exercise the escape pairs.
    let cp = Checkpoint::new(
        String::from("C:\\images\\\"old\" set.bin"),
        String::from("ff\\00\"aa"),
        9000,
        String::from("phase \"two\""),
        1700000123,
    );
    let bytes = checkpoint_encode(&cp);
    let loaded = checkpoint_decode(&bytes).expect("own encoding must load");
    assert_eq!(loaded.image_path, "C:\\images\\\"old\" set.bin");
    assert_eq!(loaded.image_hash, "ff\\00\"aa");
    assert_eq!(loaded.state, "phase \"two\"");
    assert_eq!(loaded.position, 9000);
}
