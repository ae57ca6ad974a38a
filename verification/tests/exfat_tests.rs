use rust_recovery::exfat::{
    extract_file_content, find_boot_sector, parse_entry_set, ExFatBootParams,
};

fn build_boot_sector() -> Vec<u8> {
    let mut data = vec![0u8; 512];
    data[3..11].copy_from_slice(b"EXFAT   ");
    data[108] = 9;
    data[109] = 0;
    data[80..84].copy_from_slice(&1u32.to_le_bytes());
    data[84..88].copy_from_slice(&1u32.to_le_bytes());
    data[88..92].copy_from_slice(&2u32.to_le_bytes());
    data[92..96].copy_from_slice(&8u32.to_le_bytes());
    data[96..100].copy_from_slice(&2u32.to_le_bytes());
    data
}

fn build_entry_set() -> Vec<u8> {
    let mut data = vec![0u8; 32 * 3];
    data[0] = 0x85;
    data[1] = 2;

    let stream_offset = 32;
    data[stream_offset] = 0xC0;
    data[stream_offset + 1] = 0x00;
    data[stream_offset + 3] = 5;
    data[stream_offset + 20..stream_offset + 24].copy_from_slice(&2u32.to_le_bytes());
    data[stream_offset + 24..stream_offset + 32].copy_from_slice(&10u64.to_le_bytes());

    let name_offset = 64;
    data[name_offset] = 0xC1;
    let name_chars: [u16; 5] = [b'h' as u16, b'e' as u16, b'l' as u16, b'l' as u16, b'o' as u16];
    for (i, ch) in name_chars.iter().enumerate() {
        let start = name_offset + 2 + i * 2;
        data[start..start + 2].copy_from_slice(&ch.to_le_bytes());
    }

    data
}

#[test]
fn test_find_boot_sector() {
    let data = build_boot_sector();
    let params = find_boot_sector(&data).expect("boot sector should be found");
    assert_eq!(params.sector_size, 512);
    assert_eq!(params.cluster_size, 512);
    assert_eq!(params.fat_offset, 512);
    assert_eq!(params.cluster_heap_offset, 1024);
    assert_eq!(params.cluster_count, 8);
    assert_eq!(params.root_dir_cluster, 2);
}

#[test]
fn test_parse_entry_set() {
    let data = build_entry_set();
    let (entry, consumed) = parse_entry_set(&data, 4096).expect("entry should parse");
    assert_eq!(consumed, 3);
    assert_eq!(entry.offset, 4096);
    assert_eq!(entry.filename, "hello");
    assert_eq!(entry.size, 10);
    assert_eq!(entry.first_cluster, 2);
    assert!(!entry.is_deleted);
}

#[test]
fn test_parse_entry_set_bounds() {
    let data = vec![0u8; 31];
    assert!(parse_entry_set(&data, 0).is_none());
}

#[test]
fn test_extract_file_content_chain() {
    let mut data = vec![0u8; 3072];
    let params = ExFatBootParams {
        sector_size: 512,
        cluster_size: 512,
        fat_offset: 512,
        fat_length_sectors: 1,
        cluster_heap_offset: 1024,
        cluster_count: 4,
        root_dir_cluster: 2,
        boot_sector_offset: 0,
    };

    let fat_cluster2_offset = 512 + 2 * 4;
    data[fat_cluster2_offset..fat_cluster2_offset + 4].copy_from_slice(&3u32.to_le_bytes());
    let fat_cluster3_offset = 512 + 3 * 4;
    data[fat_cluster3_offset..fat_cluster3_offset + 4]
        .copy_from_slice(&0xFFFFFFFFu32.to_le_bytes());

    let cluster2_offset = 1024;
    data[cluster2_offset..cluster2_offset + 5].copy_from_slice(b"hello");
    let cluster3_offset = 1536;
    data[cluster3_offset..cluster3_offset + 5].copy_from_slice(b"world");

    let content = extract_file_content(&data, &params, 2, 700, false);
    assert_eq!(&content[..5], b"hello");
    assert_eq!(&content[512..517], b"world");
}

#[test]
fn test_extract_rejects_reserved_cluster() {
    let data = vec![0u8; 2048];
    let params = ExFatBootParams {
        sector_size: 512,
        cluster_size: 512,
        fat_offset: 512,
        fat_length_sectors: 1,
        cluster_heap_offset: 1024,
        cluster_count: 4,
        root_dir_cluster: 2,
        boot_sector_offset: 0,
    };
    assert!(extract_file_content(&data, &params, 0, 100, false).is_empty());
    assert!(extract_file_content(&data, &params, 2, 0, false).is_empty());
}

#[test]
fn test_extract_terminates_on_cycle() {
    // Cluster 2 points back at itself; the walk must stop after one
    // cluster of output.
    let mut data = vec![0u8; 4096];
    let params = ExFatBootParams {
        sector_size: 512,
        cluster_size: 512,
        fat_offset: 512,
        fat_length_sectors: 1,
        cluster_heap_offset: 1024,
        cluster_count: 8,
        root_dir_cluster: 2,
        boot_sector_offset: 0,
    };
    let fat_cluster2_offset = 512 + 2 * 4;
    data[fat_cluster2_offset..fat_cluster2_offset + 4].copy_from_slice(&2u32.to_le_bytes());
    let content = extract_file_content(&data, &params, 2, 5000, false);
    assert_eq!(content.len(), 512);
}
