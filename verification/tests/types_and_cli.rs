use rust_recovery::cli::Args;
use rust_recovery::types::{Offset, Size};
use rust_recovery::disk::FragmentSlice;
use rust_recovery::error::RecoveryError;

fn base_args() -> Args {
    Args {
        image: String::from("test.img"),
        target_size_min: 15,
        target_size_max: 300,
        reverse: false,
        nvme: false,
        early_exit: 0,
        output: String::from("output"),
        enable_exfat: false,
        no_live: false,
        links_only: false,
        chunk_min: 32,
        chunk_max: 2048,
        full_exfat_recovery: true,
        semantic_scan: false,
    }
}

#[test]
fn test_args_validation() {
    let args = base_args();
    assert!(args.validate().is_ok());
}

#[test]
fn test_invalid_size_range() {
    let mut args = base_args();
    args.target_size_min = 500;
    args.target_size_max = 300;
    assert!(args.validate().is_err());
}

#[test]
fn test_byte_conversions() {
    let args = base_args();
    assert_eq!(args.target_size_min_bytes(), 15 * 1024);
    assert_eq!(args.target_size_max_bytes(), 300 * 1024);
    assert_eq!(args.chunk_min_bytes(), 32 * 1024);
    assert_eq!(args.chunk_max_bytes(), 2048 * 1024);
}

#[test]
fn test_fragment_slice_creation() {
    let data = b"test data";
    let offset = Offset::new(100);
    let slice = FragmentSlice::new(offset, data);

    assert_eq!(slice.offset.as_u64(), 100);
    assert_eq!(slice.data, b"test data");
    assert_eq!(slice.size().as_u64(), 9);
}

#[test]
fn test_offset_checked_add() {
    let offset = Offset::new(100);
    let size = Size::new(50);
    let result = offset.checked_add(size);
    assert_eq!(result.unwrap().as_u64(), 150);

    let offset = Offset::new(u64::MAX);
    let size = Size::new(1);
    assert!(offset.checked_add(size).is_none());
}

#[test]
fn test_error_kind_labels() {
    let e = RecoveryError::InvalidOffset { offset: 7, image_size: 3 };
    assert_eq!(e.kind_label(), "invalid offset");
    let e = RecoveryError::Parse(String::from("bad"));
    assert_eq!(e.kind_label(), "parse error");
}
