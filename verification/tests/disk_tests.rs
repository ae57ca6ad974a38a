use rust_recovery::disk::DiskImage;
use rust_recovery::error::RecoveryError;
use rust_recovery::types::Offset;

fn image_of(bytes: &[u8]) -> DiskImage {
    let mut m = memmap2::MmapMut::map_anon(bytes.len().max(1)).expect("anonymous map");
    m[..bytes.len()].copy_from_slice(bytes);
    let mmap = m.make_read_only().expect("read-only map");
    DiskImage::from_map(mmap, String::from("anon"))
}

#[test]
fn test_get_slice_happy_path() {
    let img = image_of(b"0123456789abcdef");
    let s = img.get_slice(Offset::new(4), 4).expect("in range");
    assert_eq!(s.data, b"4567");
    assert_eq!(s.offset.as_u64(), 4);
    assert_eq!(img.size().as_u64(), 16);
}

#[test]
fn test_get_slice_rejects_bad_offset() {
    let img = image_of(b"0123456789abcdef");
    match img.get_slice(Offset::new(16), 1) {
        Err(RecoveryError::InvalidOffset { offset, image_size }) => {
            assert_eq!(offset, 16);
            assert_eq!(image_size, 16);
        },
        _ => panic!("expected an offset error"),
    }
}

#[test]
fn test_get_slice_rejects_bad_size() {
    let img = image_of(b"0123456789abcdef");
    match img.get_slice(Offset::new(8), 9) {
        Err(RecoveryError::InvalidSize { offset, size, image_size }) => {
            assert_eq!(offset, 8);
            assert_eq!(size, 9);
            assert_eq!(image_size, 16);
        },
        _ => panic!("expected a size error"),
    }
}
