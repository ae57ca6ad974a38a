//! Bounds-checked, zero-copy views over a memory-mapped disk image.
//!
//! Opening and mapping the file is input/output and happens outside the
//! library; the library receives the finished map and owns every bounds
//! decision over it.

use vstd::prelude::*;
use crate::error::{RecoveryError, RecoveryResult};
use crate::types::{Offset, Size};

verus! {

#[verifier::external_type_specification]
#[verifier::external_body]
pub struct ExMmap(memmap2::Mmap);

/// The bytes a memory map holds. A map never changes once made, so its
/// contents are a function of the map value.
pub uninterp spec fn mmap_bytes(m: &memmap2::Mmap) -> Seq<u8>;

/// Relies on `<Mmap as Deref>::deref`: the mapped bytes as a slice.
#[verifier::external_body]
fn mmap_as_slice(m: &memmap2::Mmap) -> (r: &[u8])
    ensures
        r@ == mmap_bytes(m),
{
    &m[..]
}

/// Relies on `Mmap::len`: the length of the mapped region.
#[verifier::external_body]
fn mmap_len(m: &memmap2::Mmap) -> (r: usize)
    ensures
        r == mmap_bytes(m).len(),
{
    m.len()
}

/// A zero-copy slice of image data together with its absolute offset.
#[derive(Debug)]
pub struct FragmentSlice<'a> {
    pub offset: Offset,
    pub data: &'a [u8],
}

impl<'a> FragmentSlice<'a> {
    /// Create a new fragment slice.
    pub fn new(offset: Offset, data: &'a [u8]) -> (r: Self)
        ensures
            r.offset == offset,
            r.data@ == data@,
    {
        FragmentSlice { offset, data }
    }

    /// The number of bytes in this fragment.
    pub fn size(&self) -> (r: Size)
        ensures
            r.0 == self.data@.len(),
    {
        Size::new(self.data.len() as u64)
    }
}

/// A memory-mapped disk image with its path and size.
pub struct DiskImage {
    pub mmap: memmap2::Mmap,
    pub size: Size,
    pub path: String,
}

impl DiskImage {
    /// The bytes of the image.
    pub open spec fn view(&self) -> Seq<u8> {
        mmap_bytes(&self.mmap)
    }

    /// The recorded size matches the map.
    pub open spec fn wf(&self) -> bool {
        self.size.0 == self.view().len()
    }

    /// Wrap a finished memory map; the caller did the opening and
    /// mapping.
    pub fn from_map(mmap: memmap2::Mmap, path: String) -> (r: DiskImage)
        ensures
            r.wf(),
            r.view() == mmap_bytes(&mmap),
            r.path@ == path@,
    {
        let size = Size::new(mmap_len(&mmap) as u64);
        DiskImage { mmap, size, path }
    }

    /// Total size of the image in bytes.
    pub fn size(&self) -> (r: Size)
        requires
            self.wf(),
        ensures
            r.0 == self.view().len(),
    {
        self.size
    }

    /// The path the image was opened from.
    pub fn path(&self) -> (r: &str)
        ensures
            r@ == self.path@,
    {
        self.path.as_str()
    }

    /// The whole image as one borrowed slice.
    pub fn as_bytes(&self) -> (r: &[u8])
        ensures
            r@ == self.view(),
    {
        mmap_as_slice(&self.mmap)
    }

    /// A borrowed, bounds-checked view of `len` bytes at `offset`.
    ///
    /// Fails with `InvalidOffset` when the offset is at or past the end
    /// of the image, and with `InvalidSize` when the range overflows or
    /// runs past the end; no byte is read in either case. On success
    /// the returned slice is exactly the requested range.
    pub fn get_slice(&self, offset: Offset, len: usize) -> (r: RecoveryResult<
        FragmentSlice<'_>,
    >)
        requires
            self.wf(),
        ensures
            offset.0 >= self.view().len() ==> r == Err::<FragmentSlice<'_>, RecoveryError>(
                RecoveryError::InvalidOffset { offset: offset.0, image_size: self.size.0 },
            ),
            offset.0 < self.view().len() && offset.0 + len > self.view().len() ==> r == Err::<
                FragmentSlice<'_>,
                RecoveryError,
            >(
                RecoveryError::InvalidSize {
                    offset: offset.0,
                    size: len as u64,
                    image_size: self.size.0,
                },
            ),
            offset.0 < self.view().len() && offset.0 + len <= self.view().len() ==> (r is Ok
                && r->Ok_0.offset == offset && r->Ok_0.data@ == self.view().subrange(
                offset.0 as int,
                offset.0 + len,
            )),
    {
        let offset_u64: u64 = offset.as_u64();
        let size_u64: u64 = self.size.as_u64();
        if offset_u64 >= size_u64 {
            return Err(
                RecoveryError::InvalidOffset { offset: offset_u64, image_size: size_u64 },
            );
        }
        let end_offset: u64 = match offset_u64.checked_add(len as u64) {
            Some(v) => v,
            None => {
                return Err(
                    RecoveryError::InvalidSize {
                        offset: offset_u64,
                        size: len as u64,
                        image_size: size_u64,
                    },
                );
            },
        };
        if end_offset > size_u64 {
            return Err(
                RecoveryError::InvalidSize {
                    offset: offset_u64,
                    size: len as u64,
                    image_size: size_u64,
                },
            );
        }
        let all: &[u8] = self.as_bytes();
        let total: usize = all.len();
        proof {
            assert(total == self.view().len());
        }
        let data: &[u8] = vstd::slice::slice_subrange(
            all,
            offset_u64 as usize,
            end_offset as usize,
        );
        Ok(FragmentSlice::new(offset, data))
    }
}

} // verus!
