//! Command-line argument model and validation.
//!
//! The argument parser itself lives outside the library; this is the
//! validated model it fills in.

use vstd::prelude::*;

verus! {

/// Arguments of a recovery run. Sizes are in KiB.
#[derive(Debug, Clone)]
pub struct Args {
    /// Disk image file to scan.
    pub image: String,
    /// Minimum target file size in KiB.
    pub target_size_min: u64,
    /// Maximum target file size in KiB.
    pub target_size_max: u64,
    /// Scan from end to start.
    pub reverse: bool,
    /// Optimise for NVMe drives.
    pub nvme: bool,
    /// Stop after this many recovered files (0 = no limit).
    pub early_exit: usize,
    /// Output directory for recovered files.
    pub output: String,
    /// Enable exFAT metadata scanning.
    pub enable_exfat: bool,
    /// Disable the live dashboard.
    pub no_live: bool,
    /// Extract only tokens, skip binary chunks.
    pub links_only: bool,
    /// Minimum dynamic chunk size in KiB.
    pub chunk_min: u64,
    /// Maximum dynamic chunk size in KiB.
    pub chunk_max: u64,
    /// Follow FAT chains for full recovery.
    pub full_exfat_recovery: bool,
    /// Group candidates by semantic category.
    pub semantic_scan: bool,
}

/// Validity of the arguments: a non-empty image path, ordered positive
/// size and chunk ranges.
pub open spec fn spec_args_valid(a: &Args) -> bool {
    &&& a.image@.len() > 0
    &&& a.target_size_min <= a.target_size_max
    &&& a.target_size_min > 0
    &&& a.chunk_min <= a.chunk_max
    &&& a.chunk_min > 0
}

impl Args {
    /// Validate the arguments: `Ok` exactly when the image path is
    /// non-empty, both size ranges are ordered, and the minima are
    /// positive.
    pub fn validate(&self) -> (r: Result<(), String>)
        ensures
            r is Ok <==> spec_args_valid(self),
    {
        if self.image.as_str().unicode_len() == 0 {
            return Err(String::from_str("image path cannot be empty"));
        }
        if self.target_size_min > self.target_size_max {
            return Err(
                String::from_str("target-size-min cannot be greater than target-size-max"),
            );
        }
        if self.target_size_min == 0 {
            return Err(String::from_str("target-size-min must be greater than 0"));
        }
        if self.chunk_min > self.chunk_max {
            return Err(String::from_str("chunk-min cannot be greater than chunk-max"));
        }
        if self.chunk_min == 0 {
            return Err(String::from_str("chunk-min must be greater than 0"));
        }
        Ok(())
    }

    /// Minimum target size in bytes.
    pub fn target_size_min_bytes(&self) -> (r: u64)
        requires
            self.target_size_min * 1024 <= u64::MAX,
        ensures
            r == self.target_size_min * 1024,
    {
        self.target_size_min * 1024
    }

    /// Maximum target size in bytes.
    pub fn target_size_max_bytes(&self) -> (r: u64)
        requires
            self.target_size_max * 1024 <= u64::MAX,
        ensures
            r == self.target_size_max * 1024,
    {
        self.target_size_max * 1024
    }

    /// Minimum chunk size in bytes.
    pub fn chunk_min_bytes(&self) -> (r: u64)
        requires
            self.chunk_min * 1024 <= u64::MAX,
        ensures
            r == self.chunk_min * 1024,
    {
        self.chunk_min * 1024
    }

    /// Maximum chunk size in bytes.
    pub fn chunk_max_bytes(&self) -> (r: u64)
        requires
            self.chunk_max * 1024 <= u64::MAX,
        ensures
            r == self.chunk_max * 1024,
    {
        self.chunk_max * 1024
    }
}

} // verus!
