//! Error kinds surfaced by the recovery engine.

use vstd::prelude::*;

verus! {

/// Main error type for the recovery engine.
///
/// Bounds violations on the image carry the offending offset and size so
/// callers can report exactly what was rejected.
#[derive(Debug, Clone, PartialEq, Eq)]
pub enum RecoveryError {
    /// An input/output failure, with the underlying message.
    Io(String),
    /// A memory-mapping failure.
    Mmap(String),
    /// The requested offset lies at or past the end of the image.
    InvalidOffset { offset: u64, image_size: u64 },
    /// The requested range overflows or runs past the end of the image.
    InvalidSize { offset: u64, size: u64, image_size: u64 },
    /// The named file does not exist.
    FileNotFound(String),
    /// A caller-supplied argument was rejected.
    InvalidArgument(String),
    /// A checkpoint or report could not be parsed.
    Parse(String),
    /// A configuration problem at startup or runtime.
    Config(String),
}

impl RecoveryError {
    /// A short, stable label for the error kind.
    pub fn kind_label(&self) -> (r: &'static str)
        ensures
            r@ =~= match self {
                RecoveryError::Io(_) => "io error"@,
                RecoveryError::Mmap(_) => "memory mapping error"@,
                RecoveryError::InvalidOffset { .. } => "invalid offset"@,
                RecoveryError::InvalidSize { .. } => "invalid size"@,
                RecoveryError::FileNotFound(_) => "file not found"@,
                RecoveryError::InvalidArgument(_) => "invalid argument"@,
                RecoveryError::Parse(_) => "parse error"@,
                RecoveryError::Config(_) => "configuration error"@,
            },
    {
        match self {
            RecoveryError::Io(_) => "io error",
            RecoveryError::Mmap(_) => "memory mapping error",
            RecoveryError::InvalidOffset { .. } => "invalid offset",
            RecoveryError::InvalidSize { .. } => "invalid size",
            RecoveryError::FileNotFound(_) => "file not found",
            RecoveryError::InvalidArgument(_) => "invalid argument",
            RecoveryError::Parse(_) => "parse error",
            RecoveryError::Config(_) => "configuration error",
        }
    }
}

/// Result type alias for recovery operations.
pub type RecoveryResult<T> = Result<T, RecoveryError>;

} // verus!
