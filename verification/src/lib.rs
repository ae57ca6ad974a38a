//! Forensic file-recovery engine for raw block-device images.
//!
//! The crate scans a memory-mapped image of a (possibly damaged) exFAT
//! volume for fragments of small textual artifacts, scores them, links
//! related fragments, and assembles ordered streams out of them.
//!
//! Scores, densities and similarities are fixed-point integers throughout:
//! one point of score is 1000 milli-points, a ratio of 1.0 is 1000 milli,
//! and entropy is carried in 1/65536-bit units.

pub mod types;
pub mod error;
pub mod numeric;
pub mod entropy;
pub mod exfat;
pub mod simd_search;
pub mod validator;
pub mod matcher;
pub mod fragment_linker;
pub mod stream_solver;
pub mod scanner;
pub mod disk;
pub mod cli;
pub mod numa;
pub mod recovery;
pub mod heatmap;
pub mod checkpoint;
pub mod report;
pub mod smart_separation;

pub use types::{Offset, Size, ClusterId, FileType};
pub use types::{ScanConfig, ScanResult, ScanProgress, ScanStats, HotFragment, EnrichedLink};
pub use types::{FragmentScore, ValidationResult};
pub use types::{StreamFragment, StreamScoringWeights, AssembledStream};
pub use error::RecoveryError;
