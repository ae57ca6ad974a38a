//! Core data model: offsets, sizes, scan configuration, tokens,
//! fragments and scores.
//!
//! All scores are fixed-point integers: one score point is 1000
//! milli-points. Ratios (densities, confidences, similarities) run from 0
//! to 1000 milli.

use vstd::prelude::*;
use crate::smart_separation::ByteFrequency;

verus! {

/// Newtype wrapper for byte offsets in disk images.
#[derive(Debug, Clone, Copy, PartialEq, Eq, Structural, Hash)]
pub struct Offset(pub u64);

impl Offset {
    pub fn new(value: u64) -> (r: Self)
        ensures
            r.0 == value,
    {
        Offset(value)
    }

    pub fn as_u64(&self) -> (r: u64)
        ensures
            r == self.0,
    {
        self.0
    }

    /// Offset advanced by a size, `None` on `u64` overflow.
    pub fn checked_add(&self, size: Size) -> (r: Option<Offset>)
        ensures
            self.0 + size.0 <= u64::MAX ==> r == Some(Offset((self.0 + size.0) as u64)),
            self.0 + size.0 > u64::MAX ==> r is None,
    {
        match self.0.checked_add(size.0) {
            Some(v) => Some(Offset(v)),
            None => None,
        }
    }
}

/// Newtype wrapper for sizes in bytes.
#[derive(Debug, Clone, Copy, PartialEq, Eq, Structural, Hash)]
pub struct Size(pub u64);

impl Size {
    pub fn new(value: u64) -> (r: Self)
        ensures
            r.0 == value,
    {
        Size(value)
    }

    pub fn as_u64(&self) -> (r: u64)
        ensures
            r == self.0,
    {
        self.0
    }

    pub fn as_usize(&self) -> (r: Option<usize>)
        ensures
            self.0 <= usize::MAX ==> r == Some(self.0 as usize),
            self.0 > usize::MAX ==> r is None,
    {
        if self.0 <= usize::MAX as u64 {
            Some(self.0 as usize)
        } else {
            None
        }
    }
}

/// Newtype wrapper for exFAT cluster identifiers.
#[derive(Debug, Clone, Copy, PartialEq, Eq, Structural, Hash)]
pub struct ClusterId(pub u64);

impl ClusterId {
    pub fn new(value: u64) -> (r: Self)
        ensures
            r.0 == value,
    {
        ClusterId(value)
    }

    pub fn as_u64(&self) -> (r: u64)
        ensures
            r == self.0,
    {
        self.0
    }
}

/// Coarse file-type tag attached to fragments.
#[derive(Debug, Clone, Copy, PartialEq, Eq, Structural)]
pub enum FileType {
    Json,
    Html,
    Txt,
    Unknown,
}

impl FileType {
    /// Stable label for reports and file naming.
    pub fn label(&self) -> (r: &'static str)
        ensures
            r@ =~= match self {
                FileType::Json => "json"@,
                FileType::Html => "html"@,
                FileType::Txt => "txt"@,
                FileType::Unknown => "unknown"@,
            },
    {
        match self {
            FileType::Json => "json",
            FileType::Html => "html",
            FileType::Txt => "txt",
            FileType::Unknown => "unknown",
        }
    }
}

/// Scanner configuration.
///
/// `min_confidence` is in milli (1000 = certain).
#[derive(Debug, Clone)]
pub struct ScanConfig {
    /// Chunk size in bytes, always a positive multiple of 64.
    pub chunk_size: usize,
    /// Overlap between consecutive chunks, in bytes.
    pub overlap_size: usize,
    /// Number of worker threads (0 = auto).
    pub num_threads: usize,
    /// Deduplicate tokens by identifier.
    pub deduplicate: bool,
    /// Minimum token confidence kept, in milli.
    pub min_confidence: u32,
    /// Scan chunks back to front.
    pub reverse: bool,
    /// NVMe-oriented read pattern.
    pub nvme_optimization: bool,
}

/// The configuration a `ScanConfig` starts from.
pub open spec fn spec_default_scan_config() -> ScanConfig {
    ScanConfig {
        chunk_size: 0x10000000,
        overlap_size: 0x10000,
        num_threads: 0,
        deduplicate: true,
        min_confidence: 0,
        reverse: false,
        nvme_optimization: false,
    }
}

impl Default for ScanConfig {
    fn default() -> (r: Self)
        ensures
            r == spec_default_scan_config(),
    {
        ScanConfig {
            chunk_size: 0x10000000,
            overlap_size: 0x10000,
            num_threads: 0,
            deduplicate: true,
            min_confidence: 0,
            reverse: false,
            nvme_optimization: false,
        }
    }
}

impl ScanConfig {
    /// Build a configuration whose chunk size is aligned down to a
    /// 64-byte boundary, with a floor of one cache line.
    pub fn new(chunk_size: usize, overlap_size: usize, num_threads: usize) -> (r: Self)
        ensures
            r.chunk_size == if (chunk_size / 64) * 64 >= 64 { (chunk_size / 64) * 64 } else { 64int },
            r.chunk_size % 64 == 0,
            r.chunk_size >= 64,
            r.overlap_size == overlap_size,
            r.num_threads == num_threads,
            r.deduplicate == spec_default_scan_config().deduplicate,
            r.min_confidence == spec_default_scan_config().min_confidence,
            r.reverse == spec_default_scan_config().reverse,
            r.nvme_optimization == spec_default_scan_config().nvme_optimization,
    {
        let aligned: usize = (chunk_size / 64) * 64;
        let chunk: usize = if aligned >= 64 { aligned } else { 64 };
        assert(chunk % 64 == 0) by (nonlinear_arith)
            requires
                chunk == (chunk_size / 64) * 64 && chunk >= 64 || chunk == 64,
        ;
        ScanConfig {
            chunk_size: chunk,
            overlap_size,
            num_threads,
            deduplicate: true,
            min_confidence: 0,
            reverse: false,
            nvme_optimization: false,
        }
    }
}

/// Whether a byte is a legal token-identifier character:
/// ASCII alphanumeric, `-` or `_`.
pub open spec fn is_id_byte(b: u8) -> bool {
    (65 <= b && b <= 90) || (97 <= b && b <= 122) || (48 <= b && b <= 57) || b == 45
        || b == 95
}

/// A validated token identifier: exactly eleven characters drawn from
/// ASCII alphanumerics, `-` and `_`.
pub open spec fn valid_token_id(id: Seq<u8>) -> bool {
    id.len() == 11 && forall|i: int| 0 <= i < id.len() ==> is_id_byte(#[trigger] id[i])
}

/// A token found in the image: a URL-like byte string with a fixed-shape
/// identifier, an optional title, and its absolute offset.
///
/// `confidence` is the matched pattern's priority scaled to milli
/// (priority 10 becomes 1000).
#[derive(Debug, Clone)]
pub struct EnrichedLink {
    pub url: Vec<u8>,
    pub video_id: Vec<u8>,
    pub title: Option<String>,
    pub offset: u64,
    pub pattern_name: &'static str,
    pub confidence: u32,
}

impl EnrichedLink {
    /// Well-formedness: the identifier has the fixed shape and the
    /// confidence is a ratio in milli.
    pub open spec fn wf(&self) -> bool {
        valid_token_id(self.video_id@) && self.confidence <= 1000
    }

    pub fn new(
        url: Vec<u8>,
        video_id: Vec<u8>,
        offset: u64,
        pattern_name: &'static str,
        confidence: u32,
    ) -> (r: Self)
        ensures
            r.url == url,
            r.video_id == video_id,
            r.title is None,
            r.offset == offset,
            r.pattern_name == pattern_name,
            r.confidence == confidence,
    {
        EnrichedLink { url, video_id, title: None, offset, pattern_name, confidence }
    }
}

/// Result of a scan: the tokens found and how many bytes were visited.
#[derive(Debug)]
pub struct ScanResult {
    pub links: Vec<EnrichedLink>,
    pub bytes_scanned: u64,
}

impl ScanResult {
    pub fn empty() -> (r: Self)
        ensures
            r.links@.len() == 0,
            r.bytes_scanned == 0,
    {
        ScanResult { links: Vec::new(), bytes_scanned: 0 }
    }
}

/// Progress event emitted while scanning.
#[derive(Debug, Clone)]
pub enum ScanProgress {
    /// Bytes processed by one chunk.
    BytesScanned(u64),
    /// A chunk at this offset finished.
    ChunkCompleted(u64),
    /// A hot fragment was found.
    HotFragment(HotFragment),
    /// A non-fatal error in one chunk: offset and message.
    ChunkError(u64, String),
}

/// Aggregate statistics over one scan.
#[derive(Debug, Clone, PartialEq, Eq, Structural)]
pub struct ScanStats {
    pub total_chunks: usize,
    pub completed_chunks: usize,
    pub error_chunks: usize,
    pub bytes_processed: u64,
    pub links_found: usize,
    pub hot_fragments_found: usize,
}

impl ScanStats {
    pub fn new() -> (r: Self)
        ensures
            r.total_chunks == 0,
            r.completed_chunks == 0,
            r.error_chunks == 0,
            r.bytes_processed == 0,
            r.links_found == 0,
            r.hot_fragments_found == 0,
    {
        ScanStats {
            total_chunks: 0,
            completed_chunks: 0,
            error_chunks: 0,
            bytes_processed: 0,
            links_found: 0,
            hot_fragments_found: 0,
        }
    }

    /// Whole-number completion percentage, 0 when nothing was scheduled.
    pub fn completion_percentage(&self) -> (r: u64)
        requires
            self.completed_chunks <= self.total_chunks,
        ensures
            self.total_chunks == 0 ==> r == 0,
            self.total_chunks > 0 ==> r == self.completed_chunks * 100 / self.total_chunks as int,
            r <= 100,
    {
        if self.total_chunks == 0 {
            0
        } else {
            let wide: u128 = (self.completed_chunks as u128) * 100 / (self.total_chunks as u128);
            proof {
                assert(self.completed_chunks * 100 / (self.total_chunks as int) <= 100)
                    by (nonlinear_arith)
                    requires
                        0 < self.total_chunks,
                        self.completed_chunks <= self.total_chunks,
                ;
            }
            wide as u64
        }
    }
}

/// Fragment validation results and composite scoring.
///
/// `overall_score` is in milli-points and never negative.
#[derive(Debug, Clone)]
pub struct FragmentScore {
    pub overall_score: i64,
    pub is_valid_json: bool,
    pub is_valid_html: bool,
    pub is_valid_csv: bool,
    pub is_valid_youtube_url: bool,
    pub has_structured_text: bool,
    pub is_compressed: bool,
    pub reasons: Vec<&'static str>,
}

impl FragmentScore {
    /// Well-formedness: the score is clamped at zero and bounded well
    /// under the arithmetic range used by the assembler.
    pub open spec fn wf(&self) -> bool {
        0 <= self.overall_score <= 0x10000000000
    }

    pub fn default() -> (r: Self)
        ensures
            r.overall_score == 0,
            !r.is_valid_json,
            !r.is_valid_html,
            !r.is_valid_csv,
            !r.is_valid_youtube_url,
            !r.has_structured_text,
            !r.is_compressed,
            r.reasons@.len() == 0,
            r.wf(),
    {
        FragmentScore {
            overall_score: 0,
            is_valid_json: false,
            is_valid_html: false,
            is_valid_csv: false,
            is_valid_youtube_url: false,
            has_structured_text: false,
            is_compressed: false,
            reasons: Vec::new(),
        }
    }

    /// The fragment carries some recognised structure.
    pub fn is_valid_structure(&self) -> (r: bool)
        ensures
            r == (self.is_valid_json || self.is_valid_html || self.is_valid_csv
                || self.has_structured_text),
    {
        self.is_valid_json || self.is_valid_html || self.is_valid_csv || self.has_structured_text
    }

    /// Worth further processing: above 30 points and not compressed.
    pub fn is_processing_worthy(&self) -> (r: bool)
        ensures
            r == (self.overall_score > 30000 && !self.is_compressed),
    {
        self.overall_score > 30000 && !self.is_compressed
    }
}

/// A "hot" fragment detected during scanning.
///
/// `cyrillic_density` is in milli, `entropy` in 1/65536-bit units,
/// `target_score` in milli-points.
#[derive(Debug, Clone)]
pub struct HotFragment {
    pub offset: u64,
    pub size: usize,
    pub youtube_count: usize,
    pub cyrillic_density: u32,
    pub json_markers: usize,
    pub has_valid_json: bool,
    pub target_score: i64,
    pub file_type_guess: FileType,
    pub entropy: u32,
    pub entropy_category: &'static str,
    pub fragment_score: FragmentScore,
}

impl HotFragment {
    pub fn new(offset: u64, size: usize) -> (r: Self)
        ensures
            r.offset == offset,
            r.size == size,
            r.youtube_count == 0,
            r.cyrillic_density == 0,
            r.json_markers == 0,
            !r.has_valid_json,
            r.target_score == 0,
            r.file_type_guess == FileType::Unknown,
            r.entropy == 0,
            r.fragment_score.overall_score == 0,
    {
        HotFragment {
            offset,
            size,
            youtube_count: 0,
            cyrillic_density: 0,
            json_markers: 0,
            has_valid_json: false,
            target_score: 0,
            file_type_guess: FileType::Unknown,
            entropy: 0,
            entropy_category: "unknown",
            fragment_score: FragmentScore::default(),
        }
    }

    /// The fragment's size lies in the preferred 15 KiB to 350 KiB band.
    pub fn is_target_size(&self) -> (r: bool)
        ensures
            r == (15 * 1024 <= self.size && self.size <= 350 * 1024),
    {
        15 * 1024 <= self.size && self.size <= 350 * 1024
    }

    /// Structured, uncompressed and scored above 50 points.
    pub fn is_high_quality(&self) -> (r: bool)
        ensures
            r == ((self.fragment_score.is_valid_json || self.fragment_score.is_valid_html
                || self.fragment_score.is_valid_csv || self.fragment_score.has_structured_text)
                && self.fragment_score.overall_score > 50000 && !self.fragment_score.is_compressed),
    {
        self.fragment_score.is_valid_structure() && self.fragment_score.overall_score > 50000
            && !self.fragment_score.is_compressed
    }
}

/// Validation verdicts for a data chunk.
///
/// Confidences are in milli.
#[derive(Debug, Clone)]
pub struct ValidationResult {
    pub is_valid_json: bool,
    pub is_valid_youtube_url: bool,
    pub is_probably_json: bool,
    pub is_probably_youtube: bool,
    pub json_confidence: u32,
    pub url_confidence: u32,
}

impl ValidationResult {
    pub fn default() -> (r: Self)
        ensures
            !r.is_valid_json,
            !r.is_valid_youtube_url,
            !r.is_probably_json,
            !r.is_probably_youtube,
            r.json_confidence == 0,
            r.url_confidence == 0,
    {
        ValidationResult {
            is_valid_json: false,
            is_valid_youtube_url: false,
            is_probably_json: false,
            is_probably_youtube: false,
            json_confidence: 0,
            url_confidence: 0,
        }
    }
}

/// Fragment metadata entering stream assembly.
///
/// `base_score` is in milli-points; `links` holds the token URLs found
/// inside the fragment.
#[derive(Debug, Clone)]
pub struct StreamFragment {
    pub offset: u64,
    pub size: usize,
    pub base_score: i64,
    pub file_type: FileType,
    pub links: Vec<Vec<u8>>,
    pub feature_vector: ByteFrequency,
    pub fragment_score: FragmentScore,
}

impl StreamFragment {
    /// Well-formedness: scores bounded, the span fits in the address
    /// space, and the feature vector has its 256 bins.
    pub open spec fn wf(&self) -> bool {
        &&& 0 <= self.base_score <= 0x10000000000
        &&& self.fragment_score.wf()
        &&& self.offset + self.size <= u64::MAX
        &&& self.feature_vector.wf()
    }

    /// Build a fragment descriptor from raw bytes.
    pub fn from_bytes(
        offset: u64,
        data: &[u8],
        file_type: FileType,
        base_score: i64,
        fragment_score: FragmentScore,
    ) -> (r: Self)
        requires
            0 <= base_score <= 0x10000000000,
            fragment_score.wf(),
            offset + data@.len() <= u64::MAX,
            data@.len() <= 0x1_0000_0000_0000,
        ensures
            r.offset == offset,
            r.size == data@.len(),
            r.base_score == base_score,
            r.file_type == file_type,
            r.links@.len() == 0,
            r.feature_vector.models(data@),
            r.fragment_score == fragment_score,
            r.wf(),
    {
        StreamFragment {
            offset,
            size: data.len(),
            base_score,
            file_type,
            links: Vec::new(),
            feature_vector: ByteFrequency::from_bytes(data),
            fragment_score,
        }
    }

    /// Attach the token URLs found inside the fragment.
    pub fn with_links(self, links: Vec<Vec<u8>>) -> (r: Self)
        ensures
            r.links == links,
            r.offset == self.offset,
            r.size == self.size,
            r.base_score == self.base_score,
            r.file_type == self.file_type,
            r.feature_vector == self.feature_vector,
            r.fragment_score == self.fragment_score,
    {
        StreamFragment { links, ..self }
    }

    /// First byte past the fragment.
    pub fn end_offset(&self) -> (r: u64)
        requires
            self.offset + self.size <= u64::MAX,
        ensures
            r == self.offset + self.size,
    {
        self.offset + self.size as u64
    }

    /// Node score: base plus composite, in milli-points.
    pub fn total_score(&self) -> (r: i64)
        requires
            self.wf(),
        ensures
            r == self.base_score + self.fragment_score.overall_score,
    {
        self.base_score + self.fragment_score.overall_score
    }

    /// The fragment carries some recognised structure.
    pub fn has_valid_structure(&self) -> (r: bool)
        ensures
            r == (self.fragment_score.is_valid_json || self.fragment_score.is_valid_html
                || self.fragment_score.is_valid_csv || self.fragment_score.has_structured_text),
    {
        self.fragment_score.is_valid_structure()
    }
}

/// An assembled stream: an offset-ordered subset of the fragments with
/// its path score (milli-points) and per-fragment confidence.
#[derive(Debug, Clone)]
pub struct AssembledStream {
    pub fragments: Vec<StreamFragment>,
    pub confidence: i64,
    pub total_score: i64,
    pub reasons: Vec<String>,
}

/// Scoring weights for stream assembly, in milli-points.
///
/// `cosine_weight` and `jaccard_weight` multiply similarities that are
/// already in milli, so they are plain factors.
#[derive(Debug, Clone)]
pub struct StreamScoringWeights {
    pub max_gap: u64,
    pub max_overlap: u64,
    pub gap_penalty: i64,
    pub overlap_penalty: i64,
    pub type_match_bonus: i64,
    pub type_mismatch_penalty: i64,
    pub cosine_weight: i64,
    pub jaccard_weight: i64,
    pub structure_bonus: i64,
    pub min_edge_score: i64,
    pub max_lookback: usize,
}

/// The default assembly weights.
pub open spec fn spec_default_weights() -> StreamScoringWeights {
    StreamScoringWeights {
        max_gap: 1048576,
        max_overlap: 65536,
        gap_penalty: 15000,
        overlap_penalty: 20000,
        type_match_bonus: 8000,
        type_mismatch_penalty: 5000,
        cosine_weight: 25,
        jaccard_weight: 10,
        structure_bonus: 6000,
        min_edge_score: 5000,
        max_lookback: 200,
    }
}

impl StreamScoringWeights {
    /// Weights kept within ranges under which edge scores cannot
    /// overflow 64-bit arithmetic.
    pub open spec fn wf(&self) -> bool {
        &&& 0 <= self.gap_penalty <= 0x100000000
        &&& 0 <= self.overlap_penalty <= 0x100000000
        &&& 0 <= self.type_match_bonus <= 0x100000000
        &&& 0 <= self.type_mismatch_penalty <= 0x100000000
        &&& 0 <= self.cosine_weight <= 0x100000
        &&& 0 <= self.jaccard_weight <= 0x100000
        &&& 0 <= self.structure_bonus <= 0x100000000
        &&& -0x100000000 <= self.min_edge_score <= 0x100000000
    }
}

impl Default for StreamScoringWeights {
    fn default() -> (r: Self)
        ensures
            r == spec_default_weights(),
            r.wf(),
    {
        StreamScoringWeights {
            max_gap: 1048576,
            max_overlap: 65536,
            gap_penalty: 15000,
            overlap_penalty: 20000,
            type_match_bonus: 8000,
            type_mismatch_penalty: 5000,
            cosine_weight: 25,
            jaccard_weight: 10,
            structure_bonus: 6000,
            min_edge_score: 5000,
            max_lookback: 200,
        }
    }
}

/// A point-in-time copy of the scan counters.
#[derive(Debug, Clone, Copy, PartialEq, Eq, Structural)]
pub struct ScanStatsSnapshot {
    pub bytes_scanned: u64,
    pub links_found: usize,
    pub hot_fragments: usize,
    pub chunks_processed: usize,
    pub errors: usize,
}

impl ScanStatsSnapshot {
    pub fn new() -> (r: Self)
        ensures
            r.bytes_scanned == 0,
            r.links_found == 0,
            r.hot_fragments == 0,
            r.chunks_processed == 0,
            r.errors == 0,
    {
        ScanStatsSnapshot {
            bytes_scanned: 0,
            links_found: 0,
            hot_fragments: 0,
            chunks_processed: 0,
            errors: 0,
        }
    }
}

/// A scratch buffer for block processing.
#[derive(Debug)]
pub struct AlignedBuffer {
    pub data: Vec<u8>,
}

impl AlignedBuffer {
    /// A zeroed buffer of `size` bytes.
    pub fn new(size: usize) -> (r: Self)
        ensures
            r.data@.len() == size,
            forall|i: int| 0 <= i < size ==> r.data@[i] == 0,
    {
        let mut data: Vec<u8> = Vec::new();
        let mut i: usize = 0;
        while i < size
            invariant
                data@.len() == i <= size,
                forall|k: int| 0 <= k < i ==> data@[k] == 0,
            decreases size - i,
        {
            data.push(0);
            i = i + 1;
        }
        AlignedBuffer { data }
    }

    pub fn as_slice(&self) -> (r: &[u8])
        ensures
            r@ == self.data@,
    {
        self.data.as_slice()
    }

    pub fn as_mut_slice(&mut self) -> (r: &mut Vec<u8>)
        ensures
            *r == old(self).data,
            final(self).data == *final(r),
    {
        &mut self.data
    }
}

} // verus!
