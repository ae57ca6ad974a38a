//! The scan pipeline: chunking, the per-chunk screen-and-score pass,
//! global token deduplication, and a sequential whole-image driver.
//!
//! Chunks are handed out in a plain list, so a caller may run the
//! per-chunk pass over them in any order or in parallel; the driver
//! here runs them in order and re-establishes the global offset order
//! afterwards.

use vstd::prelude::*;
use crate::types::{
    EnrichedLink, FileType, HotFragment, ScanConfig, ScanProgress, ScanResult, FragmentScore,
};
use crate::matcher::{
    calculate_fragment_score, cyrillic_density, count_json_markers_fast, distinct_ids,
    sorted_by_offset, sort_links_by_offset, spec_token_sound, EnhancedMatcher,
};
use crate::simd_search::pattern_at;

verus! {

/// One chunk of the image: its absolute offset and its length.
#[derive(Debug, Clone, Copy, PartialEq, Eq, Structural)]
pub struct ChunkInfo {
    pub offset: u64,
    pub size: usize,
}

/// The chunk list of a region of `len` bytes starting at `start`:
/// bases every `chunk` bytes, each chunk running `overlap` bytes into
/// the next, clipped at the end of the region.
pub open spec fn spec_chunk_at(
    start: u64,
    len: int,
    chunk: int,
    overlap: int,
    k: int,
) -> ChunkInfo {
    let base = k * chunk;
    let end = if base + chunk + overlap <= len {
        base + chunk + overlap
    } else {
        len
    };
    ChunkInfo { offset: (start + base) as u64, size: (end - base) as usize }
}

/// Cut `[0, len)` into chunks of `chunk_size` plus `overlap_size` of
/// lookahead.
///
/// Chunk `k` starts at `k * chunk_size` and runs to the next base plus
/// the overlap, clipped to the region; together the chunks cover the
/// whole region.
pub fn create_chunks(len: usize, start_offset: u64, chunk_size: usize, overlap_size: usize) -> (r:
    Vec<ChunkInfo>)
    requires
        chunk_size >= 1,
        overlap_size <= 0x10000000,
        start_offset + len <= u64::MAX,
    ensures
        forall|k: int|
            0 <= k < r@.len() ==> #[trigger] r@[k] == spec_chunk_at(
                start_offset,
                len as int,
                chunk_size as int,
                overlap_size as int,
                k,
            ),
        len == 0 ==> r@.len() == 0,
        len > 0 ==> r@.len() >= 1 && (r@.len() - 1) * chunk_size < len <= r@.len() * chunk_size,
        forall|k: int| 0 <= k < r@.len() ==> (#[trigger] r@[k]).size >= 1,
{
    let mut chunks: Vec<ChunkInfo> = Vec::new();
    let mut offset: usize = 0;
    proof {
        assert(chunks@.len() * chunk_size == 0) by (nonlinear_arith)
            requires
                chunks@.len() == 0,
        ;
    }
    while offset < len
        invariant
            chunk_size >= 1,
            overlap_size <= 0x10000000,
            start_offset + len <= u64::MAX,
            offset == chunks@.len() * chunk_size,
            offset < len + chunk_size,
            forall|k: int|
                0 <= k < chunks@.len() ==> #[trigger] chunks@[k] == spec_chunk_at(
                    start_offset,
                    len as int,
                    chunk_size as int,
                    overlap_size as int,
                    k,
                ),
            forall|k: int| 0 <= k < chunks@.len() ==> (#[trigger] chunks@[k]).size >= 1,
            chunks@.len() >= 1 ==> (chunks@.len() - 1) * chunk_size < len,
        decreases len - offset,
    {
        let remaining: usize = len - offset;
        let want: usize = if remaining <= chunk_size {
            remaining
        } else if chunk_size <= usize::MAX - overlap_size && chunk_size + overlap_size
            <= remaining {
            chunk_size + overlap_size
        } else {
            remaining
        };
        proof {
            assert((chunks@.len() + 1) * chunk_size == chunks@.len() * chunk_size + chunk_size)
                by (nonlinear_arith);
        }
        chunks.push(ChunkInfo { offset: start_offset + offset as u64, size: want });
        if len - offset <= chunk_size {
            proof {
                let kk = chunks@.len() - 1;
                assert(chunks@[kk] == spec_chunk_at(
                    start_offset,
                    len as int,
                    chunk_size as int,
                    overlap_size as int,
                    kk,
                ));
            }
            offset = len;
            proof {
                assert(len <= chunks@.len() * chunk_size);
            }
            return chunks;
        }
        offset = offset + chunk_size;
    }
    chunks
}

/// Guess a coarse file type from the first byte, falling back to a
/// scan for `http`.
pub fn guess_file_type_fast(data: &[u8]) -> (r: FileType)
    ensures
        data@.len() > 0 && (data@[0] == 123 || data@[0] == 91) ==> r == FileType::Json,
        data@.len() > 0 && data@[0] == 60 ==> r == FileType::Html,
        (data@.len() == 0 || !(data@[0] == 123 || data@[0] == 91 || data@[0] == 60)) ==> r == (
        if crate::validator::spec_contains(
            data@,
            seq![104u8, 116u8, 116u8, 112u8],
        ) {
            FileType::Txt
        } else {
            FileType::Unknown
        }),
{
    if data.len() > 0 {
        let first: u8 = data[0];
        if first == 123 || first == 91 {
            return FileType::Json;
        }
        if first == 60 {
            return FileType::Html;
        }
    }
    let mut http: Vec<u8> = Vec::new();
    http.push(104);
    http.push(116);
    http.push(116);
    http.push(112);
    proof {
        assert(http@ =~= seq![104u8, 116u8, 116u8, 112u8]);
    }
    if crate::validator::contains_needle(data, http.as_slice()) {
        return FileType::Txt;
    }
    FileType::Unknown
}

/// Sum of the byte counts announced on the event list.
pub open spec fn spec_event_bytes(events: Seq<ScanProgress>) -> int
    decreases events.len(),
{
    if events.len() == 0 {
        0
    } else {
        spec_event_bytes(events.drop_last()) + (match events.last() {
            ScanProgress::BytesScanned(n) => n as int,
            _ => 0,
        })
    }
}

/// The bytes of chunk `ci` of a scan region.
pub open spec fn spec_chunk_slice(data: Seq<u8>, start: u64, csize: int, cov: int, ci: int) -> Seq<
    u8,
> {
    let info = spec_chunk_at(start, data.len() - start, csize, cov, ci);
    data.subrange(info.offset as int, info.offset + info.size)
}

/// The chunk size a scan actually uses: the configured size, floored
/// at one byte.
pub open spec fn spec_csize(c: ScanConfig) -> int {
    if c.chunk_size >= 1 {
        c.chunk_size as int
    } else {
        1
    }
}

/// The overlap a scan actually uses: the configured overlap, capped.
pub open spec fn spec_cov(c: ScanConfig) -> int {
    if c.overlap_size <= 0x10000000 {
        c.overlap_size as int
    } else {
        0x10000000
    }
}

/// The composed fragment score of a chunk, with `yc` counted tokens:
/// all other verdict inputs are functions of the bytes.
pub open spec fn spec_slice_score(sl: Seq<u8>, yc: int) -> int {
    crate::matcher::spec_fragment_score_value(
        sl,
        yc,
        crate::matcher::spec_cyr_milli(sl),
        crate::matcher::spec_json_markers(sl, sl.len() as int) > 0,
        crate::validator::spec_json_verdict(sl),
        crate::matcher::spec_url_verdict(sl),
    )
}

/// The descriptor of chunk `ci` of a scan region.
pub open spec fn spec_chunk_info(data: Seq<u8>, start: u64, c: ScanConfig, ci: int) -> ChunkInfo {
    spec_chunk_at(start, data.len() - start, spec_csize(c), spec_cov(c), ci)
}

/// The fragment reports some chunk of the region: right offset and
/// size, a non-zero byte, and the composed score above the floor.
pub open spec fn spec_hot_one(h: HotFragment, data: Seq<u8>, start: u64, c: ScanConfig) -> bool {
    exists|ci: int|
        #![trigger spec_chunk_info(data, start, c, ci)]
        {
            let sl = spec_chunk_slice(data, start, spec_csize(c), spec_cov(c), ci);
            &&& 0 <= ci
            &&& ci * spec_csize(c) < data.len() - start
            &&& h.offset == spec_chunk_info(data, start, c, ci).offset
            &&& h.size == spec_chunk_info(data, start, c, ci).size
            &&& !all_zero(sl)
            &&& h.target_score == spec_slice_score(sl, h.youtube_count as int)
            &&& h.target_score > 20000
        }
}

/// Every fragment of the list names a chunk of the region and carries
/// the statistics that forced its emission.
pub open spec fn spec_hot_sound(
    hots: Seq<HotFragment>,
    data: Seq<u8>,
    start: u64,
    c: ScanConfig,
) -> bool {
    forall|j: int|
        0 <= j < hots.len() ==> spec_hot_one(#[trigger] hots[j], data, start, c)
}

/// Some fragment of the list reports chunk `ci`.
pub open spec fn spec_hot_at(
    hots: Seq<HotFragment>,
    data: Seq<u8>,
    start: u64,
    c: ScanConfig,
    ci: int,
) -> bool {
    exists|j: int|
        0 <= j < hots.len() && (#[trigger] hots[j]).offset == spec_chunk_info(
            data,
            start,
            c,
            ci,
        ).offset
}

/// Every chunk of the region whose composed score clears the floor
/// even with no tokens counted has a fragment in the list.
pub open spec fn spec_hot_complete(
    hots: Seq<HotFragment>,
    data: Seq<u8>,
    start: u64,
    c: ScanConfig,
) -> bool {
    forall|ci: int|
        #![trigger spec_chunk_slice(data, start, spec_csize(c), spec_cov(c), ci)]
        (0 <= ci && ci * spec_csize(c) < data.len() - start && !all_zero(
            spec_chunk_slice(data, start, spec_csize(c), spec_cov(c), ci),
        ) && spec_slice_score(
            spec_chunk_slice(data, start, spec_csize(c), spec_cov(c), ci),
            0,
        ) > 20000) ==> spec_hot_at(hots, data, start, c, ci)
}

/// Sum of the sizes of the first `n` chunks.
pub open spec fn spec_chunks_bytes(chunks: Seq<ChunkInfo>, n: int) -> int
    decreases n,
{
    if n <= 0 {
        0
    } else {
        spec_chunks_bytes(chunks, n - 1) + chunks[n - 1].size
    }
}

/// A 64-aligned window of the chunk opens with the entry marker.
pub open spec fn spec_has_marker(data: Seq<u8>) -> bool {
    exists|i: int| 0 <= i < data.len() && i % 64 == 0 && data[i] == 0x85
}

/// The whole chunk is zero bytes.
pub open spec fn all_zero(data: Seq<u8>) -> bool {
    forall|i: int| 0 <= i < data.len() ==> #[trigger] data[i] == 0
}

/// No token can be sound for an all-zero chunk: every pattern anchor
/// starts with a non-zero byte.
pub proof fn lemma_no_token_in_zeros(l: EnrichedLink, data: Seq<u8>, base: int)
    requires
        all_zero(data),
    ensures
        !spec_token_sound(l, data, base),
{
    if spec_token_sound(l, data, base) {
        let (k, p) = choose|k: int, p: int|
            {
                let nd = crate::matcher::spec_pattern_needle(k);
                0 <= k < 7 && #[trigger] crate::matcher::token_match_at(data, k, p)
                    && l.video_id@ =~= data.subrange(p + nd.len(), p + nd.len() + 11)
                    && l.confidence == crate::matcher::spec_pattern_priority(k) * 100
                    && (exists|u: int|
                    0 <= u <= p && l.offset == base + u && (forall|q: int|
                        u <= q < p ==> crate::matcher::is_url_byte(#[trigger] data[q]))
                        && l.url@ =~= #[trigger] data.subrange(u, p + nd.len() + 11))
            };
        let nd = crate::matcher::spec_pattern_needle(k);
        assert(pattern_at(data, nd, p));
        assert(data[p] == nd[0]);
        assert(nd[0] != 0);
    }
}

/// Per-chunk screen and score: run the token matcher, accumulate the
/// block statistics, compute the composite score, and emit a hot
/// fragment when the chunk scores above the floor and is not empty.
pub struct ParallelScanner {
    pub config: ScanConfig,
    pub enhanced_matcher: EnhancedMatcher,
}

impl ParallelScanner {
    /// A scanner over the given configuration.
    pub fn new(config: ScanConfig) -> (r: Self)
        ensures
            r.config == config,
            r.enhanced_matcher.seen_ids@.len() == 0,
    {
        ParallelScanner { config, enhanced_matcher: EnhancedMatcher::new() }
    }

    /// A scanner reusing a prepared matcher.
    pub fn with_matcher(config: ScanConfig, matcher: EnhancedMatcher) -> (r: Self)
        ensures
            r.config == config,
            r.enhanced_matcher == matcher,
    {
        ParallelScanner { config, enhanced_matcher: matcher }
    }

    /// Scan one chunk with a scan-local matcher.
    ///
    /// Every returned token comes from a pattern match inside the chunk;
    /// a hot fragment comes back only when the composite score is above
    /// the 20-point floor and the chunk holds a non-zero byte. When a
    /// 64-aligned window starts with the entry marker, the chunk is
    /// also swept for directory entry sets, each returned entry
    /// denoting a well-formed set inside the chunk.
    pub fn scan_chunk_with_matcher(
        &self,
        chunk_data: &[u8],
        offset: u64,
        matcher: EnhancedMatcher,
    ) -> (r: (Vec<EnrichedLink>, Option<HotFragment>, Vec<crate::exfat::ExFatEntry>))
        requires
            offset + chunk_data@.len() <= u64::MAX,
            offset + chunk_data@.len() <= usize::MAX,
            chunk_data@.len() <= 0x1_0000_0000_0000,
        ensures
            forall|l: EnrichedLink|
                #[trigger] r.0@.contains(l) ==> spec_token_sound(l, chunk_data@, offset as int)
                    && l.wf(),
            sorted_by_offset(r.0@),
            self.config.deduplicate ==> distinct_ids(r.0@),
            all_zero(chunk_data@) ==> r.1 is None && r.0@.len() == 0 && r.2@.len() == 0,
            r.1 is Some ==> r.1->0.offset == offset && r.1->0.size == chunk_data@.len()
                && r.1->0.fragment_score.overall_score > 20000 && r.1->0.target_score == r.1
                ->0.fragment_score.overall_score,
            forall|k: int|
                0 <= k < r.2@.len() ==> crate::exfat::spec_entry_found(
                    #[trigger] r.2@[k],
                    chunk_data@,
                    offset as int,
                ),
            // Token completeness: the first match at every position
            // survives, unless deduplication drops an identifier the
            // matcher already carried.
            forall|p: int|
                0 <= p < chunk_data@.len() && #[trigger] crate::matcher::spec_first_pattern(
                    chunk_data@,
                    p,
                ) < 7 ==> (crate::matcher::spec_id_in(
                    r.0@,
                    crate::matcher::spec_id_at(chunk_data@, p),
                ) || (self.config.deduplicate && crate::matcher::spec_id_in_set(
                    matcher.seen_ids@,
                    crate::matcher::spec_id_at(chunk_data@, p),
                ))),
            // The structure sweep runs exactly when a 64-aligned
            // window opens with the entry marker.
            !spec_has_marker(chunk_data@) ==> r.2@.len() == 0,
            // Hot-fragment emission, both ways: a fragment comes back
            // exactly when the chunk holds a non-zero byte and the
            // composed score clears the 20-point floor.
            r.1 is Some <==> (!all_zero(chunk_data@) && spec_slice_score(
                chunk_data@,
                r.0@.len() as int,
            ) > 20000),
            // An emitted fragment carries the statistics that forced
            // the emission.
            r.1 is Some ==> r.1->0.youtube_count == r.0@.len() && r.1->0.cyrillic_density
                == crate::matcher::spec_cyr_milli(chunk_data@) && r.1->0.json_markers
                == crate::matcher::spec_json_markers(chunk_data@, chunk_data@.len() as int)
                && r.1->0.has_valid_json == crate::validator::spec_json_verdict(chunk_data@)
                && r.1->0.fragment_score.overall_score == spec_slice_score(
                chunk_data@,
                r.0@.len() as int,
            ),
    {
        let mut m: EnhancedMatcher = matcher;
        let links: Vec<EnrichedLink> = m.scan_chunk(
            chunk_data,
            offset as usize,
            self.config.deduplicate,
        );
        proof {
            if all_zero(chunk_data@) {
                if links@.len() > 0 {
                    assert(links@.contains(links@[0]));
                    lemma_no_token_in_zeros(links@[0], chunk_data@, offset as int);
                }
            }
        }
        let youtube_count: usize = links.len();
        // Block statistics over the chunk.
        let mut is_empty: bool = true;
        let mut has_metadata: bool = false;
        let mut i: usize = 0;
        let n: usize = chunk_data.len();
        while i < n
            invariant
                n == chunk_data@.len(),
                i <= n,
                is_empty == (forall|q: int| 0 <= q < i ==> #[trigger] chunk_data@[q] == 0),
                all_zero(chunk_data@) ==> !has_metadata,
                has_metadata == (exists|q: int|
                    0 <= q < i && q % 64 == 0 && #[trigger] chunk_data@[q] == 0x85),
            decreases n - i,
        {
            if chunk_data[i] != 0 {
                is_empty = false;
            }
            if i % 64 == 0 && chunk_data[i] == 0x85 {
                has_metadata = true;
            }
            i = i + 1;
        }
        // Opportunistic structure pass: only when some 64-aligned
        // window opens with the entry marker.
        let entries: Vec<crate::exfat::ExFatEntry> = if has_metadata {
            crate::exfat::scan_for_entries(chunk_data, offset)
        } else {
            Vec::new()
        };
        let json_markers: usize = count_json_markers_fast(chunk_data);
        let cyr: u32 = cyrillic_density(chunk_data);
        let fragment_score: FragmentScore = calculate_fragment_score(
            chunk_data,
            youtube_count,
            cyr,
            json_markers,
        );
        let target_score: i64 = fragment_score.overall_score;
        proof {
            assert(is_empty == all_zero(chunk_data@));
            assert(fragment_score.overall_score == spec_slice_score(
                chunk_data@,
                youtube_count as int,
            ));
        }
        let hot: Option<HotFragment> = if target_score > 20000 && !is_empty {
            let file_type: FileType = guess_file_type_fast(chunk_data);
            let entropy: u64 = crate::entropy::calculate_shannon_entropy(chunk_data);
            let category: &'static str = crate::entropy::get_entropy_category(chunk_data);
            let mut fragment: HotFragment = HotFragment::new(offset, chunk_data.len());
            fragment.youtube_count = youtube_count;
            fragment.cyrillic_density = cyr;
            fragment.json_markers = json_markers;
            fragment.has_valid_json = fragment_score.is_valid_json;
            fragment.target_score = target_score;
            fragment.file_type_guess = file_type;
            fragment.entropy = if entropy <= u32::MAX as u64 {
                entropy as u32
            } else {
                u32::MAX
            };
            fragment.entropy_category = category;
            fragment.fragment_score = fragment_score;
            Some(fragment)
        } else {
            None
        };
        (links, hot, entries)
    }

    /// Scan a whole region sequentially, chunk by chunk, gathering the
    /// tokens, the hot fragments, and the progress events a streaming
    /// consumer would see.
    ///
    /// On an all-zero region no hot fragment is emitted and no token is
    /// found. Tokens come back in offset order; with deduplication on,
    /// identifiers are globally unique.
    #[verifier::rlimit(100)]
    pub fn scan_streaming(&self, data: &[u8], start: u64) -> (r: (
        ScanResult,
        Vec<HotFragment>,
        Vec<ScanProgress>,
        Vec<crate::exfat::ExFatEntry>,
    ))
        requires
            data@.len() <= 0x1_0000_0000_0000,
            data@.len() <= usize::MAX,
            start <= data@.len(),
        ensures
            r.0.bytes_scanned == data@.len() - start,
            sorted_by_offset(r.0.links@),
            self.config.deduplicate ==> distinct_ids(r.0.links@),
            all_zero(data@) ==> r.1@.len() == 0 && r.0.links@.len() == 0 && r.3@.len() == 0,
            // The sequential driver never reports a chunk error.
            forall|j: int| 0 <= j < r.2@.len() ==> !((#[trigger] r.2@[j]) is ChunkError),
            // An empty region emits no events at all.
            start == data@.len() ==> r.2@.len() == 0,
            // An all-zero region emits no hot-fragment events.
            all_zero(data@) ==> forall|j: int|
                0 <= j < r.2@.len() ==> !((#[trigger] r.2@[j]) is HotFragment),
            // A region within one chunk announces exactly its bytes.
            data@.len() - start <= spec_csize(self.config) ==> spec_event_bytes(r.2@) == data@.len()
                - start,
            // Hot-fragment soundness: every reported fragment names a
            // chunk of this scan and carries the statistics that
            // forced its emission.
            spec_hot_sound(r.1@, data@, start, self.config),
            // Hot-fragment emission: a chunk whose composed score
            // clears the floor even with no tokens counted always
            // reports a fragment.
            spec_hot_complete(r.1@, data@, start, self.config),
            // Token completeness: with no confidence floor, the first
            // match at every position of every chunk leaves its
            // identifier in the final list.
            self.config.min_confidence == 0 ==> (forall|ci: int, p: int|
                (0 <= ci && ci * spec_csize(self.config) < data@.len() - start
                    && #[trigger] crate::matcher::spec_first_pattern(
                    spec_chunk_slice(
                        data@,
                        start,
                        spec_csize(self.config),
                        spec_cov(self.config),
                        ci,
                    ),
                    p,
                ) < 7) ==> crate::matcher::spec_id_in(
                    r.0.links@,
                    crate::matcher::spec_id_at(
                        spec_chunk_slice(
                            data@,
                            start,
                            spec_csize(self.config),
                            spec_cov(self.config),
                            ci,
                        ),
                        p,
                    ),
                )),
    {
        let region_len: usize = data.len() - start as usize;
        let chunk_size: usize = if self.config.chunk_size >= 1 {
            self.config.chunk_size
        } else {
            1
        };
        let overlap: usize = if self.config.overlap_size as u64 <= 0x10000000 {
            self.config.overlap_size
        } else {
            0x10000000
        };
        let chunks: Vec<ChunkInfo> = create_chunks(region_len, start, chunk_size, overlap);
        let mut all_links: Vec<EnrichedLink> = Vec::new();
        let mut hot_fragments: Vec<HotFragment> = Vec::new();
        let mut events: Vec<ScanProgress> = Vec::new();
        let mut all_entries: Vec<crate::exfat::ExFatEntry> = Vec::new();
        let mut ci: usize = 0;
        while ci < chunks.len()
            invariant
                data@.len() <= 0x1_0000_0000_0000,
                data@.len() <= usize::MAX,
                start <= data@.len(),
                region_len == data@.len() - start,
                ci <= chunks@.len(),
                forall|k: int|
                    0 <= k < chunks@.len() ==> #[trigger] chunks@[k] == spec_chunk_at(
                        start,
                        region_len as int,
                        chunk_size as int,
                        overlap as int,
                        k,
                    ),
                chunks@.len() >= 1 ==> (chunks@.len() - 1) * chunk_size < region_len,
                region_len <= chunks@.len() * chunk_size,
                chunk_size >= 1,
                chunk_size == spec_csize(self.config),
                overlap == spec_cov(self.config),
                forall|l: EnrichedLink| #[trigger] all_links@.contains(l) ==> l.wf(),
                all_zero(data@) ==> hot_fragments@.len() == 0 && all_links@.len() == 0
                    && all_entries@.len() == 0,
                forall|j: int| 0 <= j < events@.len() ==> !((#[trigger] events@[j]) is ChunkError),
                all_zero(data@) ==> forall|j: int|
                    0 <= j < events@.len() ==> !((#[trigger] events@[j]) is HotFragment),
                spec_event_bytes(events@) == spec_chunks_bytes(chunks@, ci as int),
                chunks@.len() == 0 ==> events@.len() == 0,
                spec_hot_sound(hot_fragments@, data@, start, self.config),
                forall|cj: int|
                    #![trigger spec_chunk_slice(data@, start, spec_csize(self.config), spec_cov(self.config), cj)]
                    (0 <= cj < ci && !all_zero(
                        spec_chunk_slice(
                            data@,
                            start,
                            spec_csize(self.config),
                            spec_cov(self.config),
                            cj,
                        ),
                    ) && spec_slice_score(
                        spec_chunk_slice(
                            data@,
                            start,
                            spec_csize(self.config),
                            spec_cov(self.config),
                            cj,
                        ),
                        0,
                    ) > 20000) ==> spec_hot_at(hot_fragments@, data@, start, self.config, cj),
                forall|cj: int, p: int|
                    (0 <= cj < ci && #[trigger] crate::matcher::spec_first_pattern(
                        spec_chunk_slice(data@, start, chunk_size as int, overlap as int, cj),
                        p,
                    ) < 7) ==> crate::matcher::spec_id_in(
                        all_links@,
                        crate::matcher::spec_id_at(
                            spec_chunk_slice(data@, start, chunk_size as int, overlap as int, cj),
                            p,
                        ),
                    ),
            decreases chunks@.len() - ci,
        {
            let info: ChunkInfo = chunks[ci];
            proof {
                assert(chunks@[ci as int] == spec_chunk_at(
                    start,
                    region_len as int,
                    chunk_size as int,
                    overlap as int,
                    ci as int,
                ));
                assert((ci as int) * (chunk_size as int) >= 0) by (nonlinear_arith)
                    requires
                        ci >= 0,
                        chunk_size >= 1,
                ;
            }
            proof {
                assert(info == spec_chunk_at(
                    start,
                    region_len as int,
                    chunk_size as int,
                    overlap as int,
                    ci as int,
                ));
                assert((ci as int) * (chunk_size as int) <= (chunks@.len() - 1) * (
                chunk_size as int) && (ci as int) * (chunk_size as int) >= 0)
                    by (nonlinear_arith)
                    requires
                        0 <= ci as int,
                        ci as int <= chunks@.len() - 1,
                        chunk_size >= 1,
                ;
                assert((ci as int) * (chunk_size as int) < region_len);
                assert(info.offset + info.size <= start + region_len);
            }
            let chunk_start: usize = info.offset as usize;
            let chunk_end: usize = chunk_start + info.size;
            let chunk_data: &[u8] = vstd::slice::slice_subrange(data, chunk_start, chunk_end);
            let fresh: EnhancedMatcher = self.enhanced_matcher.clone_fresh();
            let (links, hot, entries): (
                Vec<EnrichedLink>,
                Option<HotFragment>,
                Vec<crate::exfat::ExFatEntry>,
            ) = self.scan_chunk_with_matcher(chunk_data, info.offset, fresh);
            let ghost events0: Seq<ScanProgress> = events@;
            let ghost links0: Seq<EnrichedLink> = all_links@;
            events.push(ScanProgress::ChunkCompleted(info.offset));
            events.push(ScanProgress::BytesScanned(info.size as u64));
            proof {
                assert(chunk_data@ =~= data@.subrange(
                    chunk_start as int,
                    chunk_start + info.size,
                ));
                assert(chunk_data@ == spec_chunk_slice(
                    data@,
                    start,
                    chunk_size as int,
                    overlap as int,
                    ci as int,
                ));
                if all_zero(data@) {
                    assert forall|q: int| 0 <= q < chunk_data@.len() implies #[trigger] chunk_data@[q]
                        == 0 by {
                        assert(data@[chunk_start + q] == 0);
                    }
                }
                assert(events@.drop_last() =~= events0.push(
                    ScanProgress::ChunkCompleted(info.offset),
                ));
                assert(events0.push(ScanProgress::ChunkCompleted(info.offset)).drop_last()
                    =~= events0);
                assert(events@.last() == ScanProgress::BytesScanned(info.size as u64));
                assert(spec_event_bytes(events@) == spec_event_bytes(events@.drop_last())
                    + info.size);
                let mid = events0.push(ScanProgress::ChunkCompleted(info.offset));
                assert(spec_event_bytes(mid) == spec_event_bytes(mid.drop_last()) + 0);
                assert(spec_chunks_bytes(chunks@, ci + 1) == spec_chunks_bytes(chunks@, ci as int)
                    + chunks@[ci as int].size);
                assert(spec_event_bytes(events@) == spec_chunks_bytes(chunks@, ci + 1));
                // The per-chunk matcher starts with an empty seen set,
                // so its completeness is unconditional.
                assert forall|p: int|
                    0 <= p < chunk_data@.len() && #[trigger] crate::matcher::spec_first_pattern(
                        chunk_data@,
                        p,
                    ) < 7 implies crate::matcher::spec_id_in(
                    links@,
                    crate::matcher::spec_id_at(chunk_data@, p),
                ) by {
                    assert(fresh.seen_ids@.len() == 0);
                }
            }
            let ghost links_view: Seq<EnrichedLink> = links@;
            let mut moved: Vec<EnrichedLink> = links;
            while moved.len() > 0
                invariant
                    forall|l: EnrichedLink|
                        #[trigger] moved@.contains(l) ==> links_view.contains(l),
                    forall|l: EnrichedLink| #[trigger] links_view.contains(l) ==> l.wf(),
                    forall|l: EnrichedLink| #[trigger] all_links@.contains(l) ==> l.wf(),
                    all_zero(data@) ==> hot_fragments@.len() == 0 && all_links@.len() == 0
                        && all_entries@.len() == 0,
                    all_zero(data@) ==> links_view.len() == 0,
                    moved@.len() <= links_view.len(),
                    forall|q: int|
                        0 <= q < moved@.len() ==> #[trigger] moved@[q] == links_view[
                        links_view.len() - moved@.len() + q],
                    forall|jj: int|
                        0 <= jj < links_view.len() - moved@.len()
                            ==> crate::matcher::spec_id_in(
                            all_links@,
                            (#[trigger] links_view[jj]).video_id@,
                        ),
                    links0.len() <= all_links@.len(),
                    forall|q: int| 0 <= q < links0.len() ==> #[trigger] all_links@[q]
                        == links0[q],
                decreases moved@.len(),
            {
                let ghost moved_before: Seq<EnrichedLink> = moved@;
                let l: EnrichedLink = moved.remove(0);
                proof {
                    assert(moved_before.contains(moved_before[0]));
                    assert forall|x: EnrichedLink| #[trigger] moved@.contains(
                        x,
                    ) implies links_view.contains(x) by {
                        let ix = choose|ix: int| 0 <= ix < moved@.len() && moved@[ix] == x;
                        assert(moved_before[ix + 1] == x);
                        assert(moved_before.contains(x));
                    }
                }
                let ghost all_before: Seq<EnrichedLink> = all_links@;
                all_links.push(l);
                proof {
                    assert forall|x: EnrichedLink| #[trigger] all_links@.contains(
                        x,
                    ) implies x.wf() by {
                        let ix = choose|ix: int| 0 <= ix < all_links@.len() && all_links@[ix] == x;
                        if ix < all_links@.len() - 1 {
                            assert(all_before.contains(x));
                        } else {
                            assert(x == l);
                        }
                    }
                    assert forall|q: int| 0 <= q < moved@.len() implies #[trigger] moved@[q]
                        == links_view[links_view.len() - moved@.len() + q] by {
                        assert(moved@[q] == moved_before[q + 1]);
                    }
                    let processed = links_view.len() - moved@.len();
                    assert(l == moved_before[0]);
                    assert(l == links_view[processed - 1]);
                    assert(all_links@[all_links@.len() - 1] == l);
                    assert forall|jj: int| 0 <= jj < processed implies crate::matcher::spec_id_in(
                        all_links@,
                        (#[trigger] links_view[jj]).video_id@,
                    ) by {
                        if jj < processed - 1 {
                            let w = choose|w: int|
                                0 <= w < all_before.len() && all_before[w].video_id@
                                    == links_view[jj].video_id@;
                            assert(all_links@[w].video_id@ == links_view[jj].video_id@);
                        } else {
                            assert(all_links@[all_links@.len() - 1].video_id@
                                == links_view[jj].video_id@);
                        }
                    }
                }
            }
            proof {
                // Every token of this chunk now sits in the accumulator.
                assert forall|p: int|
                    0 <= p < chunk_data@.len() && #[trigger] crate::matcher::spec_first_pattern(
                        chunk_data@,
                        p,
                    ) < 7 implies crate::matcher::spec_id_in(
                    all_links@,
                    crate::matcher::spec_id_at(chunk_data@, p),
                ) by {
                    let id = crate::matcher::spec_id_at(chunk_data@, p);
                    assert(crate::matcher::spec_id_in(links_view, id));
                    let jj = choose|jj: int|
                        0 <= jj < links_view.len() && links_view[jj].video_id@ == id;
                    assert(crate::matcher::spec_id_in(all_links@, links_view[jj].video_id@));
                }
                // Earlier chunks keep their witnesses: the accumulator
                // only grew at the end.
                assert forall|cj: int, p: int|
                    (0 <= cj < ci + 1 && #[trigger] crate::matcher::spec_first_pattern(
                        spec_chunk_slice(data@, start, chunk_size as int, overlap as int, cj),
                        p,
                    ) < 7) implies crate::matcher::spec_id_in(
                    all_links@,
                    crate::matcher::spec_id_at(
                        spec_chunk_slice(data@, start, chunk_size as int, overlap as int, cj),
                        p,
                    ),
                ) by {
                    let sl = spec_chunk_slice(data@, start, chunk_size as int, overlap as int, cj);
                    if cj < ci {
                        let w = choose|w: int|
                            0 <= w < links0.len() && links0[w].video_id@
                                == crate::matcher::spec_id_at(sl, p);
                        assert(all_links@[w].video_id@ == crate::matcher::spec_id_at(sl, p));
                    } else {
                        assert(sl == chunk_data@);
                    }
                }
            }
            let ghost events1: Seq<ScanProgress> = events@;
            let ghost hot_before: Seq<HotFragment> = hot_fragments@;
            match hot {
                Some(fragment) => {
                    events.push(ScanProgress::HotFragment(clone_hot_fragment(&fragment)));
                    hot_fragments.push(fragment);
                    proof {
                        assert(events@.drop_last() =~= events1);
                        assert(spec_event_bytes(events@) == spec_event_bytes(events1));
                    }
                },
                None => {
                },
            }
            proof {
                assert(info == spec_chunk_info(data@, start, self.config, ci as int));
                let sl_ci = spec_chunk_slice(
                    data@,
                    start,
                    chunk_size as int,
                    overlap as int,
                    ci as int,
                );
                assert(sl_ci == chunk_data@);
                // Soundness: the new fragment names this chunk; old
                // facts carry over by index.
                assert forall|j: int| 0 <= j < hot_fragments@.len() implies spec_hot_one(
                    #[trigger] hot_fragments@[j],
                    data@,
                    start,
                    self.config,
                ) by {
                    if j < hot_before.len() {
                        assert(hot_fragments@[j] == hot_before[j]);
                    } else {
                        assert(hot is Some);
                        assert(hot_fragments@[j] == hot->0);
                        assert(!all_zero(chunk_data@));
                        let seed = spec_chunk_info(data@, start, self.config, ci as int);
                        assert(sl_ci == spec_chunk_slice(
                            data@,
                            start,
                            spec_csize(self.config),
                            spec_cov(self.config),
                            ci as int,
                        ));
                        assert(hot->0.offset == seed.offset);
                        assert(hot->0.size == seed.size);
                        assert((ci as int) * spec_csize(self.config) < data@.len() - start);
                        assert(hot->0.target_score == spec_slice_score(
                            chunk_data@,
                            hot->0.youtube_count as int,
                        ));
                        assert(spec_hot_one(hot->0, data@, start, self.config));
                    }
                }
                assert(spec_hot_sound(hot_fragments@, data@, start, self.config));
                // Emission: a floor-clearing chunk put a fragment in.
                assert forall|cj: int|
                    #![trigger spec_chunk_slice(data@, start, spec_csize(self.config), spec_cov(self.config), cj)]
                    (0 <= cj < ci + 1 && !all_zero(
                        spec_chunk_slice(
                            data@,
                            start,
                            spec_csize(self.config),
                            spec_cov(self.config),
                            cj,
                        ),
                    ) && spec_slice_score(
                        spec_chunk_slice(
                            data@,
                            start,
                            spec_csize(self.config),
                            spec_cov(self.config),
                            cj,
                        ),
                        0,
                    ) > 20000) implies spec_hot_at(
                    hot_fragments@,
                    data@,
                    start,
                    self.config,
                    cj,
                ) by {
                    let sl = spec_chunk_slice(
                        data@,
                        start,
                        spec_csize(self.config),
                        spec_cov(self.config),
                        cj,
                    );
                    if cj < ci {
                        assert(spec_hot_at(hot_before, data@, start, self.config, cj));
                        let j = choose|j: int|
                            0 <= j < hot_before.len() && (#[trigger] hot_before[j]).offset
                                == spec_chunk_info(data@, start, self.config, cj).offset;
                        assert(hot_fragments@[j].offset == spec_chunk_info(
                            data@,
                            start,
                            self.config,
                            cj,
                        ).offset);
                        assert(spec_hot_at(hot_fragments@, data@, start, self.config, cj));
                    } else {
                        assert(sl == chunk_data@);
                        crate::matcher::lemma_fragment_score_monotone(
                            chunk_data@,
                            0,
                            links_view.len() as int,
                            crate::matcher::spec_cyr_milli(chunk_data@),
                            crate::matcher::spec_json_markers(
                                chunk_data@,
                                chunk_data@.len() as int,
                            ) > 0,
                            crate::validator::spec_json_verdict(chunk_data@),
                            crate::matcher::spec_url_verdict(chunk_data@),
                        );
                        assert(spec_slice_score(chunk_data@, links_view.len() as int) > 20000);
                        assert(hot is Some);
                        let j = hot_fragments@.len() - 1;
                        assert(hot_fragments@[j].offset == info.offset);
                        assert(hot_fragments@[j].offset == spec_chunk_info(
                            data@,
                            start,
                            self.config,
                            cj,
                        ).offset);
                        assert(spec_hot_at(hot_fragments@, data@, start, self.config, cj));
                    }
                }
            }
            proof {
                assert forall|j: int| 0 <= j < events@.len() implies !((#[trigger] events@[j])
                    is ChunkError) by {
                    if j < events0.len() {
                    } else if j < events1.len() {
                        assert(events1[j] == events@[j]);
                    }
                }
                if all_zero(data@) {
                    assert(all_zero(chunk_data@));
                    assert(hot is None);
                    assert forall|j: int| 0 <= j < events@.len() implies !((#[trigger] events@[j])
                        is HotFragment) by {
                        if j < events0.len() {
                        }
                    }
                }
            }
            let ghost entries_view: Seq<crate::exfat::ExFatEntry> = entries@;
            let mut moved_entries: Vec<crate::exfat::ExFatEntry> = entries;
            while moved_entries.len() > 0
                invariant
                    all_zero(data@) ==> hot_fragments@.len() == 0 && all_links@.len() == 0
                        && all_entries@.len() == 0,
                    all_zero(data@) ==> entries_view.len() == 0,
                    forall|x: crate::exfat::ExFatEntry|
                        #[trigger] moved_entries@.contains(x) ==> entries_view.contains(x),
                decreases moved_entries@.len(),
            {
                let ghost me_before: Seq<crate::exfat::ExFatEntry> = moved_entries@;
                let e: crate::exfat::ExFatEntry = moved_entries.remove(0);
                proof {
                    assert(me_before.contains(me_before[0]));
                    assert forall|x: crate::exfat::ExFatEntry|
                        #[trigger] moved_entries@.contains(x) implies entries_view.contains(
                        x,
                    ) by {
                        let ix = choose|ix: int|
                            0 <= ix < moved_entries@.len() && moved_entries@[ix] == x;
                        assert(me_before[ix + 1] == x);
                        assert(me_before.contains(x));
                    }
                }
                all_entries.push(e);
            }
            ci = ci + 1;
        }
        proof {
            // Bridge the hot-fragment loop facts to the configuration
            // terms of the contract.
            assert(chunk_size == spec_csize(self.config));
            assert(overlap == spec_cov(self.config));
            assert forall|ci_: int|
                #![trigger spec_chunk_slice(data@, start, spec_csize(self.config), spec_cov(self.config), ci_)]
                (0 <= ci_ && ci_ * spec_csize(self.config) < data@.len() - start && !all_zero(
                    spec_chunk_slice(
                        data@,
                        start,
                        spec_csize(self.config),
                        spec_cov(self.config),
                        ci_,
                    ),
                ) && spec_slice_score(
                    spec_chunk_slice(
                        data@,
                        start,
                        spec_csize(self.config),
                        spec_cov(self.config),
                        ci_,
                    ),
                    0,
                ) > 20000) implies spec_hot_at(
                hot_fragments@,
                data@,
                start,
                self.config,
                ci_,
            ) by {
                assert(ci_ < chunks@.len()) by (nonlinear_arith)
                    requires
                        0 <= ci_,
                        ci_ * (chunk_size as int) < region_len,
                        region_len <= chunks@.len() * (chunk_size as int),
                        chunk_size >= 1,
                ;
                assert(0 <= ci_ < ci);
            }
            assert(spec_hot_complete(hot_fragments@, data@, start, self.config));
        }
        proof {
            // An empty region builds no chunks, hence no events.
            if region_len == 0 && chunks@.len() >= 1 {
                assert((chunks@.len() - 1) * (chunk_size as int) >= 0) by (nonlinear_arith)
                    requires
                        chunks@.len() >= 1,
                        chunk_size >= 1,
                ;
            }
            // A region within one chunk is announced in one byte count.
            if region_len >= 1 && region_len <= chunk_size {
                assert(chunks@.len() >= 1);
                if chunks@.len() >= 2 {
                    assert((chunks@.len() - 1) * (chunk_size as int) >= chunk_size as int)
                        by (nonlinear_arith)
                        requires
                            chunks@.len() >= 2,
                            chunk_size >= 1,
                    ;
                }
                assert(chunks@.len() == 1);
                assert(chunks@[0] == spec_chunk_at(
                    start,
                    region_len as int,
                    chunk_size as int,
                    overlap as int,
                    0,
                ));
                assert(chunks@[0].size == region_len) by {
                    assert(0int * (chunk_size as int) == 0);
                    let endv: int = if 0 + chunk_size as int + overlap as int
                        <= region_len as int {
                        0 + chunk_size as int + overlap as int
                    } else {
                        region_len as int
                    };
                    if chunk_size as int + overlap as int <= region_len as int {
                        assert(chunk_size as int <= region_len as int);
                        assert(overlap as int == 0);
                        assert(endv == region_len as int);
                    }
                    assert(chunks@[0].size == endv - 0);
                }
                assert(spec_chunks_bytes(chunks@, 0) == 0);
                assert(spec_chunks_bytes(chunks@, 1) == spec_chunks_bytes(chunks@, 0)
                    + chunks@[0].size);
                assert(spec_chunks_bytes(chunks@, 1) == region_len);
            }
        }
        // Global deduplication, confidence filtering, and offset order.
        let deduped: Vec<EnrichedLink> = if self.config.deduplicate {
            deduplicate_links(all_links)
        } else {
            all_links
        };
        let filtered: Vec<EnrichedLink> = if self.config.min_confidence > 0 {
            filter_by_confidence(deduped, self.config.min_confidence)
        } else {
            deduped
        };
        let ghost filtered_view: Seq<EnrichedLink> = filtered@;
        let sorted: Vec<EnrichedLink> = sort_links_by_offset(filtered);
        proof {
            broadcast use vstd::seq_lib::group_to_multiset_ensures;

            if self.config.deduplicate {
                lemma_distinct_ids_permutation(filtered_view, sorted@);
            }
            if self.config.min_confidence == 0 {
                // Identifier preservation through deduplication and the
                // final sort carries each chunk's tokens to the result.
                assert forall|ci_: int, p: int|
                    (0 <= ci_ && ci_ * spec_csize(self.config) < data@.len() - start
                        && #[trigger] crate::matcher::spec_first_pattern(
                        spec_chunk_slice(
                            data@,
                            start,
                            spec_csize(self.config),
                            spec_cov(self.config),
                            ci_,
                        ),
                        p,
                    ) < 7) implies crate::matcher::spec_id_in(
                    sorted@,
                    crate::matcher::spec_id_at(
                        spec_chunk_slice(
                            data@,
                            start,
                            spec_csize(self.config),
                            spec_cov(self.config),
                            ci_,
                        ),
                        p,
                    ),
                ) by {
                    let sl = spec_chunk_slice(
                        data@,
                        start,
                        chunk_size as int,
                        overlap as int,
                        ci_,
                    );
                    let id = crate::matcher::spec_id_at(sl, p);
                    assert(ci_ < chunks@.len()) by (nonlinear_arith)
                        requires
                            0 <= ci_,
                            ci_ * (chunk_size as int) < region_len,
                            region_len <= chunks@.len() * (chunk_size as int),
                            chunk_size >= 1,
                    ;
                    assert(crate::matcher::spec_id_in(all_links@, id));
                    let w = choose|w: int|
                        0 <= w < all_links@.len() && all_links@[w].video_id@ == id;
                    let j = if self.config.deduplicate {
                        choose|j: int|
                            0 <= j < filtered_view.len() && all_links@[w].video_id@
                                == filtered_view[j].video_id@
                    } else {
                        w
                    };
                    assert(filtered_view[j].video_id@ == id);
                    assert(filtered_view.contains(filtered_view[j]));
                    assert(filtered_view.to_multiset().contains(filtered_view[j]));
                    assert(sorted@.to_multiset().contains(filtered_view[j]));
                    assert(sorted@.contains(filtered_view[j]));
                    let sj = choose|sj: int|
                        0 <= sj < sorted@.len() && sorted@[sj] == filtered_view[j];
                    assert(sorted@[sj].video_id@ == id);
                }
            }
        }
        let result = ScanResult { links: sorted, bytes_scanned: region_len as u64 };
        (result, hot_fragments, events, all_entries)
    }
}

/// Copy a hot fragment for the event stream.
fn clone_hot_fragment(f: &HotFragment) -> (r: HotFragment)
    ensures
        r.offset == f.offset,
        r.size == f.size,
{
    let mut score_reasons: Vec<&'static str> = Vec::new();
    let mut i: usize = 0;
    while i < f.fragment_score.reasons.len()
        invariant
            i <= f.fragment_score.reasons@.len(),
        decreases f.fragment_score.reasons@.len() - i,
    {
        score_reasons.push(f.fragment_score.reasons[i]);
        i = i + 1;
    }
    HotFragment {
        offset: f.offset,
        size: f.size,
        youtube_count: f.youtube_count,
        cyrillic_density: f.cyrillic_density,
        json_markers: f.json_markers,
        has_valid_json: f.has_valid_json,
        target_score: f.target_score,
        file_type_guess: f.file_type_guess,
        entropy: f.entropy,
        entropy_category: f.entropy_category,
        fragment_score: FragmentScore {
            overall_score: f.fragment_score.overall_score,
            is_valid_json: f.fragment_score.is_valid_json,
            is_valid_html: f.fragment_score.is_valid_html,
            is_valid_csv: f.fragment_score.is_valid_csv,
            is_valid_youtube_url: f.fragment_score.is_valid_youtube_url,
            has_structured_text: f.fragment_score.has_structured_text,
            is_compressed: f.fragment_score.is_compressed,
            reasons: score_reasons,
        },
    }
}

/// Is the token `a` a better record than `b` for the same identifier:
/// a title beats no title, then higher confidence wins.
pub open spec fn spec_better_link(a: EnrichedLink, b: EnrichedLink) -> bool {
    if a.title is Some && b.title is None {
        true
    } else if a.title is None && b.title is Some {
        false
    } else {
        a.confidence > b.confidence
    }
}

/// Does `a` replace `b` in the global deduplication?
pub fn is_better_link(a: &EnrichedLink, b: &EnrichedLink) -> (r: bool)
    ensures
        r == spec_better_link(*a, *b),
{
    if a.title.is_some() && b.title.is_none() {
        return true;
    }
    if a.title.is_none() && b.title.is_some() {
        return false;
    }
    a.confidence > b.confidence
}

/// Global deduplication: group by identifier, keep the best record of
/// each group (title first, then confidence; ties keep the earliest).
///
/// The result has pairwise distinct identifiers; every input
/// identifier survives; each kept record is an input record that no
/// input of its group beats, and it strictly beats every earlier input
/// of its group (so ties keep the earliest). An input whose
/// identifiers are already pairwise distinct comes back unchanged - so
/// running the pass twice changes nothing after the first run.
/// `kept` is some input record that wins its identifier group.
pub open spec fn spec_kept_winner(kept: EnrichedLink, links: Seq<EnrichedLink>) -> bool {
    exists|i: int|
        kept == links[i] && #[trigger] spec_best_of_prefix(links, links.len() as int, i)
}

/// Record `i` is the group winner among the first `n` records sharing
/// its identifier: none of them beats it, and it strictly beats every
/// earlier one (so the earliest of equal quality wins).
#[verifier::opaque]
pub open spec fn spec_best_of_prefix(s: Seq<EnrichedLink>, n: int, i: int) -> bool {
    &&& 0 <= i < n <= s.len()
    &&& forall|i2: int|
        0 <= i2 < n && (#[trigger] s[i2]).video_id@ == s[i].video_id@ ==> !spec_better_link(
            s[i2],
            s[i],
        )
    &&& forall|i2: int|
        0 <= i2 < i && (#[trigger] s[i2]).video_id@ == s[i].video_id@ ==> spec_better_link(
            s[i],
            s[i2],
        )
}

/// Global deduplication: group by identifier, keep the best record of
/// each group (title first, then confidence; ties keep the earliest).
///
/// The result has pairwise distinct identifiers; every input
/// identifier survives; each kept record is its group's winner under
/// [`spec_best_of_prefix`]. An input whose identifiers are already
/// pairwise distinct comes back unchanged - so running the pass twice
/// changes nothing after the first run.
pub fn deduplicate_links(links: Vec<EnrichedLink>) -> (r: Vec<EnrichedLink>)
    ensures
        distinct_ids(r@),
        forall|l: EnrichedLink| #[trigger] r@.contains(l) ==> links@.contains(l),
        distinct_ids(links@) ==> r@ == links@,
        r@.len() <= links@.len(),
        forall|i: int|
            0 <= i < links@.len() ==> (exists|j: int|
                0 <= j < r@.len() && (#[trigger] links@[i]).video_id@ == r@[j].video_id@),
        forall|j: int| 0 <= j < r@.len() ==> spec_kept_winner(#[trigger] r@[j], links@),
{
    let ghost orig: Seq<EnrichedLink> = links@;
    let mut src: Vec<EnrichedLink> = links;
    let mut out: Vec<EnrichedLink> = Vec::new();
    // Ghost witness: which input index each slot currently holds.
    let ghost mut widx: Seq<int> = Seq::empty();
    while src.len() > 0
        invariant
            distinct_ids(out@),
            forall|l: EnrichedLink| #[trigger] out@.contains(l) ==> orig.contains(l),
            forall|l: EnrichedLink| #[trigger] src@.contains(l) ==> orig.contains(l),
            out@.len() + src@.len() <= orig.len(),
            distinct_ids(orig) ==> out@ + src@ =~= orig,
            src@.len() <= orig.len(),
            forall|q: int| 0 <= q < src@.len() ==> #[trigger] src@[q] == orig[orig.len()
                - src@.len() + q],
            widx.len() == out@.len(),
            forall|j: int|
                0 <= j < out@.len() ==> 0 <= #[trigger] widx[j] < orig.len() - src@.len()
                    && out@[j] == orig[widx[j]] && spec_best_of_prefix(
                    orig,
                    orig.len() - src@.len(),
                    widx[j],
                ),
            forall|i: int|
                0 <= i < orig.len() - src@.len() ==> (exists|j: int|
                    0 <= j < out@.len() && (#[trigger] orig[i]).video_id@ == out@[j].video_id@),
        decreases src@.len(),
    {
        let ghost src0: Seq<EnrichedLink> = src@;
        let ghost out0: Seq<EnrichedLink> = out@;
        let ghost widx0: Seq<int> = widx;
        let ghost pos: int = orig.len() - src0.len();
        let l: EnrichedLink = src.remove(0);
        proof {
            assert(src0.contains(src0[0]));
            assert(l == orig[pos]);
            assert forall|x: EnrichedLink| #[trigger] src@.contains(x) implies orig.contains(
                x,
            ) by {
                let ix = choose|ix: int| 0 <= ix < src@.len() && src@[ix] == x;
                assert(src0[ix + 1] == x);
                assert(src0.contains(x));
            }
        }
        // Find an existing record with the same identifier.
        let mut found: Option<usize> = None;
        let mut oi: usize = 0;
        while oi < out.len()
            invariant
                oi <= out@.len(),
                found is Some ==> found->0 < out@.len() && out@[found->0 as int].video_id@
                    == l.video_id@,
                found is None ==> forall|q: int|
                    0 <= q < oi ==> (#[trigger] out@[q]).video_id@ != l.video_id@,
            decreases out@.len() - oi,
        {
            if crate::matcher::eq_bytes(out[oi].video_id.as_slice(), l.video_id.as_slice()) {
                found = Some(oi);
                oi = out.len();
            } else {
                oi = oi + 1;
            }
        }
        match found {
            Some(idx) => {
                proof {
                    if distinct_ids(orig) {
                        // Two records with one identifier cannot both
                        // come from a distinct-id original.
                        assert(out0 + src0 =~= orig);
                        assert((out0 + src0)[idx as int] == out0[idx as int]);
                        assert((out0 + src0)[out0.len() as int] == src0[0]);
                        assert(orig[idx as int].video_id@ == orig[out0.len() as int].video_id@);
                        assert(false);
                    }
                }
                let better: bool = is_better_link(&l, &out[idx]);
                if better {
                    let ghost out_before: Seq<EnrichedLink> = out@;
                    out.set(idx, l);
                    proof {
                        widx = widx.update(idx as int, pos);
                        lemma_best_replace(orig, pos, widx0[idx as int], out0, idx as int);
                        assert forall|x: EnrichedLink| #[trigger] out@.contains(
                            x,
                        ) implies orig.contains(x) by {
                            let ix = choose|ix: int| 0 <= ix < out@.len() && out@[ix] == x;
                            if ix == idx {
                                assert(x == src0[0]);
                                assert(src0.contains(x));
                            } else {
                                assert(out_before.contains(x));
                            }
                        }
                        assert forall|j: int| 0 <= j < out@.len() implies 0 <= #[trigger] widx[
                        j] < pos + 1 && out@[j] == orig[widx[j]] && spec_best_of_prefix(
                            orig,
                            pos + 1,
                            widx[j],
                        ) by {
                            if j != idx {
                                assert(out@[j] == out0[j] && widx[j] == widx0[j]);
                                lemma_best_extend_other(orig, pos, widx0[j], out0[j].video_id@, l.video_id@);
                            }
                        }
                        assert forall|i: int| 0 <= i < pos + 1 implies (exists|j: int|
                            0 <= j < out@.len() && (#[trigger] orig[i]).video_id@ == out@[
                            j].video_id@) by {
                            if i < pos {
                                let j = choose|j: int|
                                    0 <= j < out0.len() && orig[i].video_id@ == out0[
                                    j].video_id@;
                                assert(out@[j].video_id@ == out0[j].video_id@);
                            } else {
                                assert(orig[pos].video_id@ == out@[idx as int].video_id@);
                            }
                        }
                    }
                } else {
                    proof {
                        lemma_best_keep(orig, pos, widx0[idx as int]);
                        assert forall|j: int| 0 <= j < out@.len() implies 0 <= #[trigger] widx[
                        j] < pos + 1 && out@[j] == orig[widx[j]] && spec_best_of_prefix(
                            orig,
                            pos + 1,
                            widx[j],
                        ) by {
                            if j != idx {
                                lemma_best_extend_other(orig, pos, widx0[j], out@[j].video_id@, l.video_id@);
                            }
                        }
                        assert forall|i: int| 0 <= i < pos + 1 implies (exists|j: int|
                            0 <= j < out@.len() && (#[trigger] orig[i]).video_id@ == out@[
                            j].video_id@) by {
                            if i == pos {
                                assert(orig[pos].video_id@ == out@[idx as int].video_id@);
                            }
                        }
                    }
                }
            },
            None => {
                let ghost out_before: Seq<EnrichedLink> = out@;
                out.push(l);
                proof {
                    widx = widx.push(pos);
                    assert forall|x: EnrichedLink| #[trigger] out@.contains(
                        x,
                    ) implies orig.contains(x) by {
                        let ix = choose|ix: int| 0 <= ix < out@.len() && out@[ix] == x;
                        if ix < out@.len() - 1 {
                            assert(out_before.contains(x));
                        } else {
                            assert(x == src0[0]);
                            assert(src0.contains(x));
                        }
                    }
                    if distinct_ids(orig) {
                        assert(out@ + src@ =~= out0 + src0);
                    }
                    // No processed record shares the new identifier:
                    // its group would be represented in a slot, and no
                    // slot matched.
                    assert forall|i2: int|
                        0 <= i2 < pos implies (#[trigger] orig[i2]).video_id@
                        != orig[pos].video_id@ by {
                        let j = choose|j: int|
                            0 <= j < out0.len() && orig[i2].video_id@ == out0[j].video_id@;
                        assert(out0[j].video_id@ != l.video_id@);
                    }
                    lemma_best_fresh(orig, pos);
                    assert forall|j: int| 0 <= j < out@.len() implies 0 <= #[trigger] widx[j]
                        < pos + 1 && out@[j] == orig[widx[j]] && spec_best_of_prefix(
                        orig,
                        pos + 1,
                        widx[j],
                    ) by {
                        if j < out@.len() - 1 {
                            assert(out@[j] == out0[j] && widx[j] == widx0[j]);
                            lemma_best_extend_other(orig, pos, widx0[j], out0[j].video_id@, l.video_id@);
                        }
                    }
                    assert forall|i: int| 0 <= i < pos + 1 implies (exists|j: int|
                        0 <= j < out@.len() && (#[trigger] orig[i]).video_id@ == out@[
                        j].video_id@) by {
                        if i < pos {
                            let j = choose|j: int|
                                0 <= j < out0.len() && orig[i].video_id@ == out0[j].video_id@;
                            assert(out@[j] == out0[j]);
                        } else {
                            assert(orig[pos].video_id@ == out@[out@.len() - 1].video_id@);
                        }
                    }
                }
            },
        }
    }
    proof {
        if distinct_ids(orig) {
            assert(out@ + src@ =~= out@);
        }
        assert forall|j: int| 0 <= j < out@.len() implies spec_kept_winner(
            #[trigger] out@[j],
            orig,
        ) by {
            assert(out@[j] == orig[widx[j]]);
            assert(spec_best_of_prefix(orig, orig.len() as int, widx[j]));
        }
    }
    out
}

/// A strictly better newcomer becomes its group's winner.
proof fn lemma_best_replace(s: Seq<EnrichedLink>, pos: int, iold: int, out0: Seq<EnrichedLink>, idx: int)
    requires
        0 <= pos < s.len(),
        spec_best_of_prefix(s, pos, iold),
        spec_better_link(s[pos], s[iold]),
        s[pos].video_id@ == s[iold].video_id@,
    ensures
        spec_best_of_prefix(s, pos + 1, pos),
{
    reveal(spec_best_of_prefix);
    assert forall|i2: int|
        0 <= i2 < pos + 1 && (#[trigger] s[i2]).video_id@ == s[pos].video_id@ implies
        !spec_better_link(s[i2], s[pos]) by {
        if i2 < pos {
            assert(!spec_better_link(s[i2], s[iold]));
        }
    }
    assert forall|i2: int|
        0 <= i2 < pos && (#[trigger] s[i2]).video_id@ == s[pos].video_id@ implies
        spec_better_link(s[pos], s[i2]) by {
        assert(!spec_better_link(s[i2], s[iold]));
    }
}

/// A newcomer that does not beat the winner leaves it the winner.
proof fn lemma_best_keep(s: Seq<EnrichedLink>, pos: int, iold: int)
    requires
        0 <= pos < s.len(),
        spec_best_of_prefix(s, pos, iold),
        !spec_better_link(s[pos], s[iold]),
    ensures
        spec_best_of_prefix(s, pos + 1, iold),
{
    reveal(spec_best_of_prefix);
}

/// A newcomer of another group does not disturb a winner.
proof fn lemma_best_extend_other(s: Seq<EnrichedLink>, pos: int, i: int, gid: Seq<u8>, nid: Seq<u8>)
    requires
        0 <= pos < s.len(),
        spec_best_of_prefix(s, pos, i),
        s[i].video_id@ == gid,
        s[pos].video_id@ == nid,
        gid != nid,
    ensures
        spec_best_of_prefix(s, pos + 1, i),
{
    reveal(spec_best_of_prefix);
}

/// A record with a fresh identifier is its group's winner.
proof fn lemma_best_fresh(s: Seq<EnrichedLink>, pos: int)
    requires
        0 <= pos < s.len(),
        forall|i2: int| 0 <= i2 < pos ==> (#[trigger] s[i2]).video_id@ != s[pos].video_id@,
    ensures
        spec_best_of_prefix(s, pos + 1, pos),
{
    reveal(spec_best_of_prefix);
    assert(!spec_better_link(s[pos], s[pos]));
}

/// Keep tokens at or above the confidence floor (milli): the result is
/// exactly the filtered subsequence, in order.
pub fn filter_by_confidence(links: Vec<EnrichedLink>, min_confidence: u32) -> (r: Vec<
    EnrichedLink,
>)
    ensures
        r@ == links@.filter(|l: EnrichedLink| l.confidence >= min_confidence),
        forall|l: EnrichedLink| #[trigger] r@.contains(l) ==> links@.contains(l) && l.confidence
            >= min_confidence,
        distinct_ids(links@) ==> distinct_ids(r@),
        r@.len() <= links@.len(),
{
    let ghost orig: Seq<EnrichedLink> = links@;
    let ghost pred = |l: EnrichedLink| l.confidence >= min_confidence;
    let mut src: Vec<EnrichedLink> = links;
    let mut out: Vec<EnrichedLink> = Vec::new();
    proof {
        reveal(Seq::filter);
        assert(orig.take(0) =~= Seq::<EnrichedLink>::empty());
        assert(out@ == orig.take(0).filter(pred));
    }
    while src.len() > 0
        invariant
            forall|l: EnrichedLink|
                #[trigger] out@.contains(l) ==> orig.contains(l) && l.confidence
                    >= min_confidence,
            forall|l: EnrichedLink| #[trigger] src@.contains(l) ==> orig.contains(l),
            distinct_ids(orig) ==> distinct_ids(out@ + src@),
            out@.len() + src@.len() <= orig.len(),
            src@.len() <= orig.len(),
            pred == (|l: EnrichedLink| l.confidence >= min_confidence),
            forall|q: int| 0 <= q < src@.len() ==> #[trigger] src@[q] == orig[orig.len()
                - src@.len() + q],
            out@ == orig.take(orig.len() - src@.len()).filter(pred),
        decreases src@.len(),
    {
        let ghost src0: Seq<EnrichedLink> = src@;
        let ghost out0: Seq<EnrichedLink> = out@;
        let ghost pos: int = orig.len() - src0.len();
        let l: EnrichedLink = src.remove(0);
        proof {
            assert(src0.contains(src0[0]));
            assert(l == orig[pos]);
            assert forall|x: EnrichedLink| #[trigger] src@.contains(x) implies orig.contains(
                x,
            ) by {
                let ix = choose|ix: int| 0 <= ix < src@.len() && src@[ix] == x;
                assert(src0[ix + 1] == x);
                assert(src0.contains(x));
            }
            reveal(Seq::filter);
            assert(orig.take(pos + 1).drop_last() =~= orig.take(pos));
            assert(orig.take(pos + 1).last() == orig[pos]);
        }
        if l.confidence >= min_confidence {
            let ghost out_before: Seq<EnrichedLink> = out@;
            out.push(l);
            proof {
                assert forall|x: EnrichedLink| #[trigger] out@.contains(x) implies orig.contains(
                    x,
                ) && x.confidence >= min_confidence by {
                    let ix = choose|ix: int| 0 <= ix < out@.len() && out@[ix] == x;
                    if ix < out@.len() - 1 {
                        assert(out_before.contains(x));
                    } else {
                        assert(x == src0[0]);
                        assert(src0.contains(x));
                    }
                }
                if distinct_ids(orig) {
                    assert(out@ + src@ =~= out0 + src0);
                }
                reveal(Seq::filter);
                assert(out@ == orig.take(pos + 1).filter(pred));
            }
        } else {
            proof {
                if distinct_ids(orig) {
                    assert(out@ + src@ =~= (out0 + src0).remove(out0.len() as int));
                    lemma_distinct_ids_remove(out0 + src0, out0.len() as int);
                }
                reveal(Seq::filter);
                assert(out@ == orig.take(pos + 1).filter(pred));
            }
        }
    }
    proof {
        if distinct_ids(orig) {
            assert(out@ + src@ =~= out@);
        }
        assert(orig.take(orig.len() as int) =~= orig);
    }
    out
}

/// Dropping one element keeps identifiers pairwise distinct.
proof fn lemma_distinct_ids_remove(s: Seq<EnrichedLink>, i: int)
    requires
        0 <= i < s.len(),
        distinct_ids(s),
    ensures
        distinct_ids(s.remove(i)),
{
    let t = s.remove(i);
    assert forall|a: int, b: int| 0 <= a < b < t.len() implies (#[trigger] t[a]).video_id@ != (
    #[trigger] t[b]).video_id@ by {
        let a2 = if a < i {
            a
        } else {
            a + 1
        };
        let b2 = if b < i {
            b
        } else {
            b + 1
        };
        assert(t[a] == s[a2]);
        assert(t[b] == s[b2]);
    }
}

/// A permutation keeps identifiers pairwise distinct.
pub proof fn lemma_distinct_ids_permutation(a: Seq<EnrichedLink>, b: Seq<EnrichedLink>)
    requires
        a.to_multiset() == b.to_multiset(),
        distinct_ids(a),
    ensures
        distinct_ids(b),
    decreases a.len(),
{
    broadcast use vstd::seq_lib::group_to_multiset_ensures;

    if b.len() > 0 {
        let x = b[0];
        assert(b.contains(x));
        assert(b.to_multiset().count(x) > 0);
        assert(a.to_multiset().count(x) > 0);
        assert(a.contains(x));
        let i = choose|i: int| 0 <= i < a.len() && a[i] == x;
        let a2 = a.remove(i);
        let b2 = b.remove(0);
        assert(a2.to_multiset() =~= a.to_multiset().remove(x));
        assert(b2.to_multiset() =~= b.to_multiset().remove(x));
        lemma_distinct_ids_remove(a, i);
        lemma_distinct_ids_permutation(a2, b2);
        assert forall|p: int, q: int| 0 <= p < q < b.len() implies (#[trigger] b[p]).video_id@
            != (#[trigger] b[q]).video_id@ by {
            if p == 0 {
                // b[q] sits in b2; its value occurs in a2, whose ids
                // all differ from x's id because a is distinct.
                assert(b2[q - 1] == b[q]);
                assert(b2.contains(b[q]));
                assert(b2.to_multiset().count(b[q]) > 0);
                assert(a2.to_multiset().count(b[q]) > 0);
                assert(a2.contains(b[q]));
                let j = choose|j: int| 0 <= j < a2.len() && a2[j] == b[q];
                let j2 = if j < i {
                    j
                } else {
                    j + 1
                };
                assert(a2[j] == a[j2]);
                assert(a[i] == x);
                if j2 != i {
                    assert(a[j2].video_id@ != a[i].video_id@);
                }
            } else {
                assert(b2[p - 1] == b[p]);
                assert(b2[q - 1] == b[q]);
            }
        }
    }
}

} // verus!
