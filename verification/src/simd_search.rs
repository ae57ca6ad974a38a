//! Byte-pattern search and 32/64-byte block classification.
//!
//! Every contract here pins the result exactly, so an accelerated
//! implementation of the same operations has to agree bit for bit; the
//! bodies below are the portable scalar forms.

use vstd::prelude::*;

verus! {

/// `needle` occurs in `haystack` starting at `i`.
pub open spec fn pattern_at(haystack: Seq<u8>, needle: Seq<u8>, i: int) -> bool {
    &&& 0 <= i
    &&& i + needle.len() <= haystack.len()
    &&& forall|j: int| 0 <= j < needle.len() ==> haystack[i + j] == #[trigger] needle[j]
}

/// Number of occurrence positions of `needle` at or after `from`.
pub open spec fn count_matches(haystack: Seq<u8>, needle: Seq<u8>, from: int) -> nat
    decreases haystack.len() - from,
{
    if from < 0 || from + needle.len() > haystack.len() || needle.len() == 0 {
        0
    } else {
        count_matches(haystack, needle, from + 1) + if pattern_at(haystack, needle, from) {
            1nat
        } else {
            0nat
        }
    }
}

/// Counting from a match-free region gives the same count.
proof fn lemma_count_matches_skip(haystack: Seq<u8>, needle: Seq<u8>, from: int, to: int)
    requires
        0 <= from <= to,
        forall|i: int| from <= i < to ==> !pattern_at(haystack, needle, i),
    ensures
        count_matches(haystack, needle, from) == count_matches(haystack, needle, to),
    decreases to - from,
{
    if from < to {
        lemma_count_matches_skip(haystack, needle, from + 1, to);
    }
}

/// Whole bytes of one equality check.
pub fn verify_match_scalar(window: &[u8], needle: &[u8]) -> (r: bool)
    requires
        window@.len() == needle@.len(),
    ensures
        r == (window@ =~= needle@),
{
    let mut i: usize = 0;
    while i < needle.len()
        invariant
            i <= needle@.len(),
            window@.len() == needle@.len(),
            forall|j: int| 0 <= j < i ==> window@[j] == #[trigger] needle@[j],
        decreases needle@.len() - i,
    {
        if window[i] != needle[i] {
            return false;
        }
        i = i + 1;
    }
    true
}

/// Smallest offset at which `needle` occurs in `haystack`, else `None`.
///
/// An empty needle never matches, mirroring the dispatching entry
/// point's refusal of empty patterns.
pub fn find_pattern_scalar(haystack: &[u8], needle: &[u8]) -> (r: Option<usize>)
    ensures
        needle@.len() == 0 || haystack@.len() < needle@.len() ==> r is None,
        r is Some ==> pattern_at(haystack@, needle@, r->0 as int) && (forall|i: int|
            0 <= i < r->0 ==> !pattern_at(haystack@, needle@, i)),
        r is None ==> forall|i: int| !pattern_at(haystack@, needle@, i) || needle@.len() == 0,
{
    if needle.len() == 0 || haystack.len() < needle.len() {
        proof {
            if needle@.len() > 0 {
                assert(forall|i: int| !pattern_at(haystack@, needle@, i));
            }
        }
        return None;
    }
    let mut i: usize = 0;
    let last: usize = haystack.len() - needle.len();
    while i <= last
        invariant
            haystack@.len() >= needle@.len() >= 1,
            haystack@.len() <= usize::MAX,
            last == haystack@.len() - needle@.len(),
            forall|k: int| 0 <= k < i ==> !pattern_at(haystack@, needle@, k),
        decreases last + 1 - i,
    {
        proof {
            assert(i + needle@.len() <= haystack@.len());
        }
        let window: &[u8] = vstd::slice::slice_subrange(haystack, i, i + needle.len());
        if verify_match_scalar(window, needle) {
            proof {
                assert(forall|j: int|
                    0 <= j < needle@.len() ==> haystack@[i + j] == window@[j]);
            }
            return Some(i);
        }
        proof {
            if pattern_at(haystack@, needle@, i as int) {
                assert(forall|j: int|
                    0 <= j < needle@.len() ==> window@[j] == haystack@[i + j]);
                assert(window@ =~= needle@);
            }
        }
        i = i + 1;
    }
    proof {
        assert(forall|k: int|
            i <= k ==> k + needle@.len() > haystack@.len() && !pattern_at(haystack@, needle@, k));
    }
    None
}

/// Runtime-dispatched pattern search.
///
/// The contract pins the result exactly, so every dispatch target must
/// agree with the scalar form; this build carries the scalar form only.
pub fn find_pattern_simd(haystack: &[u8], needle: &[u8]) -> (r: Option<usize>)
    ensures
        needle@.len() == 0 || haystack@.len() < needle@.len() ==> r is None,
        r is Some ==> pattern_at(haystack@, needle@, r->0 as int) && (forall|i: int|
            0 <= i < r->0 ==> !pattern_at(haystack@, needle@, i)),
        r is None ==> forall|i: int| !pattern_at(haystack@, needle@, i) || needle@.len() == 0,
{
    find_pattern_scalar(haystack, needle)
}

/// Count every position at which `needle` occurs (occurrences may
/// overlap).
pub fn count_pattern_simd(haystack: &[u8], needle: &[u8]) -> (r: usize)
    requires
        haystack@.len() <= usize::MAX,
    ensures
        needle@.len() >= 1 ==> r == count_matches(haystack@, needle@, 0),
        needle@.len() == 0 ==> r == 0,
{
    let mut count: usize = 0;
    let mut offset: usize = 0;
    if needle.len() == 0 {
        return 0;
    }
    while offset < haystack.len()
        invariant
            needle@.len() >= 1,
            offset <= haystack@.len(),
            count <= offset,
            count + count_matches(haystack@, needle@, offset as int) == count_matches(
                haystack@,
                needle@,
                0,
            ),
        ensures
            count == count_matches(haystack@, needle@, 0),
        decreases haystack@.len() - offset,
    {
        let tail: &[u8] = vstd::slice::slice_subrange(haystack, offset, haystack.len());
        proof {
            assert(tail@ =~= haystack@.skip(offset as int));
        }
        match find_pattern_scalar(tail, needle) {
            Some(pos) => {
                proof {
                    lemma_pattern_at_shift(haystack@, needle@, offset as int);
                    assert(pattern_at(haystack@.skip(offset as int), needle@, pos as int));
                    assert(pattern_at(haystack@, needle@, offset + pos));
                    assert forall|k: int|
                        offset <= k < offset + pos implies !pattern_at(
                        haystack@,
                        needle@,
                        k,
                    ) by {
                        assert(!pattern_at(haystack@.skip(offset as int), needle@, k - offset));
                    }
                    lemma_count_matches_skip(
                        haystack@,
                        needle@,
                        offset as int,
                        offset + pos,
                    );
                }
                count = count + 1;
                offset = offset + pos + 1;
            },
            None => {
                proof {
                    lemma_pattern_at_shift(haystack@, needle@, offset as int);
                    assert forall|k: int|
                        offset <= k implies !pattern_at(haystack@, needle@, k) by {
                        assert(!pattern_at(haystack@.skip(offset as int), needle@, k - offset));
                    }
                    lemma_count_matches_skip(
                        haystack@,
                        needle@,
                        offset as int,
                        haystack@.len() as int,
                    );
                }
                break;
            },
        }
    }
    count
}

/// Matches in the tail starting at `offset` are matches in the whole,
/// shifted.
proof fn lemma_pattern_at_shift(haystack: Seq<u8>, needle: Seq<u8>, offset: int)
    requires
        0 <= offset <= haystack.len(),
    ensures
        forall|p: int|
            #![trigger pattern_at(haystack.skip(offset), needle, p)]
            pattern_at(haystack.skip(offset), needle, p) == pattern_at(
                haystack,
                needle,
                offset + p,
            ) || p < 0,
{
    assert forall|p: int| p >= 0 implies pattern_at(haystack.skip(offset), needle, p)
        == pattern_at(haystack, needle, offset + p) by {
        let t = haystack.skip(offset);
        if pattern_at(t, needle, p) {
            assert(forall|j: int|
                0 <= j < needle.len() ==> haystack[offset + p + j] == t[p + j]
                    && t[p + j] == #[trigger] needle[j]);
        }
        if pattern_at(haystack, needle, offset + p) {
            assert(forall|j: int|
                0 <= j < needle.len() ==> t[p + j] == haystack[offset + p + j]
                    && haystack[offset + p + j] == #[trigger] needle[j]);
        }
    }
}

/// A byte the scanner treats as "hot": one of `y`, `h`, `{`, `v`, `/`.
pub open spec fn is_hot_byte(b: u8) -> bool {
    b == 121 || b == 104 || b == 123 || b == 118 || b == 47
}

/// Results of a 32-byte block scan.
#[derive(Debug, Clone, Copy, PartialEq, Eq, Structural)]
pub struct BlockScanResult {
    pub is_empty: bool,
    pub has_metadata: bool,
    pub hot_mask: u32,
}

impl BlockScanResult {
    /// The classification the first 32 bytes of `block` denote:
    /// emptiness over those bytes, the entry marker at byte 0, and the
    /// hot mask of the covered positions. Bit `i` of the mask marks a
    /// hot byte at position `i`; see [`lemma_hot_mask_bits`].
    pub open spec fn classifies(&self, block: Seq<u8>) -> bool {
        &&& block.len() >= 1
        &&& self.has_metadata == (block[0] == 0x85)
        &&& self.is_empty == (forall|i: int| 0 <= i < block.len() && i < 32 ==> block[i] == 0)
        &&& self.hot_mask == hot_mask_of(
            block,
            if block.len() < 32 {
                block.len() as int
            } else {
                32int
            },
        )
    }
}

/// The hot mask over the first `n` bytes of a block.
pub open spec fn hot_mask_of(block: Seq<u8>, n: int) -> u32
    decreases n,
{
    if n <= 0 {
        0u32
    } else if is_hot_byte(block[n - 1]) {
        (hot_mask_of(block, n - 1) | (1u32 << ((n - 1) as u32))) as u32
    } else {
        hot_mask_of(block, n - 1)
    }
}

/// Setting one bit leaves the others.
pub proof fn lemma_or_bit(m: u32, j: u32, k: u32)
    requires
        j < 32,
        k < 32,
    ensures
        ((m | (1u32 << j)) >> k) & 1 == if k == j {
            1u32
        } else {
            (m >> k) & 1
        },
{
    assert(((m | (1u32 << j)) >> k) & 1 == (if k == j {
        1u32
    } else {
        (m >> k) & 1
    })) by (bit_vector)
        requires
            j < 32 && k < 32,
    ;
}

/// Bit `k` of the hot mask over `n` bytes marks a hot byte below `n`.
pub proof fn lemma_hot_mask_bits(block: Seq<u8>, n: int, k: u32)
    requires
        0 <= n <= 32,
        k < 32,
    ensures
        ((hot_mask_of(block, n) >> k) & 1 == 1) == (k < n && is_hot_byte(block[k as int])),
    decreases n,
{
    if n == 0 {
        assert((0u32 >> k) & 1 == 0) by (bit_vector)
            requires
                k < 32,
        ;
    } else {
        lemma_hot_mask_bits(block, n - 1, k);
        if is_hot_byte(block[n - 1]) {
            lemma_or_bit(hot_mask_of(block, n - 1), (n - 1) as u32, k);
        }
    }
}

/// Classify up to 32 bytes: emptiness, the 0x85 entry marker at byte 0,
/// and a bit-mask of hot-byte positions.
pub fn scan_block_scalar(block: &[u8]) -> (r: BlockScanResult)
    requires
        block@.len() >= 1,
    ensures
        r.classifies(block@),
{
    let mut is_empty: bool = true;
    let mut hot_mask: u32 = 0;
    let has_metadata: bool = block[0] == 0x85;
    let n: usize = if block.len() < 32 {
        block.len()
    } else {
        32
    };
    let mut i: usize = 0;
    while i < n
        invariant
            n <= 32,
            n == if block@.len() < 32 {
                block@.len() as int
            } else {
                32int
            },
            i <= n,
            is_empty == (forall|k: int| 0 <= k < i ==> block@[k] == 0),
            hot_mask == hot_mask_of(block@, i as int),
        decreases n - i,
    {
        let b: u8 = block[i];
        if b != 0 {
            is_empty = false;
        }
        if b == 121 || b == 104 || b == 123 || b == 118 || b == 47 {
            hot_mask = hot_mask | (1u32 << (i as u32));
        }
        i = i + 1;
    }
    BlockScanResult { is_empty, has_metadata, hot_mask }
}

/// Classify a block, dispatching on its width.
///
/// The wide path additionally folds bytes 32..64 into the emptiness
/// verdict, as the 64-byte classifier does; the hot mask always covers
/// the first 32 bytes.
pub fn scan_block_simd(block: &[u8]) -> (r: BlockScanResult)
    requires
        block@.len() >= 1,
    ensures
        block@.len() < 32 ==> r.classifies(block@),
        block@.len() >= 32 ==> {
            &&& r.has_metadata == (block@[0] == 0x85)
            &&& r.is_empty == (forall|i: int|
                0 <= i < block@.len() && i < 64 ==> block@[i] == 0)
            &&& r.hot_mask == hot_mask_of(block@, 32)
        },
{
    let narrow: BlockScanResult = scan_block_scalar(block);
    if block.len() < 32 {
        return narrow;
    }
    let mut is_empty: bool = narrow.is_empty;
    let n: usize = if block.len() < 64 {
        block.len()
    } else {
        64
    };
    let mut i: usize = 32;
    while i < n
        invariant
            32 <= i <= n <= 64,
            block@.len() >= 32,
            n == if block@.len() < 64 {
                block@.len() as int
            } else {
                64int
            },
            is_empty == (forall|k: int| 0 <= k < i && k < block@.len() ==> block@[k] == 0),
        decreases n - i,
    {
        if block[i] != 0 {
            is_empty = false;
        }
        i = i + 1;
    }
    BlockScanResult { is_empty, has_metadata: narrow.has_metadata, hot_mask: narrow.hot_mask }
}

/// A 64-byte block, the unit of one classification call.
#[derive(Debug, Clone, Copy)]
pub struct AlignedBlock {
    pub data: [u8; 64],
}

/// Results of a full 64-byte block classification.
#[derive(Debug, Clone, Copy, PartialEq, Eq, Structural)]
pub struct BlockScanResultExt {
    pub is_empty: bool,
    pub has_metadata: bool,
    /// Hot mask of the first 32 bytes.
    pub hot_mask_lo: u32,
    /// Hot mask of the second 32 bytes.
    pub hot_mask_hi: u32,
    /// Number of zero bytes among the 64.
    pub zero_count: u8,
    /// Few zero bytes and some hot content.
    pub high_entropy: bool,
}

/// Number of zero bytes in a prefix.
pub open spec fn spec_zero_count(s: Seq<u8>, n: int) -> nat
    decreases n,
{
    if n <= 0 {
        0
    } else {
        spec_zero_count(s, n - 1) + if s[n - 1] == 0 {
            1nat
        } else {
            0nat
        }
    }
}

/// Classify one 64-byte block: emptiness, the entry marker, the hot
/// masks of both halves, the zero-byte count, and the high-entropy
/// heuristic (fewer than 8 zero bytes alongside hot content).
pub fn classify_block(block: &AlignedBlock) -> (r: BlockScanResultExt)
    ensures
        r.has_metadata == (block.data@[0] == 0x85),
        r.is_empty == (forall|i: int| 0 <= i < 64 ==> block.data@[i] == 0),
        r.hot_mask_lo == hot_mask_of(block.data@, 32),
        r.hot_mask_hi == hot_mask_of(block.data@.skip(32), 32),
        r.zero_count == spec_zero_count(block.data@, 64),
        r.high_entropy == (spec_zero_count(block.data@, 64) < 8 && (hot_mask_of(block.data@, 32)
            != 0 || hot_mask_of(block.data@.skip(32), 32) != 0)),
{
    let data: &[u8] = block.data.as_slice();
    let mut lo: u32 = 0;
    let mut hi: u32 = 0;
    let mut zero_count: u8 = 0;
    let has_metadata: bool = data[0] == 0x85;
    let mut i: usize = 0;
    while i < 32
        invariant
            data@ == block.data@,
            data@.len() == 64,
            i <= 32,
            zero_count <= i,
            zero_count == spec_zero_count(data@, i as int),
            lo == hot_mask_of(data@, i as int),
        decreases 32 - i,
    {
        let b: u8 = data[i];
        if b == 0 {
            zero_count = zero_count + 1;
        }
        if b == 121 || b == 104 || b == 123 || b == 118 || b == 47 {
            lo = lo | (1u32 << (i as u32));
        }
        i = i + 1;
    }
    let mut j: usize = 0;
    while j < 32
        invariant
            data@ == block.data@,
            data@.len() == 64,
            j <= 32,
            zero_count <= 32 + j,
            zero_count == spec_zero_count(data@, 32 + j),
            hi == hot_mask_of(data@.skip(32), j as int),
        decreases 32 - j,
    {
        let b: u8 = data[32 + j];
        proof {
            assert(data@.skip(32)[j as int] == data@[32 + j]);
        }
        if b == 0 {
            zero_count = zero_count + 1;
        }
        if b == 121 || b == 104 || b == 123 || b == 118 || b == 47 {
            hi = hi | (1u32 << (j as u32));
        }
        j = j + 1;
    }
    let is_empty: bool = zero_count == 64;
    proof {
        lemma_zero_count_full(data@, 64);
    }
    let high_entropy: bool = zero_count < 8 && (lo != 0 || hi != 0);
    BlockScanResultExt { is_empty, has_metadata, hot_mask_lo: lo, hot_mask_hi: hi, zero_count, high_entropy }
}

/// The zero count reaches the length exactly on all-zero prefixes.
proof fn lemma_zero_count_full(s: Seq<u8>, n: int)
    requires
        0 <= n <= s.len(),
    ensures
        spec_zero_count(s, n) == n <==> (forall|i: int| 0 <= i < n ==> s[i] == 0),
    decreases n,
{
    if n > 0 {
        lemma_zero_count_full(s, n - 1);
        lemma_zero_count_le(s, n - 1);
    }
}

proof fn lemma_zero_count_le(s: Seq<u8>, n: int)
    ensures
        spec_zero_count(s, n) <= if n >= 0 {
            n
        } else {
            0int
        },
    decreases n,
{
    if n > 0 {
        lemma_zero_count_le(s, n - 1);
    }
}

} // verus!
