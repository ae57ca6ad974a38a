//! Byte-exact exFAT structures: boot-sector discovery, directory entry
//! set parsing, and cluster-chain extraction.
//!
//! All parsers are total: any structural discrepancy yields "not found"
//! rather than an error. The chain walker terminates on an invalid
//! cluster, an end-of-chain mark, a revisited cluster, the end of the
//! image, or the extraction cap, and its output never exceeds that cap.

use vstd::prelude::*;

verus! {

/// Entry type markers.
pub const ENTRY_FILE: u8 = 0x85;
pub const ENTRY_STREAM: u8 = 0xC0;
pub const ENTRY_FILENAME: u8 = 0xC1;
pub const ENTRY_DELETED_FILE: u8 = 0x05;
pub const ENTRY_DELETED_STREAM: u8 = 0x40;
pub const ENTRY_DELETED_FILENAME: u8 = 0x41;

/// One directory entry is 32 bytes.
pub const DIRECTORY_ENTRY_SIZE: usize = 32;

/// Largest cluster size the format allows: 32 MiB.
pub const MAX_CLUSTER_SIZE: u64 = 0x2000000;

/// Hard cap on extracted content: 250 MiB.
pub const MAX_EXTRACT_SIZE: u64 = 0xFA00000;

/// Little-endian 16-bit value at `o`.
pub open spec fn le16_at(d: Seq<u8>, o: int) -> int {
    d[o] + d[o + 1] * 0x100
}

/// Little-endian 32-bit value at `o`.
pub open spec fn le32_at(d: Seq<u8>, o: int) -> int {
    d[o] + d[o + 1] * 0x100 + d[o + 2] * 0x10000 + d[o + 3] * 0x1000000
}

/// Little-endian 64-bit value at `o`.
pub open spec fn le64_at(d: Seq<u8>, o: int) -> int {
    d[o] + d[o + 1] * 0x100 + d[o + 2] * 0x10000 + d[o + 3] * 0x1000000 + d[o + 4]
        * 0x100000000 + d[o + 5] * 0x10000000000 + d[o + 6] * 0x1000000000000 + d[o + 7]
        * 0x100000000000000
}

/// Read a little-endian `u16`, `None` past the end.
pub fn read_u16_le(data: &[u8], offset: usize) -> (r: Option<u16>)
    ensures
        offset + 2 <= data@.len() ==> r == Some(le16_at(data@, offset as int) as u16),
        offset + 2 > data@.len() ==> r is None,
{
    if data.len() >= 2 && offset <= data.len() - 2 {
        Some((data[offset] as u16) + (data[offset + 1] as u16) * 0x100)
    } else {
        None
    }
}

/// Read a little-endian `u32`, `None` past the end.
pub fn read_u32_le(data: &[u8], offset: usize) -> (r: Option<u32>)
    ensures
        offset + 4 <= data@.len() ==> r == Some(le32_at(data@, offset as int) as u32),
        offset + 4 > data@.len() ==> r is None,
{
    if data.len() >= 4 && offset <= data.len() - 4 {
        Some(
            (data[offset] as u32) + (data[offset + 1] as u32) * 0x100 + (data[offset + 2] as u32)
                * 0x10000 + (data[offset + 3] as u32) * 0x1000000,
        )
    } else {
        None
    }
}

/// Read a little-endian `u64`, `None` past the end.
pub fn read_u64_le(data: &[u8], offset: usize) -> (r: Option<u64>)
    ensures
        offset + 8 <= data@.len() ==> r == Some(le64_at(data@, offset as int) as u64),
        offset + 8 > data@.len() ==> r is None,
{
    if data.len() >= 8 && offset <= data.len() - 8 {
        Some(
            (data[offset] as u64) + (data[offset + 1] as u64) * 0x100 + (data[offset + 2] as u64)
                * 0x10000 + (data[offset + 3] as u64) * 0x1000000 + (data[offset + 4] as u64)
                * 0x100000000 + (data[offset + 5] as u64) * 0x10000000000 + (data[offset
                + 6] as u64) * 0x1000000000000 + (data[offset + 7] as u64) * 0x100000000000000,
        )
    } else {
        None
    }
}

/// Parsed exFAT boot-sector parameters, in image-absolute bytes where
/// applicable.
#[derive(Debug, Clone, PartialEq, Eq, Structural)]
pub struct ExFatBootParams {
    pub sector_size: u64,
    pub cluster_size: u64,
    pub fat_offset: u64,
    pub fat_length_sectors: u32,
    pub cluster_heap_offset: u64,
    pub cluster_count: u32,
    pub root_dir_cluster: u32,
    pub boot_sector_offset: u64,
}

/// The eight-byte file-system name at `off + 3` spells `EXFAT` followed
/// by three spaces.
pub open spec fn spec_boot_signature_ok(d: Seq<u8>, off: int) -> bool {
    &&& d[off + 3] == 69
    &&& d[off + 4] == 88
    &&& d[off + 5] == 70
    &&& d[off + 6] == 65
    &&& d[off + 7] == 84
    &&& d[off + 8] == 32
    &&& d[off + 9] == 32
    &&& d[off + 10] == 32
}

/// The boot sector at `off` parses: signature, shifts in range, sizes
/// and derived offsets in range and non-zero.
pub open spec fn spec_boot_valid(d: Seq<u8>, off: int) -> bool {
    &&& 0 <= off
    &&& off + 120 <= d.len()
    &&& spec_boot_signature_ok(d, off)
    &&& 9 <= d[off + 108] <= 12
    &&& d[off + 109] <= 25
    &&& spec_cluster_size(d, off) <= MAX_CLUSTER_SIZE
    &&& le32_at(d, off + 80) * spec_sector_size(d, off) + off <= u64::MAX
    &&& le32_at(d, off + 88) * spec_sector_size(d, off) + off <= u64::MAX
    &&& le32_at(d, off + 80) * spec_sector_size(d, off) + off != 0
    &&& le32_at(d, off + 88) * spec_sector_size(d, off) + off != 0
}

/// Bytes per sector: two to the power of the shift at `off + 108`.
pub open spec fn spec_sector_size(d: Seq<u8>, off: int) -> u64 {
    (1u64 << (d[off + 108] as u64)) as u64
}

/// Bytes per cluster: the sector size shifted by the count at `off + 109`.
pub open spec fn spec_cluster_size(d: Seq<u8>, off: int) -> u64 {
    (spec_sector_size(d, off) << (d[off + 109] as u64)) as u64
}

/// The parameters a valid boot sector at `off` denotes.
pub open spec fn spec_boot_params(d: Seq<u8>, off: int) -> ExFatBootParams {
    ExFatBootParams {
        sector_size: spec_sector_size(d, off),
        cluster_size: spec_cluster_size(d, off),
        fat_offset: (le32_at(d, off + 80) * spec_sector_size(d, off) + off) as u64,
        fat_length_sectors: le32_at(d, off + 84) as u32,
        cluster_heap_offset: (le32_at(d, off + 88) * spec_sector_size(d, off) + off) as u64,
        cluster_count: le32_at(d, off + 92) as u32,
        root_dir_cluster: le32_at(d, off + 96) as u32,
        boot_sector_offset: off as u64,
    }
}

/// Try to parse a boot sector at `bs_offset`; `None` on any structural
/// discrepancy.
pub fn parse_boot_sector_at(data: &[u8], bs_offset: u64) -> (r: Option<ExFatBootParams>)
    requires
        bs_offset <= usize::MAX,
    ensures
        r is Some <==> spec_boot_valid(data@, bs_offset as int),
        r is Some ==> r == Some(spec_boot_params(data@, bs_offset as int)),
{
    let off: usize = bs_offset as usize;
    if data.len() < 120 || off > data.len() - 120 {
        return None;
    }
    if !(data[off + 3] == 69 && data[off + 4] == 88 && data[off + 5] == 70 && data[off + 6] == 65
        && data[off + 7] == 84 && data[off + 8] == 32 && data[off + 9] == 32 && data[off + 10]
        == 32) {
        return None;
    }
    let bytes_per_sector_shift: u8 = data[off + 108];
    let sectors_per_cluster_shift: u8 = data[off + 109];
    if bytes_per_sector_shift < 9 || bytes_per_sector_shift > 12 {
        return None;
    }
    if sectors_per_cluster_shift > 25 {
        return None;
    }
    proof {
        assert(9 <= bytes_per_sector_shift <= 12 ==> (1u64 << (bytes_per_sector_shift as u64))
            <= 0x1000) by (bit_vector);
    }
    let sector_size: u64 = 1u64 << (bytes_per_sector_shift as u64);
    let cluster_size: u64 = sector_size << (sectors_per_cluster_shift as u64);
    if cluster_size > MAX_CLUSTER_SIZE {
        return None;
    }
    let fat_offset_sectors: u64 = match read_u32_le(data, off + 80) {
        Some(v) => v as u64,
        None => {
            return None;
        },
    };
    let fat_length_sectors: u32 = match read_u32_le(data, off + 84) {
        Some(v) => v,
        None => {
            return None;
        },
    };
    let cluster_heap_offset_sectors: u64 = match read_u32_le(data, off + 88) {
        Some(v) => v as u64,
        None => {
            return None;
        },
    };
    let cluster_count: u32 = match read_u32_le(data, off + 92) {
        Some(v) => v,
        None => {
            return None;
        },
    };
    let root_dir_cluster: u32 = match read_u32_le(data, off + 96) {
        Some(v) => v,
        None => {
            return None;
        },
    };
    let fat_offset: u64 = match fat_offset_sectors.checked_mul(sector_size) {
        Some(m) => match m.checked_add(bs_offset) {
            Some(s) => s,
            None => {
                return None;
            },
        },
        None => {
            return None;
        },
    };
    let cluster_heap_offset: u64 = match cluster_heap_offset_sectors.checked_mul(sector_size) {
        Some(m) => match m.checked_add(bs_offset) {
            Some(s) => s,
            None => {
                return None;
            },
        },
        None => {
            return None;
        },
    };
    if fat_offset == 0 || cluster_heap_offset == 0 {
        return None;
    }
    proof {
        assert(fat_offset_sectors * sector_size <= 0xffffffffu64 * 0x1000) by (nonlinear_arith)
            requires
                fat_offset_sectors <= 0xffffffff,
                sector_size <= 0x1000,
        ;
        assert(cluster_heap_offset_sectors * sector_size <= 0xffffffffu64 * 0x1000)
            by (nonlinear_arith)
            requires
                cluster_heap_offset_sectors <= 0xffffffff,
                sector_size <= 0x1000,
        ;
    }
    Some(
        ExFatBootParams {
            sector_size,
            cluster_size,
            fat_offset,
            fat_length_sectors,
            cluster_heap_offset,
            cluster_count,
            root_dir_cluster,
            boot_sector_offset: bs_offset,
        },
    )
}

/// Look for a boot sector: at offset 0 first, then at every 512-byte
/// boundary within the first 4 MiB.
///
/// `None` means no scanned offset parses. A hit carries the parameters
/// of the first offset (in scan order) that does.
pub fn find_boot_sector(data: &[u8]) -> (r: Option<ExFatBootParams>)
    ensures
        r is None ==> forall|o: int|
            0 <= o < 0x400000 && o % 512 == 0 ==> !spec_boot_valid(data@, o),
        r is Some ==> {
            let off = r->0.boot_sector_offset as int;
            &&& spec_boot_valid(data@, off)
            &&& r == Some(spec_boot_params(data@, off))
            &&& off % 512 == 0
            &&& off < 0x400000
            &&& forall|o: int| 0 <= o < off && o % 512 == 0 ==> !spec_boot_valid(data@, o)
        },
{
    if let Some(params) = parse_boot_sector_at(data, 0) {
        return Some(params);
    }
    let limit: usize = if data.len() < 0x400000 {
        data.len()
    } else {
        0x400000
    };
    let mut offset: usize = 512;
    while offset < limit
        invariant
            offset % 512 == 0,
            512 <= offset,
            limit <= 0x400000,
            limit == if data@.len() < 0x400000 {
                data@.len() as int
            } else {
                0x400000int
            },
            forall|o: int| 0 <= o < offset && o % 512 == 0 ==> !spec_boot_valid(data@, o),
        decreases limit + 512 - offset,
    {
        if offset + 120 > data.len() {
            proof {
                assert(forall|o: int|
                    offset <= o < 0x400000 ==> o + 120 > data@.len() && !spec_boot_valid(
                        data@,
                        o,
                    ));
            }
            return None;
        }
        if data[offset + 3] == 69 && data[offset + 4] == 88 && data[offset + 5] == 70
            && data[offset + 6] == 65 && data[offset + 7] == 84 && data[offset + 8] == 32
            && data[offset + 9] == 32 && data[offset + 10] == 32 {
            if let Some(params) = parse_boot_sector_at(data, offset as u64) {
                return Some(params);
            }
        }
        offset = offset + 512;
    }
    proof {
        assert(forall|o: int|
            limit <= o < 0x400000 ==> o + 120 > data@.len() && !spec_boot_valid(data@, o));
    }
    None
}

/// Image-absolute byte offset of a cluster:
/// `heap_offset + (cluster - 2) * cluster_size`.
///
/// `None` for the two reserved clusters and on overflow.
pub fn cluster_to_offset(params: &ExFatBootParams, cluster: u32) -> (r: Option<u64>)
    ensures
        r == spec_cluster_offset(params, cluster),
{
    if cluster < 2 {
        return None;
    }
    let delta: u64 = (cluster - 2) as u64;
    match delta.checked_mul(params.cluster_size) {
        Some(m) => match params.cluster_heap_offset.checked_add(m) {
            Some(s) => Some(s),
            None => None,
        },
        None => None,
    }
}

/// The FAT entry for `cluster`: a little-endian `u32` at
/// `fat_offset + 4 * cluster`, `None` past the end of the image.
pub fn fat_next_cluster(data: &[u8], params: &ExFatBootParams, cluster: u32) -> (r: Option<u32>)
    ensures
        ({
            let o = params.fat_offset + (cluster as int) * 4;
            if o + 4 <= data@.len() && o <= usize::MAX {
                r == Some(le32_at(data@, o) as u32)
            } else {
                r is None
            }
        }),
{
    let offset_bytes: u64 = (cluster as u64) * 4;
    let fat_entry_offset: u64 = match params.fat_offset.checked_add(offset_bytes) {
        Some(v) => v,
        None => {
            return None;
        },
    };
    if fat_entry_offset > usize::MAX as u64 {
        return None;
    }
    read_u32_le(data, fat_entry_offset as usize)
}

/// The highest cluster number the walk will follow.
pub open spec fn spec_max_chain(params: &ExFatBootParams) -> int {
    if params.cluster_count < 0xFFFFFFFF {
        params.cluster_count + 1
    } else {
        0xFFFFFFFF
    }
}

/// How many bytes the walk reads from the first cluster: the requested
/// size under its cap, then under the cluster size, clipped at the end
/// of the image.
pub open spec fn spec_first_want(
    data: Seq<u8>,
    params: &ExFatBootParams,
    first_cluster: u32,
    file_size: u64,
) -> int {
    let actual: int = if file_size < MAX_EXTRACT_SIZE {
        file_size as int
    } else {
        MAX_EXTRACT_SIZE as int
    };
    let start = spec_cluster_offset(params, first_cluster)->0 as int;
    let to_read: int = if actual < params.cluster_size {
        actual
    } else {
        params.cluster_size as int
    };
    if start + to_read < data.len() {
        to_read
    } else {
        data.len() - start
    }
}

/// The first cluster is readable: a valid cluster number inside the
/// chain bound whose mapped offset lies in the image with at least one
/// byte to read.
pub open spec fn spec_first_readable(
    data: Seq<u8>,
    params: &ExFatBootParams,
    first_cluster: u32,
    file_size: u64,
) -> bool {
    &&& 2 <= first_cluster < 0xFFFFFFF7
    &&& first_cluster <= spec_max_chain(params)
    &&& file_size > 0
    &&& spec_cluster_offset(params, first_cluster) is Some
    &&& (spec_cluster_offset(params, first_cluster)->0 as int) < data.len()
    &&& spec_first_want(data, params, first_cluster, file_size) > 0
}

/// Extract file content by walking clusters from `first_cluster`,
/// either consecutively (`no_fat_chain`) or along the FAT chain.
///
/// The walk stops on an invalid cluster (< 2 or at/above the
/// end-of-chain mark `0xFFFFFFF7`), a cluster beyond the volume's count,
/// a revisited cluster, an offset past the image, or once the requested
/// size is served. Output is capped at [`MAX_EXTRACT_SIZE`].
pub fn extract_file_content(
    data: &[u8],
    params: &ExFatBootParams,
    first_cluster: u32,
    file_size: u64,
    no_fat_chain: bool,
) -> (r: Vec<u8>)
    ensures
        r@.len() <= file_size,
        r@.len() <= MAX_EXTRACT_SIZE,
        first_cluster < 2 || file_size == 0 ==> r@.len() == 0,
        // A readable first cluster puts its bytes at the front of the
        // output.
        spec_first_readable(data@, params, first_cluster, file_size) ==> ({
            let start = spec_cluster_offset(params, first_cluster)->0 as int;
            let want = spec_first_want(data@, params, first_cluster, file_size);
            r@.len() >= want && r@.subrange(0, want) =~= data@.subrange(start, start + want)
        }),
{
    if first_cluster < 2 || file_size == 0 {
        return Vec::new();
    }
    let actual_size: u64 = if file_size < MAX_EXTRACT_SIZE {
        file_size
    } else {
        MAX_EXTRACT_SIZE
    };
    let mut content: Vec<u8> = Vec::new();
    let mut remaining: u64 = actual_size;
    let mut cluster: u32 = first_cluster;
    let mut visited: Vec<u32> = Vec::new();
    let max_chain: u32 = if params.cluster_count < 0xFFFFFFFF {
        params.cluster_count + 1
    } else {
        0xFFFFFFFF
    };
    while remaining > 0
        invariant
            content@.len() + remaining == actual_size,
            actual_size <= file_size,
            actual_size <= MAX_EXTRACT_SIZE,
            actual_size == if file_size < MAX_EXTRACT_SIZE {
                file_size as int
            } else {
                MAX_EXTRACT_SIZE as int
            },
            max_chain == spec_max_chain(params),
            spec_first_readable(data@, params, first_cluster, file_size) ==> ({
                let start0 = spec_cluster_offset(params, first_cluster)->0 as int;
                let want = spec_first_want(data@, params, first_cluster, file_size);
                (cluster == first_cluster && visited@.len() == 0 && content@.len() == 0
                    && remaining == actual_size) || (content@.len() >= want && content@.subrange(
                    0,
                    want,
                ) =~= data@.subrange(start0, start0 + want))
            }),
        ensures
            content@.len() <= actual_size,
            spec_first_readable(data@, params, first_cluster, file_size) ==> ({
                let start0 = spec_cluster_offset(params, first_cluster)->0 as int;
                let want = spec_first_want(data@, params, first_cluster, file_size);
                content@.len() >= want && content@.subrange(0, want) =~= data@.subrange(
                    start0,
                    start0 + want,
                )
            }),
        decreases remaining,
    {
        if cluster < 2 || cluster >= 0xFFFFFFF7 || cluster > max_chain {
            break;
        }
        if contains_u32(&visited, cluster) {
            break;
        }
        visited.push(cluster);
        let start: u64 = match cluster_to_offset(params, cluster) {
            Some(offset) => offset,
            None => {
                break;
            },
        };
        if start >= data.len() as u64 {
            break;
        }
        let to_read: u64 = if remaining < params.cluster_size {
            remaining
        } else {
            params.cluster_size
        };
        let end: u64 = {
            let e: u64 = match start.checked_add(to_read) {
                Some(v) => v,
                None => u64::MAX,
            };
            if e < data.len() as u64 {
                e
            } else {
                data.len() as u64
            }
        };
        if end <= start {
            break;
        }
        // Append data[start .. end]; this reads at most `to_read`
        // bytes, so at most `remaining`.
        let ghost c0: int = content@.len() as int;
        let ghost content_before: Seq<u8> = content@;
        let mut p: usize = start as usize;
        while p < end as usize
            invariant
                start < end <= data@.len(),
                start as usize <= p <= end as usize,
                end - start <= remaining,
                content@.len() == c0 + (p - start as usize),
                content_before.len() == c0,
                content@ =~= content_before + data@.subrange(start as int, p as int),
            decreases end - p,
        {
            let ghost pi: int = p as int;
            content.push(data[p]);
            p = p + 1;
            proof {
                assert forall|q: int|
                    0 <= q < pi + 1 - start implies data@.subrange(start as int, pi + 1)[q]
                    == (data@.subrange(start as int, pi).push(data@[pi]))[q] by {
                    if q < pi - start {
                    }
                }
                assert(data@.subrange(start as int, pi + 1) =~= data@.subrange(
                    start as int,
                    pi,
                ).push(data@[pi]));
                assert(content@ =~= content_before + data@.subrange(start as int, p as int));
            }
        }
        proof {
            if spec_first_readable(data@, params, first_cluster, file_size) {
                let start0 = spec_cluster_offset(params, first_cluster)->0 as int;
                let want = spec_first_want(data@, params, first_cluster, file_size);
                if content_before.len() == 0 && cluster == first_cluster {
                    assert(start == start0);
                    assert(end - start == want);
                    assert(content@ =~= Seq::empty() + data@.subrange(
                        start as int,
                        end as int,
                    ));
                    assert(content@.subrange(0, want) =~= data@.subrange(
                        start0,
                        start0 + want,
                    ));
                } else {
                    assert(content_before.len() >= want);
                    assert(content@.subrange(0, want) =~= content_before.subrange(0, want));
                }
            }
        }
        let read_len: u64 = end - start;
        remaining = remaining - read_len;
        if no_fat_chain {
            if cluster == 0xFFFFFFFF {
                break;
            }
            cluster = cluster + 1;
        } else {
            cluster = match fat_next_cluster(data, params, cluster) {
                Some(next) => next,
                None => {
                    break;
                },
            };
        }
    }
    content
}

/// A UTF-16 code unit that is its own scalar value (not a surrogate).
pub open spec fn is_scalar_unit(u: u16) -> bool {
    u < 0xD800 || u >= 0xE000
}

/// The UTF-8 encoding of one basic-plane scalar value.
pub open spec fn spec_utf8_unit(u: u16) -> Seq<u8> {
    if u < 0x80 {
        seq![u as u8]
    } else if u < 0x800 {
        seq![(0xC0 | (u >> 6)) as u8, (0x80 | (u & 0x3F)) as u8]
    } else {
        seq![
            (0xE0 | (u >> 12)) as u8,
            (0x80 | ((u >> 6) & 0x3F)) as u8,
            (0x80 | (u & 0x3F)) as u8,
        ]
    }
}

/// The UTF-8 encoding of a sequence of basic-plane scalar values.
pub open spec fn spec_utf8_of(units: Seq<u16>) -> Seq<u8>
    decreases units.len(),
{
    if units.len() == 0 {
        Seq::empty()
    } else {
        spec_utf8_unit(units[0]) + spec_utf8_of(units.drop_first())
    }
}

/// The UTF-16 units still to be collected from the filename entries of
/// an entry set, starting at entry `i`, slot `j`, with `got` units
/// already taken.
///
/// Collection visits the up to 15 slots of each filename entry
/// (type 0xC1 active, 0x41 deleted), stops an entry at the first zero
/// unit, skips surrogate units without counting them, and ends once
/// `nlen` units are counted, a non-filename entry appears, or the
/// entries run out.
pub open spec fn spec_units_from(
    d: Seq<u8>,
    total: int,
    nlen: int,
    i: int,
    j: int,
    got: int,
) -> Seq<u16>
    decreases total - i, 16 - j,
{
    if i >= total || total - i < 0 || 16 - j < 0 || j > 15 {
        Seq::empty()
    } else if 32 * i + 32 > d.len() {
        Seq::empty()
    } else if d[32 * i] != 193 && d[32 * i] != 65 {
        Seq::empty()
    } else if j >= 15 || got >= nlen {
        spec_units_from(d, total, nlen, i + 1, 0, got)
    } else {
        let ch = le16_at(d, 32 * i + 2 + 2 * j) as u16;
        if ch == 0 {
            spec_units_from(d, total, nlen, i + 1, 0, got)
        } else if is_scalar_unit(ch) {
            seq![ch] + spec_units_from(d, total, nlen, i, j + 1, got + 1)
        } else {
            spec_units_from(d, total, nlen, i, j + 1, got)
        }
    }
}

/// The filename units of the entry set at the head of `d`.
pub open spec fn spec_filename_units(d: Seq<u8>) -> Seq<u16> {
    spec_units_from(d, 1 + d[1], d[35] as int, 2, 0, 0)
}

/// The entry set at the head of `d` is well-formed: a file entry with
/// at least two secondaries, all present, the first secondary a stream
/// extension, and no positive size on a reserved first cluster.
pub open spec fn spec_entry_set_valid(d: Seq<u8>) -> bool {
    &&& d.len() >= 32
    &&& (d[0] == 133 || d[0] == 5)
    &&& d[1] >= 2
    &&& (1 + d[1]) * 32 <= d.len()
    &&& (d[32] == 192 || d[32] == 64)
    &&& !(le32_at(d, 52) < 2 && le64_at(d, 56) > 0)
}

/// A parsed exFAT directory entry set.
#[derive(Debug)]
pub struct ExFatEntry {
    /// Image-absolute offset of the entry set.
    pub offset: u64,
    /// Image-absolute offset of the file content, when resolved.
    pub data_offset: Option<u64>,
    /// The set used the deleted file marker.
    pub is_deleted: bool,
    /// Filename, decoded from UTF-16LE with NUL termination.
    pub filename: String,
    /// File size in bytes.
    pub size: u64,
    /// First cluster of the content.
    pub first_cluster: u32,
    /// Content is stored in consecutive clusters without a FAT chain.
    pub no_fat_chain: bool,
}

impl ExFatEntry {
    /// The fields of `self` are the ones the entry set at the head of
    /// `d` denotes, for a set found at image offset `base`.
    pub open spec fn matches(&self, d: Seq<u8>, base: int) -> bool {
        &&& spec_entry_set_valid(d)
        &&& self.offset == base
        &&& self.data_offset is None
        &&& self.is_deleted == (d[0] == 5)
        &&& self.no_fat_chain == ((d[33] & 2) != 0)
        &&& self.first_cluster == le32_at(d, 52)
        &&& self.size == le64_at(d, 56)
        &&& (vstd::utf8::encode_utf8(self.filename@) == spec_utf8_of(spec_filename_units(d))
            || (!vstd::utf8::valid_utf8(spec_utf8_of(spec_filename_units(d)))
                && self.filename@.len() == 0))
    }
}

/// Collect the filename units of a well-formed entry set.
fn collect_filename_units(data: &[u8]) -> (r: Vec<u16>)
    requires
        spec_entry_set_valid(data@),
    ensures
        r@ == spec_filename_units(data@),
        forall|k: int| 0 <= k < r@.len() ==> is_scalar_unit(#[trigger] r@[k]),
{
    let total: usize = 1 + data[1] as usize;
    let nlen: usize = data[35] as usize;
    let mut units: Vec<u16> = Vec::new();
    let mut i: usize = 2;
    let mut j: usize = 0;
    let mut got: usize = 0;
    while i < total && 32 * i + 32 <= data.len() && (data[32 * i] == 193 || data[32 * i] == 65)
        invariant
            spec_entry_set_valid(data@),
            total == 1 + data@[1],
            nlen == data@[35],
            2 <= i,
            j <= 15,
            got <= nlen,
            spec_filename_units(data@) == units@ + spec_units_from(
                data@,
                total as int,
                nlen as int,
                i as int,
                j as int,
                got as int,
            ),
            forall|k: int| 0 <= k < units@.len() ==> is_scalar_unit(#[trigger] units@[k]),
        decreases total - i, 16 - j,
    {
        if j >= 15 || got >= nlen {
            i = i + 1;
            j = 0;
            continue;
        }
        let ch: u16 = match read_u16_le(data, 32 * i + 2 + 2 * j) {
            Some(v) => v,
            None => {
                // The read lies inside the entry, which lies inside `data`.
                proof {
                    assert(false);
                }
                0
            },
        };
        if ch == 0 {
            i = i + 1;
            j = 0;
            continue;
        }
        if ch < 0xD800 || ch >= 0xE000 {
            proof {
                let rest = spec_units_from(
                    data@,
                    total as int,
                    nlen as int,
                    i as int,
                    (j + 1) as int,
                    (got + 1) as int,
                );
                assert((units@ + seq![ch]) + rest =~= units@ + (seq![ch] + rest));
            }
            units.push(ch);
            got = got + 1;
            j = j + 1;
        } else {
            j = j + 1;
        }
    }
    proof {
        assert(spec_units_from(
            data@,
            total as int,
            nlen as int,
            i as int,
            j as int,
            got as int,
        ) =~= Seq::<u16>::empty());
        assert(units@ + Seq::<u16>::empty() =~= units@);
    }
    units
}

/// UTF-8 encode a sequence of basic-plane scalar units.
fn encode_units(units: &Vec<u16>) -> (r: Vec<u8>)
    requires
        forall|k: int| 0 <= k < units@.len() ==> is_scalar_unit(#[trigger] units@[k]),
    ensures
        r@ == spec_utf8_of(units@),
{
    let mut out: Vec<u8> = Vec::new();
    let mut i: usize = 0;
    while i < units.len()
        invariant
            i <= units@.len(),
            forall|k: int| 0 <= k < units@.len() ==> is_scalar_unit(#[trigger] units@[k]),
            out@ == spec_utf8_of(units@.take(i as int)),
        decreases units@.len() - i,
    {
        let u: u16 = units[i];
        proof {
            lemma_utf8_of_snoc(units@.take(i as int), u);
            assert(units@.take(i + 1) =~= units@.take(i as int).push(u));
        }
        if u < 0x80 {
            out.push(u as u8);
        } else if u < 0x800 {
            out.push((0xC0 | (u >> 6)) as u8);
            out.push((0x80 | (u & 0x3F)) as u8);
        } else {
            out.push((0xE0 | (u >> 12)) as u8);
            out.push((0x80 | ((u >> 6) & 0x3F)) as u8);
            out.push((0x80 | (u & 0x3F)) as u8);
        }
        proof {
            assert(out@ =~= spec_utf8_of(units@.take(i as int)) + spec_utf8_unit(u));
        }
        i = i + 1;
    }
    proof {
        assert(units@.take(units@.len() as int) =~= units@);
    }
    out
}

/// Appending one unit appends its encoding.
proof fn lemma_utf8_of_snoc(units: Seq<u16>, u: u16)
    ensures
        spec_utf8_of(units.push(u)) == spec_utf8_of(units) + spec_utf8_unit(u),
    decreases units.len(),
{
    if units.len() == 0 {
        assert(units.push(u).len() == 1);
        assert(units.push(u)[0] == u);
        assert(units.push(u).drop_first() =~= Seq::<u16>::empty());
        assert(spec_utf8_of(Seq::<u16>::empty()) == Seq::<u8>::empty());
        assert(spec_utf8_of(units.push(u)) == spec_utf8_unit(u) + Seq::<u8>::empty());
        assert(spec_utf8_unit(u) + Seq::<u8>::empty() =~= spec_utf8_unit(u));
        assert(spec_utf8_of(units) == Seq::<u8>::empty());
        assert(Seq::<u8>::empty() + spec_utf8_unit(u) =~= spec_utf8_unit(u));
    } else {
        assert(units.push(u).drop_first() =~= units.drop_first().push(u));
        assert(units.push(u)[0] == units[0]);
        lemma_utf8_of_snoc(units.drop_first(), u);
        assert(spec_utf8_of(units.push(u)) == spec_utf8_unit(units[0]) + spec_utf8_of(
            units.drop_first().push(u),
        ));
        assert(spec_utf8_unit(units[0]) + (spec_utf8_of(units.drop_first())
            + spec_utf8_unit(u)) =~= (spec_utf8_unit(units[0]) + spec_utf8_of(
            units.drop_first(),
        )) + spec_utf8_unit(u));
    }
}

/// Somewhere in `d` at a 32-byte-aligned-or-not position, `e` denotes
/// the entry set found there, for a region at image offset `base`.
pub open spec fn spec_entry_found(e: ExFatEntry, d: Seq<u8>, base: int) -> bool {
    exists|pos: int|
        0 <= pos && pos + 32 <= d.len() && #[trigger] e.matches(d.skip(pos), base + pos)
            && e.offset == base + pos
}

/// Parse a directory entry set at the head of `data`.
///
/// Succeeds exactly on well-formed entry sets; the second component of
/// a hit is the number of 32-byte entries consumed.
pub fn parse_entry_set(data: &[u8], base_offset: u64) -> (r: Option<(ExFatEntry, usize)>)
    ensures
        r is Some <==> spec_entry_set_valid(data@),
        r is Some ==> ({
            let (entry, consumed) = r->0;
            &&& entry.matches(data@, base_offset as int)
            &&& consumed == 1 + data@[1]
        }),
{
    if data.len() < DIRECTORY_ENTRY_SIZE {
        return None;
    }
    let file_type: u8 = data[0];
    let is_deleted: bool = file_type == ENTRY_DELETED_FILE;
    if file_type != ENTRY_FILE && file_type != ENTRY_DELETED_FILE {
        return None;
    }
    let secondary_count: usize = data[1] as usize;
    if secondary_count < 2 {
        return None;
    }
    let total_entries: usize = 1 + secondary_count;
    let total_bytes: usize = total_entries * DIRECTORY_ENTRY_SIZE;
    if data.len() < total_bytes {
        return None;
    }
    let se_type: u8 = data[DIRECTORY_ENTRY_SIZE];
    if se_type != ENTRY_STREAM && se_type != ENTRY_DELETED_STREAM {
        return None;
    }
    let general_flags: u8 = data[DIRECTORY_ENTRY_SIZE + 1];
    let no_fat_chain: bool = (general_flags & 2) != 0;
    let first_cluster: u32 = match read_u32_le(data, DIRECTORY_ENTRY_SIZE + 20) {
        Some(v) => v,
        None => {
            return None;
        },
    };
    let file_size: u64 = match read_u64_le(data, DIRECTORY_ENTRY_SIZE + 24) {
        Some(v) => v,
        None => {
            return None;
        },
    };
    if first_cluster < 2 && file_size > 0 {
        return None;
    }
    let units: Vec<u16> = collect_filename_units(data);
    let encoded: Vec<u8> = encode_units(&units);
    let filename: String = match crate::validator::bytes_to_string(encoded) {
        Some(s) => s,
        None => String::new(),
    };
    Some(
        (
            ExFatEntry {
                offset: base_offset,
                data_offset: None,
                is_deleted,
                filename,
                size: file_size,
                first_cluster,
                no_fat_chain,
            },
            total_entries,
        ),
    )
}

/// The positions the entry sweep reports, from `pos` on: a well-formed
/// set at the cursor is taken and skipped whole; otherwise the cursor
/// steps one 32-byte entry.
pub open spec fn spec_sweep(data: Seq<u8>, pos: int) -> Seq<int>
    decreases data.len() - pos,
{
    if pos < 0 || pos + 32 > data.len() {
        Seq::empty()
    } else if spec_entry_set_valid(data.skip(pos)) {
        seq![pos] + spec_sweep(data, pos + 32 * (1 + data[pos + 1]))
    } else {
        spec_sweep(data, pos + 32)
    }
}

/// Scan a region for entry sets, stepping one entry on a miss and past
/// the whole set on a hit.
///
/// Every returned entry denotes a well-formed entry set inside the
/// region, at strictly increasing offsets; the sweep takes every set
/// its cursor reaches, so the result's offsets are exactly the sweep's
/// positions.
pub fn scan_for_entries(data: &[u8], base_offset: u64) -> (r: Vec<ExFatEntry>)
    requires
        base_offset + data@.len() <= u64::MAX,
    ensures
        forall|k: int|
            0 <= k < r@.len() ==> spec_entry_found(#[trigger] r@[k], data@, base_offset as int),
        forall|k: int| 0 < k < r@.len() ==> #[trigger] r@[k - 1].offset < #[trigger] r@[k].offset,
        forall|k: int|
            0 <= k < r@.len() ==> ((#[trigger] r@[k]).offset - base_offset) % 32 == 0,
        // Completeness: the offsets are exactly the sweep's positions.
        r@.map_values(|e: ExFatEntry| e.offset - base_offset) =~= spec_sweep(data@, 0),
{
    let mut entries: Vec<ExFatEntry> = Vec::new();
    if data.len() < DIRECTORY_ENTRY_SIZE {
        proof {
            assert(spec_sweep(data@, 0) =~= Seq::<int>::empty());
            assert(entries@.map_values(|e: ExFatEntry| e.offset - base_offset)
                =~= Seq::<int>::empty());
        }
        return entries;
    }
    let mut pos: usize = 0;
    while pos <= data.len() - DIRECTORY_ENTRY_SIZE
        invariant
            data@.len() >= 32,
            base_offset + data@.len() <= u64::MAX,
            pos <= data@.len(),
            pos % 32 == 0,
            forall|k: int|
                0 <= k < entries@.len() ==> ((#[trigger] entries@[k]).offset - base_offset) % 32
                    == 0,
            forall|k: int|
                0 <= k < entries@.len() ==> spec_entry_found(
                    #[trigger] entries@[k],
                    data@,
                    base_offset as int,
                ),
            forall|k: int|
                0 < k < entries@.len() ==> #[trigger] entries@[k - 1].offset
                    < #[trigger] entries@[k].offset,
            forall|k: int|
                0 <= k < entries@.len() ==> #[trigger] entries@[k].offset < base_offset + pos,
            entries@.map_values(|e: ExFatEntry| e.offset - base_offset) + spec_sweep(
                data@,
                pos as int,
            ) =~= spec_sweep(data@, 0),
        decreases data@.len() - pos,
    {
        let tail: &[u8] = vstd::slice::slice_subrange(data, pos, data.len());
        proof {
            assert(tail@ =~= data@.skip(pos as int));
        }
        match parse_entry_set(tail, base_offset + pos as u64) {
            Some((entry, consumed)) => {
                proof {
                    assert(3 <= consumed <= 256);
                    assert(consumed * 32 <= tail@.len());
                    assert(entry.matches(data@.skip(pos as int), base_offset + pos));
                }
                proof {
                    assert(spec_entry_found(entry, data@, base_offset as int));
                }
                let ghost before: Seq<ExFatEntry> = entries@;
                entries.push(entry);
                proof {
                    assert(spec_entry_set_valid(data@.skip(pos as int)));
                    assert(data@.skip(pos as int)[1] == data@[pos + 1]);
                    assert(spec_sweep(data@, pos as int) =~= seq![pos as int] + spec_sweep(
                        data@,
                        pos + 32 * (1 + data@[pos + 1]),
                    ));
                    assert(entry.offset == base_offset + pos);
                    assert(entries@.map_values(|e: ExFatEntry| e.offset - base_offset)
                        =~= before.map_values(|e: ExFatEntry| e.offset - base_offset).push(
                        pos as int,
                    ));
                    assert(entries@.map_values(|e: ExFatEntry| e.offset - base_offset)
                        + spec_sweep(data@, pos + consumed * 32) =~= spec_sweep(data@, 0));
                }
                pos = pos + consumed * DIRECTORY_ENTRY_SIZE;
            },
            None => {
                proof {
                    assert(!spec_entry_set_valid(data@.skip(pos as int)));
                    assert(spec_sweep(data@, pos as int) =~= spec_sweep(data@, pos + 32));
                }
                pos = pos + DIRECTORY_ENTRY_SIZE;
            },
        }
    }
    proof {
        assert(pos + 32 > data@.len());
        assert(spec_sweep(data@, pos as int) =~= Seq::<int>::empty());
        assert(entries@.map_values(|e: ExFatEntry| e.offset - base_offset)
            + Seq::<int>::empty() =~= entries@.map_values(
            |e: ExFatEntry| e.offset - base_offset,
        ));
    }
    entries
}

/// Resolve each entry's content offset from its first cluster.
///
/// Other fields are kept as they were.
pub fn populate_data_offsets(entries: Vec<ExFatEntry>, params: &ExFatBootParams) -> (r: Vec<
    ExFatEntry,
>)
    ensures
        r@.len() == entries@.len(),
        forall|k: int| 0 <= k < r@.len() ==> {
            let e = entries@[k];
            let u = #[trigger] r@[k];
            &&& u.offset == e.offset
            &&& u.is_deleted == e.is_deleted
            &&& u.filename == e.filename
            &&& u.size == e.size
            &&& u.first_cluster == e.first_cluster
            &&& u.no_fat_chain == e.no_fat_chain
            &&& u.data_offset == spec_cluster_offset(params, e.first_cluster)
        },
{
    let mut src: Vec<ExFatEntry> = entries;
    let mut out: Vec<ExFatEntry> = Vec::new();
    let ghost orig: Seq<ExFatEntry> = src@;
    while src.len() > 0
        invariant
            out@.len() + src@.len() == orig.len(),
            forall|k: int| 0 <= k < src@.len() ==> #[trigger] src@[k] == orig[out@.len() + k],
            forall|k: int| 0 <= k < out@.len() ==> {
                let e = orig[k];
                let u = #[trigger] out@[k];
                &&& u.offset == e.offset
                &&& u.is_deleted == e.is_deleted
                &&& u.filename == e.filename
                &&& u.size == e.size
                &&& u.first_cluster == e.first_cluster
                &&& u.no_fat_chain == e.no_fat_chain
                &&& u.data_offset == spec_cluster_offset(params, e.first_cluster)
            },
        decreases src@.len(),
    {
        let e: ExFatEntry = src.remove(0);
        let resolved: Option<u64> = cluster_to_offset(params, e.first_cluster);
        out.push(ExFatEntry { data_offset: resolved, ..e });
    }
    proof {
        assert(orig == entries@);
    }
    out
}

/// What `cluster_to_offset` yields: the reserved clusters and overflow
/// resolve to nothing.
pub open spec fn spec_cluster_offset(params: &ExFatBootParams, cluster: u32) -> Option<u64> {
    if cluster < 2 {
        None
    } else if params.cluster_heap_offset + (cluster - 2) * params.cluster_size <= u64::MAX {
        Some((params.cluster_heap_offset + (cluster - 2) * params.cluster_size) as u64)
    } else {
        None
    }
}

/// Linear membership test on a `u32` vector.
pub fn contains_u32(v: &Vec<u32>, x: u32) -> (r: bool)
    ensures
        r == v@.contains(x),
{
    let mut i: usize = 0;
    while i < v.len()
        invariant
            i <= v@.len(),
            forall|k: int| 0 <= k < i ==> v@[k] != x,
        decreases v@.len() - i,
    {
        if v[i] == x {
            return true;
        }
        i = i + 1;
    }
    false
}

} // verus!
