//! Pairwise fragment affinity: cosine and Jaccard similarity, a
//! filesystem-hint bonus, a physical-distance decay, and grouping of
//! related fragments into connected components.

use vstd::prelude::*;
use crate::smart_separation::{ByteFrequency, SmartSeparation};
use crate::matcher::eq_bytes;
use vstd::arithmetic::div_mod::{lemma_div_is_ordered, lemma_div_multiples_vanish};

verus! {

/// How many elements of `a` (up to index `n`) occur in `b`.
pub open spec fn spec_count_in(a: Seq<Seq<u8>>, b: Seq<Seq<u8>>, n: int) -> nat
    decreases n,
{
    if n <= 0 {
        0
    } else {
        spec_count_in(a, b, n - 1) + if b.contains(a[n - 1]) {
            1nat
        } else {
            0nat
        }
    }
}

/// How many elements of `b` (up to index `n`) do not occur in `a`.
pub open spec fn spec_count_not_in(b: Seq<Seq<u8>>, a: Seq<Seq<u8>>, n: int) -> nat
    decreases n,
{
    if n <= 0 {
        0
    } else {
        spec_count_not_in(b, a, n - 1) + if a.contains(b[n - 1]) {
            0nat
        } else {
            1nat
        }
    }
}

/// The Jaccard similarity of two link collections, in milli:
/// `1000 * |A and B| / |A or B|`, with 0 for two empty collections.
pub open spec fn spec_jaccard(a: Seq<Seq<u8>>, b: Seq<Seq<u8>>) -> int {
    let inter = spec_count_in(a, b, a.len() as int) as int;
    let uni = a.len() + spec_count_not_in(b, a, b.len() as int) as int;
    if uni == 0 {
        0
    } else {
        1000 * inter / uni
    }
}

/// Is `x` one of the byte strings of `v`?
fn vec_contains_bytes(v: &Vec<Vec<u8>>, x: &[u8]) -> (r: bool)
    ensures
        r == v@.map_values(|e: Vec<u8>| e@).contains(x@),
{
    let mut i: usize = 0;
    while i < v.len()
        invariant
            i <= v@.len(),
            forall|k: int| 0 <= k < i ==> (#[trigger] v@[k])@ != x@,
        decreases v@.len() - i,
    {
        if eq_bytes(v[i].as_slice(), x) {
            proof {
                assert(v@.map_values(|e: Vec<u8>| e@)[i as int] == x@);
            }
            return true;
        }
        i = i + 1;
    }
    proof {
        let mapped = v@.map_values(|e: Vec<u8>| e@);
        assert forall|k: int| 0 <= k < mapped.len() implies #[trigger] mapped[k] != x@ by {
            assert((v@[k])@ != x@);
        }
    }
    false
}

/// Jaccard similarity of two link collections, in milli.
///
/// Exact at the ends: two equal non-empty collections give 1000, and a
/// comparison against an empty collection gives 0.
pub fn jaccard_similarity(left: &Vec<Vec<u8>>, right: &Vec<Vec<u8>>) -> (r: u32)
    ensures
        r <= 1000,
        r == spec_jaccard(left@.map_values(|e: Vec<u8>| e@), right@.map_values(|e: Vec<u8>| e@)),
        left@.len() == 0 || right@.len() == 0 ==> r == 0,
{
    let ghost la: Seq<Seq<u8>> = left@.map_values(|e: Vec<u8>| e@);
    let ghost ra: Seq<Seq<u8>> = right@.map_values(|e: Vec<u8>| e@);
    if left.len() == 0 && right.len() == 0 {
        return 0;
    }
    let mut inter: u64 = 0;
    let mut i: usize = 0;
    while i < left.len()
        invariant
            i <= left@.len(),
            la == left@.map_values(|e: Vec<u8>| e@),
            ra == right@.map_values(|e: Vec<u8>| e@),
            inter <= i,
            inter == spec_count_in(la, ra, i as int),
        decreases left@.len() - i,
    {
        proof {
            assert(la[i as int] == (left@[i as int])@);
        }
        if vec_contains_bytes(right, left[i].as_slice()) {
            inter = inter + 1;
        }
        i = i + 1;
    }
    let mut extra: u64 = 0;
    let mut j: usize = 0;
    while j < right.len()
        invariant
            j <= right@.len(),
            la == left@.map_values(|e: Vec<u8>| e@),
            ra == right@.map_values(|e: Vec<u8>| e@),
            extra <= j,
            extra == spec_count_not_in(ra, la, j as int),
        decreases right@.len() - j,
    {
        proof {
            assert(ra[j as int] == (right@[j as int])@);
        }
        if !vec_contains_bytes(left, right[j].as_slice()) {
            extra = extra + 1;
        }
        j = j + 1;
    }
    let uni: u128 = left.len() as u128 + extra as u128;
    if uni == 0 {
        proof {
            lemma_count_in_bounded(la, ra, la.len() as int);
        }
        return 0;
    }
    proof {
        lemma_count_in_bounded(la, ra, la.len() as int);
        assert(inter <= uni);
        lemma_div_is_ordered(
            1000 * (inter as int),
            1000 * (uni as int),
            uni as int,
        );
        lemma_div_multiples_vanish(1000, uni as int);
        assert(1000 * (uni as int) == (uni as int) * 1000) by (nonlinear_arith);
        assert(1000 * (inter as int) <= 1000 * (uni as int)) by (nonlinear_arith)
            requires
                inter <= uni,
        ;
        if right@.len() == 0 {
            lemma_count_in_empty(la, ra, la.len() as int);
        }
        if left@.len() == 0 || right@.len() == 0 {
            assert(inter == 0);
            assert((0int) * 1000 == 0) by (nonlinear_arith);
        }
    }
    let r64: u128 = (inter as u128) * 1000 / uni;
    r64 as u32
}

/// Elements counted into the intersection never outnumber the list.
proof fn lemma_count_in_bounded(a: Seq<Seq<u8>>, b: Seq<Seq<u8>>, n: int)
    ensures
        spec_count_in(a, b, n) <= if n >= 0 {
            n
        } else {
            0int
        },
    decreases n,
{
    if n > 0 {
        lemma_count_in_bounded(a, b, n - 1);
    }
}

/// Two equal non-empty collections have Jaccard 1000 exactly.
pub proof fn lemma_jaccard_self(a: Seq<Seq<u8>>)
    requires
        a.len() > 0,
    ensures
        spec_jaccard(a, a) == 1000,
{
    lemma_count_in_self(a, a.len() as int);
    lemma_count_not_in_self(a, a.len() as int);
    lemma_div_multiples_vanish(1000, a.len() as int);
    assert(1000 * (a.len() as int) == (a.len() as int) * 1000) by (nonlinear_arith);
}

proof fn lemma_count_in_self(a: Seq<Seq<u8>>, n: int)
    requires
        n <= a.len(),
    ensures
        spec_count_in(a, a, n) == if n >= 0 {
            n
        } else {
            0int
        },
    decreases n,
{
    if n > 0 {
        lemma_count_in_self(a, n - 1);
        assert(a.contains(a[n - 1]));
    }
}

proof fn lemma_count_not_in_self(a: Seq<Seq<u8>>, n: int)
    requires
        n <= a.len(),
    ensures
        spec_count_not_in(a, a, n) == 0,
    decreases n,
{
    if n > 0 {
        lemma_count_not_in_self(a, n - 1);
        assert(a.contains(a[n - 1]));
    }
}

/// Jaccard against the empty collection is 0; Jaccard is never above
/// 1000; an equal non-empty pair reaches exactly 1000.
pub proof fn lemma_jaccard_bounds(a: Seq<Seq<u8>>, b: Seq<Seq<u8>>)
    ensures
        0 <= spec_jaccard(a, b) <= 1000,
        b.len() == 0 ==> spec_jaccard(a, b) <= 0,
        a.len() > 0 && a == b ==> spec_jaccard(a, b) == 1000,
{
    lemma_count_in_bounded(a, b, a.len() as int);
    let inter = spec_count_in(a, b, a.len() as int) as int;
    let uni = a.len() + spec_count_not_in(b, a, b.len() as int) as int;
    if uni > 0 {
        lemma_div_is_ordered(1000 * inter, 1000 * uni, uni as int);
        lemma_div_multiples_vanish(1000, uni as int);
        assert(1000 * uni == uni * 1000) by (nonlinear_arith);
        assert(1000 * inter <= 1000 * uni) by (nonlinear_arith)
            requires
                inter <= uni,
        ;
        assert(1000 * inter >= 0) by (nonlinear_arith)
            requires
                inter >= 0,
        ;
        lemma_div_is_ordered(0, 1000 * inter, uni as int);
    }
    if b.len() == 0 {
        lemma_count_in_empty(a, b, a.len() as int);
    }
    if a.len() > 0 && a == b {
        lemma_jaccard_self(a);
    }
}

proof fn lemma_count_in_empty(a: Seq<Seq<u8>>, b: Seq<Seq<u8>>, n: int)
    requires
        b.len() == 0,
    ensures
        spec_count_in(a, b, n) == 0,
    decreases n,
{
    if n > 0 {
        lemma_count_in_empty(a, b, n - 1);
    }
}

/// Filesystem metadata attached to a fragment for hint matching.
#[derive(Debug, Clone)]
pub struct ExFatMetadata {
    pub filename: Option<String>,
    pub first_cluster: Option<u32>,
    pub size: Option<u64>,
}

impl ExFatMetadata {
    pub fn empty() -> (r: Self)
        ensures
            r.filename is None,
            r.first_cluster is None,
            r.size is None,
    {
        ExFatMetadata { filename: None, first_cluster: None, size: None }
    }

    /// 1000 milli when any one of filename (ASCII case-insensitive),
    /// first cluster, or size matches; else 0.
    pub fn match_score(&self, other: &Self) -> (r: u32)
        ensures
            r == 0 || r == 1000,
            r == 1000 <==> (
                (self.first_cluster is Some && other.first_cluster is Some
                    && self.first_cluster->0 == other.first_cluster->0)
                || (self.size is Some && other.size is Some && self.size->0 == other.size->0)
                || (self.filename is Some && other.filename is Some
                    && spec_ascii_ci_equal(self.filename->0@, other.filename->0@))),
    {
        let cluster_match: bool = match (&self.first_cluster, &other.first_cluster) {
            (Some(a), Some(b)) => *a == *b,
            _ => false,
        };
        let size_match: bool = match (&self.size, &other.size) {
            (Some(a), Some(b)) => *a == *b,
            _ => false,
        };
        let name_match: bool = match (&self.filename, &other.filename) {
            (Some(a), Some(b)) => ascii_ci_equal_str(a.as_str(), b.as_str()),
            _ => false,
        };
        if name_match || cluster_match || size_match {
            1000
        } else {
            0
        }
    }
}

/// ASCII-case-insensitive equality of two character sequences.
pub open spec fn spec_ascii_ci_equal(a: Seq<char>, b: Seq<char>) -> bool {
    a.len() == b.len() && forall|i: int|
        0 <= i < a.len() ==> lower_char(#[trigger] a[i]) == lower_char(b[i])
}

pub open spec fn lower_char(c: char) -> char {
    if 'A' <= c <= 'Z' {
        ((c as u8) + 32) as char
    } else {
        c
    }
}

/// ASCII-case-insensitive string comparison.
fn ascii_ci_equal_str(a: &str, b: &str) -> (r: bool)
    ensures
        r == spec_ascii_ci_equal(a@, b@),
{
    let an: usize = a.unicode_len();
    let bn: usize = b.unicode_len();
    if an != bn {
        return false;
    }
    let mut i: usize = 0;
    while i < an
        invariant
            an == a@.len() == b@.len(),
            i <= an,
            forall|k: int| 0 <= k < i ==> lower_char(#[trigger] a@[k]) == lower_char(b@[k]),
        decreases an - i,
    {
        let ca: char = a.get_char(i);
        let cb: char = b.get_char(i);
        let la: char = if 'A' <= ca && ca <= 'Z' {
            (((ca as u8) + 32) as u8) as char
        } else {
            ca
        };
        let lb: char = if 'A' <= cb && cb <= 'Z' {
            (((cb as u8) + 32) as u8) as char
        } else {
            cb
        };
        if la != lb {
            return false;
        }
        i = i + 1;
    }
    true
}

/// A fragment descriptor for linking: its byte-frequency profile, its
/// token URLs, and an optional filesystem hint.
#[derive(Debug)]
pub struct FragmentDescriptor {
    pub byte_frequency: ByteFrequency,
    pub links: Vec<Vec<u8>>,
    pub exfat_metadata: Option<ExFatMetadata>,
}

impl FragmentDescriptor {
    pub open spec fn wf(&self) -> bool {
        self.byte_frequency.wf()
    }

    pub fn new(data: &[u8]) -> (r: Self)
        requires
            data@.len() <= 0x1_0000_0000_0000,
        ensures
            r.byte_frequency.models(data@),
            r.links@.len() == 0,
            r.exfat_metadata is None,
            r.wf(),
    {
        FragmentDescriptor {
            byte_frequency: ByteFrequency::from_bytes(data),
            links: Vec::new(),
            exfat_metadata: None,
        }
    }

    pub fn with_links(self, links: Vec<Vec<u8>>) -> (r: Self)
        ensures
            r.links == links,
            r.byte_frequency == self.byte_frequency,
            r.exfat_metadata == self.exfat_metadata,
    {
        FragmentDescriptor { links, ..self }
    }

    pub fn with_exfat_metadata(self, metadata: ExFatMetadata) -> (r: Self)
        ensures
            r.exfat_metadata == Some(metadata),
            r.byte_frequency == self.byte_frequency,
            r.links == self.links,
    {
        FragmentDescriptor { exfat_metadata: Some(metadata), ..self }
    }
}

/// Channel similarities and the thresholded total, all in milli.
#[derive(Debug, Clone, PartialEq, Eq, Structural)]
pub struct LinkScore {
    pub cosine_similarity: u32,
    pub jaccard_similarity: u32,
    pub exfat_similarity: u32,
    pub total_score: u32,
}

/// Pairwise scorer with channel weights and thresholds in milli.
#[derive(Debug, Clone, PartialEq, Eq, Structural)]
pub struct FragmentLinker {
    pub cosine_weight: u32,
    pub cosine_threshold: u32,
    pub jaccard_weight: u32,
    pub jaccard_threshold: u32,
    pub exfat_weight: u32,
    pub exfat_threshold: u32,
}

impl FragmentLinker {
    /// Weights that keep the total inside `u32`.
    pub open spec fn wf(&self) -> bool {
        self.cosine_weight <= 1000 && self.jaccard_weight <= 1000 && self.exfat_weight <= 1000
    }

    /// The default channel weights: cosine 0.55 over 0.92, Jaccard 0.25
    /// over 0.30, filesystem hint 0.20 over 1.0.
    pub fn default() -> (r: Self)
        ensures
            r.cosine_weight == 550,
            r.cosine_threshold == 920,
            r.jaccard_weight == 250,
            r.jaccard_threshold == 300,
            r.exfat_weight == 200,
            r.exfat_threshold == 1000,
            r.wf(),
    {
        FragmentLinker {
            cosine_weight: 550,
            cosine_threshold: 920,
            jaccard_weight: 250,
            jaccard_threshold: 300,
            exfat_weight: 200,
            exfat_threshold: 1000,
        }
    }

    /// Score a pair of descriptors.
    ///
    /// Each channel contributes `weight * similarity / 1000` to the
    /// total only when it reaches its threshold; the returned fields
    /// carry the three channel similarities, so the total is pinned by
    /// them exactly.
    pub fn score(&self, left: &FragmentDescriptor, right: &FragmentDescriptor) -> (r: LinkScore)
        requires
            self.wf(),
            left.wf(),
            right.wf(),
        ensures
            r.cosine_similarity <= 1000,
            r.jaccard_similarity <= 1000,
            r.exfat_similarity == 0 || r.exfat_similarity == 1000,
            r.jaccard_similarity == spec_jaccard(
                left.links@.map_values(|e: Vec<u8>| e@),
                right.links@.map_values(|e: Vec<u8>| e@),
            ),
            r.total_score == (if r.cosine_similarity >= self.cosine_threshold {
                (r.cosine_similarity as int) * self.cosine_weight / 1000
            } else {
                0int
            }) + (if r.jaccard_similarity >= self.jaccard_threshold {
                (r.jaccard_similarity as int) * self.jaccard_weight / 1000
            } else {
                0int
            }) + (if r.exfat_similarity >= self.exfat_threshold {
                (r.exfat_similarity as int) * self.exfat_weight / 1000
            } else {
                0int
            }),
    {
        let cosine: u32 = SmartSeparation::cosine_similarity(
            &left.byte_frequency,
            &right.byte_frequency,
        );
        let jaccard: u32 = jaccard_similarity(&left.links, &right.links);
        let exfat: u32 = match (&left.exfat_metadata, &right.exfat_metadata) {
            (Some(lm), Some(rm)) => lm.match_score(rm),
            _ => 0,
        };
        let mut total: u32 = 0;
        if cosine >= self.cosine_threshold {
            proof {
                assert((cosine as int) * (self.cosine_weight as int) <= 1000000)
                    by (nonlinear_arith)
                    requires
                        cosine <= 1000 && self.cosine_weight <= 1000,
                ;
            }
            total = total + cosine * self.cosine_weight / 1000;
        }
        if jaccard >= self.jaccard_threshold {
            proof {
                assert((jaccard as int) * (self.jaccard_weight as int) <= 1000000)
                    by (nonlinear_arith)
                    requires
                        jaccard <= 1000 && self.jaccard_weight <= 1000,
                ;
            }
            total = total + jaccard * self.jaccard_weight / 1000;
        }
        if exfat >= self.exfat_threshold {
            proof {
                assert((exfat as int) * (self.exfat_weight as int) <= 1000000)
                    by (nonlinear_arith)
                    requires
                        exfat <= 1000 && self.exfat_weight <= 1000,
                ;
            }
            total = total + exfat * self.exfat_weight / 1000;
        }
        LinkScore {
            cosine_similarity: cosine,
            jaccard_similarity: jaccard,
            exfat_similarity: exfat,
            total_score: total,
        }
    }
}

/// The decay between two held fragments, from their offsets and the
/// clusterer's factor.
pub open spec fn spec_pair_decay(c: &FragmentClusterer, a: int, b: int) -> int {
    let fa = c.fragments[a];
    let fb = c.fragments[b];
    let delta: int = if fa.offset >= fb.offset {
        fa.offset - fb.offset
    } else {
        fb.offset - fa.offset
    };
    spec_decay(delta, c.distance_decay_factor as int)
}

/// A similarity damped by a decay, both in milli.
pub open spec fn spec_damped(sim: int, decay: int) -> int {
    sim * decay / 1000
}

/// The decay exponent in 1/1024 steps: `k * delta * 1024 / (100 MiB * 1000)`.
pub open spec fn spec_decay_exponent(delta: int, k: int) -> int {
    k * delta * 1024 / 104857600000
}

/// Fixed-point square-and-multiply over Q32 values, low bit first.
pub open spec fn spec_sqmul(v: int, base: int, n: int) -> int
    decreases n,
{
    if n <= 0 {
        v
    } else {
        spec_sqmul(
            if n % 2 == 1 {
                v * base / 0x1_0000_0000
            } else {
                v
            },
            base * base / 0x1_0000_0000,
            n / 2,
        )
    }
}

/// The decay value in milli: one at zero distance, zero past the
/// cutoff, else the Q32 power of `e^(-1/1024)` scaled to milli.
pub open spec fn spec_decay(delta: int, k: int) -> int {
    let n = spec_decay_exponent(delta, k);
    if n == 0 {
        1000
    } else if n > 20000 {
        0
    } else {
        spec_sqmul(0x1_0000_0000, 0xffc007ff, n) * 1000 / 0x1_0000_0000
    }
}

/// Physical-distance decay in milli: `e^(-k * delta / 100 MiB)` with
/// `k` in milli, evaluated with a fixed-point power of `e^(-1/1024)`.
///
/// Exact at zero distance; at most one; zero beyond the range where
/// anything measurable remains. The value is pinned to the fixed-point
/// evaluation [`spec_decay`].
pub fn distance_decay(delta_bytes: u64, k_milli: u32) -> (r: u32)
    ensures
        r <= 1000,
        delta_bytes == 0 ==> r == 1000,
        r == spec_decay(delta_bytes as int, k_milli as int),
{
    // Exponent in 1/1024 steps: k * delta * 1024 / (100 MiB * 1000).
    proof {
        assert((k_milli as u128) * (delta_bytes as u128)
            <= 0xffff_ffff_u128 * 0xffff_ffff_ffff_ffff) by (nonlinear_arith)
            requires
                k_milli <= 0xffff_ffff,
                delta_bytes <= 0xffff_ffff_ffff_ffff,
        ;
        assert(0xffff_ffff_u128 * 0xffff_ffff_ffff_ffff * 1024
            < 0xffff_ffff_ffff_ffff_ffff_ffff_ffff_ffff) by (nonlinear_arith);
        if delta_bytes == 0 {
            assert((k_milli as u128) * 0 == 0) by (nonlinear_arith);
        }
    }
    let n128: u128 = (k_milli as u128) * (delta_bytes as u128) * 1024 / 104857600000;
    if n128 == 0 {
        return 1000;
    }
    proof {
        assert(delta_bytes != 0);
    }
    if n128 > 20000 {
        return 0;
    }
    let mut n: u64 = n128 as u64;
    // e^(-1/1024) in Q32 fixed point.
    let mut base: u64 = 0xffc007ff;
    let mut v: u64 = 0x1_0000_0000;
    let ghost n0: int = n as int;
    while n > 0
        invariant
            v <= 0x1_0000_0000,
            base <= 0x1_0000_0000,
            spec_sqmul(0x1_0000_0000, 0xffc007ff, n0) == spec_sqmul(v as int, base as int, n as int),
        decreases n,
    {
        proof {
            assert((v as u128) * (base as u128) <= 0x1_0000_0000_0000_0000) by (nonlinear_arith)
                requires
                    v <= 0x1_0000_0000 && base <= 0x1_0000_0000,
            ;
            assert((base as u128) * (base as u128) <= 0x1_0000_0000_0000_0000)
                by (nonlinear_arith)
                requires
                    base <= 0x1_0000_0000,
            ;
            assert(0x1_0000_0000_0000_0000u128 / 0x1_0000_0000 == 0x1_0000_0000)
                by (nonlinear_arith);
        }
        if n % 2 == 1 {
            let prod: u128 = (v as u128) * (base as u128) / 0x1_0000_0000;
            proof {
                vstd::arithmetic::div_mod::lemma_div_is_ordered(
                    (v as u128) * (base as u128) as int,
                    0x1_0000_0000_0000_0000,
                    0x1_0000_0000,
                );
            }
            v = prod as u64;
        }
        let sq: u128 = (base as u128) * (base as u128) / 0x1_0000_0000;
        proof {
            vstd::arithmetic::div_mod::lemma_div_is_ordered(
                (base as u128) * (base as u128) as int,
                0x1_0000_0000_0000_0000,
                0x1_0000_0000,
            );
        }
        base = sq as u64;
        n = n / 2;
    }
    let milli: u128 = (v as u128) * 1000 / 0x1_0000_0000;
    proof {
        assert((v as u128) * 1000 <= 0x1_0000_0000u128 * 1000) by (nonlinear_arith)
            requires
                v <= 0x1_0000_0000,
        ;
        vstd::arithmetic::div_mod::lemma_div_is_ordered(
            (v as u128) * 1000 as int,
            0x1_0000_0000u128 * 1000 as int,
            0x1_0000_0000,
        );
        vstd::arithmetic::div_mod::lemma_div_multiples_vanish(1000, 0x1_0000_0000);
        assert(0x1_0000_0000u128 * 1000 == 1000 * 0x1_0000_0000) by (nonlinear_arith);
    }
    milli as u32
}

/// Sum of group sizes.
pub open spec fn spec_groups_total(groups: Seq<Vec<usize>>) -> nat
    decreases groups.len(),
{
    if groups.len() == 0 {
        0
    } else {
        spec_groups_total(groups.drop_last()) + groups.last()@.len()
    }
}

proof fn lemma_groups_total_push(groups: Seq<Vec<usize>>, g: Vec<usize>)
    ensures
        spec_groups_total(groups.push(g)) == spec_groups_total(groups) + g@.len(),
{
    assert(groups.push(g).drop_last() =~= groups);
    assert(groups.push(g).last() == g);
}

/// How many of the first `n` flags are set.
pub open spec fn spec_count_true(seen: Seq<bool>, n: int) -> nat
    decreases n,
{
    if n <= 0 {
        0
    } else {
        spec_count_true(seen, n - 1) + if seen[n - 1] {
            1nat
        } else {
            0nat
        }
    }
}

proof fn lemma_count_true_set(seen: Seq<bool>, i: int, n: int)
    requires
        0 <= i < n <= seen.len(),
        !seen[i],
    ensures
        spec_count_true(seen.update(i, true), n) == spec_count_true(seen, n) + 1,
    decreases n,
{
    if n > 0 {
        if i == n - 1 {
            lemma_count_true_frame(seen, seen.update(i, true), n - 1);
        } else {
            lemma_count_true_set(seen, i, n - 1);
        }
    }
}

proof fn lemma_count_true_frame(a: Seq<bool>, b: Seq<bool>, n: int)
    requires
        n <= a.len(),
        n <= b.len(),
        forall|q: int| 0 <= q < n ==> a[q] == b[q],
    ensures
        spec_count_true(a, n) == spec_count_true(b, n),
    decreases n,
{
    if n > 0 {
        lemma_count_true_frame(a, b, n - 1);
    }
}

/// All flags set means the count is the length.
proof fn lemma_count_true_full(seen: Seq<bool>, n: int)
    requires
        0 <= n <= seen.len(),
        forall|q: int| 0 <= q < n ==> seen[q],
    ensures
        spec_count_true(seen, n) == n,
    decreases n,
{
    if n > 0 {
        lemma_count_true_full(seen, n - 1);
    }
}

/// Sort indices ascending; a permutation of the input.
pub fn sort_usizes(v: Vec<usize>) -> (r: Vec<usize>)
    ensures
        r@.to_multiset() == v@.to_multiset(),
        r@.len() == v@.len(),
        forall|a: int, b: int| 0 <= a < b < r@.len() ==> #[trigger] r@[a] <= #[trigger] r@[b],
{
    broadcast use vstd::seq_lib::group_to_multiset_ensures;

    let mut src: Vec<usize> = v;
    let mut out: Vec<usize> = Vec::new();
    let ghost orig: Seq<usize> = src@;
    while src.len() > 0
        invariant
            out@.to_multiset().add(src@.to_multiset()) == orig.to_multiset(),
            out@.len() + src@.len() == orig.len(),
            forall|a: int, b: int| 0 <= a < b < out@.len() ==> #[trigger] out@[a] <= #[trigger] out@[b],
            forall|a: int, b: int|
                0 <= a < out@.len() && 0 <= b < src@.len() ==> #[trigger] out@[a] <= #[trigger] src@[b],
        decreases src@.len(),
    {
        let mut m: usize = 0;
        let mut j: usize = 1;
        while j < src.len()
            invariant
                1 <= j <= src@.len() || src@.len() == 0,
                m < j || (m == 0 && j <= 1),
                m < src@.len(),
                src@.len() > 0,
                forall|q: int| 0 <= q < j ==> #[trigger] src@[q] >= src@[m as int],
            decreases src@.len() - j,
        {
            if src[j] < src[m] {
                m = j;
            }
            j = j + 1;
        }
        let ghost src_before: Seq<usize> = src@;
        let picked: usize = src.remove(m);
        out.push(picked);
        proof {
            broadcast use vstd::seq_lib::group_to_multiset_ensures;

            assert(src_before.contains(src_before[m as int]));
            assert(src_before.to_multiset().count(picked) > 0);
            assert(src@.to_multiset() =~= src_before.to_multiset().remove(picked));
            assert(out@.to_multiset().add(src@.to_multiset()) =~= orig.to_multiset());
        }
    }
    proof {
        broadcast use vstd::seq_lib::group_to_multiset_ensures;

        assert(src@.to_multiset() =~= vstd::multiset::Multiset::<usize>::empty());
        assert(out@.to_multiset().add(vstd::multiset::Multiset::<usize>::empty())
            =~= out@.to_multiset());
    }
    out
}

/// Group the nodes of an undirected adjacency structure into connected
/// components.
///
/// The groups partition the node indices: every index below `n`
/// appears in exactly one group, each group is non-empty and strictly
/// ascending.
pub fn group_components(adj: &Vec<Vec<usize>>) -> (r: Vec<Vec<usize>>)
    requires
        forall|q: int, t: int|
            0 <= q < adj@.len() && 0 <= t < adj@[q]@.len() ==> (#[trigger] adj@[q]@[t])
                < adj@.len(),
    ensures
        spec_groups_total(r@) == adj@.len(),
        forall|g: int|
            0 <= g < r@.len() ==> (#[trigger] r@[g])@.len() >= 1 && (forall|a: int, b: int|
                0 <= a < b < r@[g]@.len() ==> r@[g]@[a] < r@[g]@[b]),
        forall|g: int, p: int|
            0 <= g < r@.len() && 0 <= p < r@[g]@.len() ==> (#[trigger] r@[g]@[p]) < adj@.len(),
        forall|g1: int, p1: int, g2: int, p2: int|
            0 <= g1 < r@.len() && 0 <= p1 < r@[g1]@.len() && 0 <= g2 < r@.len() && 0 <= p2
                < r@[g2]@.len() && (g1 != g2 || p1 != p2) ==> (#[trigger] r@[g1]@[p1]) != (
            #[trigger] r@[g2]@[p2]),
{
    broadcast use vstd::seq_lib::group_to_multiset_ensures;

    let n: usize = adj.len();
    let mut seen: Vec<bool> = Vec::new();
    let mut si: usize = 0;
    while si < n
        invariant
            seen@.len() == si <= n,
            forall|q: int| 0 <= q < si ==> !(#[trigger] seen@[q]),
        decreases n - si,
    {
        seen.push(false);
        si = si + 1;
    }
    let mut groups: Vec<Vec<usize>> = Vec::new();
    // Ghost owner: which group each assigned index landed in.
    let ghost mut owner: Seq<int> = Seq::new(n as nat, |q: int| -1);
    proof {
        lemma_count_true_frame(seen@, seen@, n as int);
        lemma_count_true_none(seen@, n as int);
    }
    let mut i: usize = 0;
    while i < n
        invariant
            n == adj@.len(),
            forall|q: int, t: int|
                0 <= q < adj@.len() && 0 <= t < adj@[q]@.len() ==> (#[trigger] adj@[q]@[t]) < n,
            seen@.len() == n,
            owner.len() == n,
            i <= n,
            forall|q: int| 0 <= q < i ==> #[trigger] seen@[q],
            forall|q: int| 0 <= q < n ==> (#[trigger] seen@[q] <==> owner[q] >= 0),
            forall|q: int| 0 <= q < n ==> #[trigger] owner[q] < groups@.len(),
            spec_groups_total(groups@) == spec_count_true(seen@, n as int),
            forall|g: int, p: int|
                0 <= g < groups@.len() && 0 <= p < groups@[g]@.len() ==> (#[trigger] groups@[
                g]@[p]) < n && owner[groups@[g]@[p] as int] == g,
            forall|g: int|
                0 <= g < groups@.len() ==> (#[trigger] groups@[g])@.len() >= 1 && (forall|
                    a: int,
                    b: int,
                |
                    0 <= a < b < groups@[g]@.len() ==> groups@[g]@[a] < groups@[g]@[b]),
        decreases n - i,
    {
        if !seen[i] {
            let ghost gix: int = groups@.len() as int;
            let mut stack: Vec<usize> = Vec::new();
            let mut cluster: Vec<usize> = Vec::new();
            let ghost seen_pre: Seq<bool> = seen@;
            seen.set(i, true);
            proof {
                lemma_count_true_set(seen_pre, i as int, n as int);
                assert(seen@ =~= seen_pre.update(i as int, true));
                owner = owner.update(i as int, gix);
                lemma_count_true_le(seen@, n as int);
            }
            stack.push(i);
            while stack.len() > 0
                invariant
                    n == adj@.len(),
                    forall|q: int, t: int|
                        0 <= q < adj@.len() && 0 <= t < adj@[q]@.len() ==> (#[trigger] adj@[
                        q]@[t]) < n,
                    seen@.len() == n,
                    owner.len() == n,
                    i < n,
                    seen@[i as int],
                    forall|q: int| 0 <= q < i ==> #[trigger] seen@[q],
                    cluster@.len() + stack@.len() >= 1,
                    gix == groups@.len(),
                    forall|q: int| 0 <= q < n ==> (#[trigger] seen@[q] <==> owner[q] >= 0),
                    forall|q: int| 0 <= q < n ==> #[trigger] owner[q] <= gix,
                    spec_count_true(seen@, n as int) <= n,
                    spec_groups_total(groups@) + cluster@.len() + stack@.len()
                        == spec_count_true(seen@, n as int),
                    forall|g: int, p: int|
                        0 <= g < groups@.len() && 0 <= p < groups@[g]@.len() ==> (
                        #[trigger] groups@[g]@[p]) < n && owner[groups@[g]@[p] as int] == g,
                    forall|g: int|
                        0 <= g < groups@.len() ==> (#[trigger] groups@[g])@.len() >= 1 && (
                        forall|a: int, b: int|
                            0 <= a < b < groups@[g]@.len() ==> groups@[g]@[a] < groups@[g]@[b]),
                    forall|p: int|
                        0 <= p < cluster@.len() ==> (#[trigger] cluster@[p]) < n && owner[
                        cluster@[p] as int] == gix,
                    forall|p: int|
                        0 <= p < stack@.len() ==> (#[trigger] stack@[p]) < n && owner[stack@[
                        p] as int] == gix,
                    (cluster@ + stack@).no_duplicates(),
                decreases n - spec_count_true(seen@, n as int) + stack@.len(),
            {
                let ghost cluster_b: Seq<usize> = cluster@;
                let ghost stack_b: Seq<usize> = stack@;
                let node: usize = stack.pop().unwrap();
                cluster.push(node);
                proof {
                    broadcast use vstd::seq_lib::group_to_multiset_ensures;

                    let cs_before = cluster_b + stack_b;
                    let cs_after = cluster@ + stack@;
                    cs_before.lemma_multiset_has_no_duplicates();
                    vstd::seq_lib::lemma_multiset_commutative(cluster_b, stack_b);
                    vstd::seq_lib::lemma_multiset_commutative(cluster@, stack@);
                    assert(stack_b =~= stack@.push(node));
                    assert(cluster@ =~= cluster_b.push(node));
                    assert(cs_after.to_multiset() =~= cs_before.to_multiset());
                    cs_after.lemma_multiset_has_no_duplicates_conv();
                }
                let neighbors: &Vec<usize> = &adj[node];
                let ghost measure0: int = n - spec_count_true(seen@, n as int)
                    + stack@.len();
                let mut t: usize = 0;
                while t < neighbors.len()
                    invariant
                        n == adj@.len(),
                        forall|q: int, tt: int|
                            0 <= q < adj@.len() && 0 <= tt < adj@[q]@.len() ==> (#[trigger] adj@[
                            q]@[tt]) < n,
                        neighbors@ == adj@[node as int]@,
                        node < n,
                        t <= neighbors@.len(),
                        seen@.len() == n,
                        owner.len() == n,
                        i < n,
                        seen@[i as int],
                        forall|q: int| 0 <= q < i ==> #[trigger] seen@[q],
                        cluster@.len() + stack@.len() >= 1,
                        gix == groups@.len(),
                        forall|q: int| 0 <= q < n ==> (#[trigger] seen@[q] <==> owner[q] >= 0),
                        forall|q: int| 0 <= q < n ==> #[trigger] owner[q] <= gix,
                        spec_count_true(seen@, n as int) <= n,
                        spec_groups_total(groups@) + cluster@.len() + stack@.len()
                            == spec_count_true(seen@, n as int),
                        forall|g: int, p: int|
                            0 <= g < groups@.len() && 0 <= p < groups@[g]@.len() ==> (
                            #[trigger] groups@[g]@[p]) < n && owner[groups@[g]@[p] as int] == g,
                        forall|g: int|
                            0 <= g < groups@.len() ==> (#[trigger] groups@[g])@.len() >= 1 && (
                            forall|a: int, b: int|
                                0 <= a < b < groups@[g]@.len() ==> groups@[g]@[a] < groups@[
                                g]@[b]),
                        forall|p: int|
                            0 <= p < cluster@.len() ==> (#[trigger] cluster@[p]) < n && owner[
                            cluster@[p] as int] == gix,
                        forall|p: int|
                            0 <= p < stack@.len() ==> (#[trigger] stack@[p]) < n && owner[
                            stack@[p] as int] == gix,
                        (cluster@ + stack@).no_duplicates(),
                        // Marking and pushing balance out: the outer
                        // measure holds still while neighbours join.
                        n - spec_count_true(seen@, n as int) + stack@.len() == measure0,
                    decreases neighbors@.len() - t,
                {
                    let nb: usize = neighbors[t];
                    if !seen[nb] {
                        let ghost seen_before: Seq<bool> = seen@;
                        let ghost cs_b: Seq<usize> = cluster@ + stack@;
                        seen.set(nb, true);
                        proof {
                            lemma_count_true_set(seen_before, nb as int, n as int);
                            assert(seen@ =~= seen_before.update(nb as int, true));
                            owner = owner.update(nb as int, gix);
                            lemma_count_true_le(seen@, n as int);
                            // The new node differs from everything
                            // already gathered: those are all seen.
                            assert forall|p: int| 0 <= p < cs_b.len() implies cs_b[p]
                                != nb by {
                                assert(seen_before[cs_b[p] as int]);
                            }
                        }
                        stack.push(nb);
                        proof {
                            assert(cluster@ + stack@ =~= cs_b.push(nb));
                            assert((cs_b.push(nb)).no_duplicates());
                        }
                    }
                    t = t + 1;
                }
            }
            let ghost cluster_before: Seq<usize> = cluster@;
            let sorted_cluster: Vec<usize> = sort_usizes(cluster);
            proof {
                broadcast use vstd::seq_lib::group_to_multiset_ensures;

                assert(cluster_before + Seq::<usize>::empty() =~= cluster_before);
                cluster_before.lemma_multiset_has_no_duplicates();
                sorted_cluster@.lemma_multiset_has_no_duplicates_conv();
                assert forall|p: int| 0 <= p < sorted_cluster@.len() implies (
                #[trigger] sorted_cluster@[p]) < n && owner[sorted_cluster@[p] as int]
                    == gix by {
                    assert(sorted_cluster@.contains(sorted_cluster@[p]));
                    assert(sorted_cluster@.to_multiset().count(sorted_cluster@[p]) > 0);
                    assert(cluster_before.to_multiset().count(sorted_cluster@[p]) > 0);
                    assert(cluster_before.contains(sorted_cluster@[p]));
                }
                assert forall|a: int, b: int|
                    0 <= a < b < sorted_cluster@.len() implies sorted_cluster@[a]
                    < sorted_cluster@[b] by {
                    assert(sorted_cluster@[a] <= sorted_cluster@[b]);
                    assert(sorted_cluster@[a] != sorted_cluster@[b]);
                }
            }
            let ghost groups_before: Seq<Vec<usize>> = groups@;
            groups.push(sorted_cluster);
            proof {
                lemma_groups_total_push(groups_before, groups@.last());
                assert(groups@ =~= groups_before.push(groups@.last()));
                assert forall|g: int, p: int|
                    0 <= g < groups@.len() && 0 <= p < groups@[g]@.len() implies (
                #[trigger] groups@[g]@[p]) < n && owner[groups@[g]@[p] as int] == g by {
                    if g < groups@.len() - 1 {
                        assert(groups_before[g]@[p] == groups@[g]@[p]);
                    }
                }
            }
        }
        i = i + 1;
    }
    proof {
        lemma_count_true_full(seen@, n as int);
        assert forall|g1: int, p1: int, g2: int, p2: int|
            0 <= g1 < groups@.len() && 0 <= p1 < groups@[g1]@.len() && 0 <= g2 < groups@.len()
                && 0 <= p2 < groups@[g2]@.len() && (g1 != g2 || p1 != p2) implies (
        #[trigger] groups@[g1]@[p1]) != (#[trigger] groups@[g2]@[p2]) by {
            if g1 != g2 {
                assert(owner[groups@[g1]@[p1] as int] == g1);
                assert(owner[groups@[g2]@[p2] as int] == g2);
            } else {
                if p1 < p2 {
                    assert(groups@[g1]@[p1] < groups@[g1]@[p2]);
                } else {
                    assert(groups@[g1]@[p2] < groups@[g1]@[p1]);
                }
            }
        }
    }
    groups
}

/// Seen flags never outnumber the range.
proof fn lemma_count_true_le(seen: Seq<bool>, n: int)
    requires
        n <= seen.len(),
    ensures
        spec_count_true(seen, n) <= if n >= 0 {
            n
        } else {
            0int
        },
    decreases n,
{
    if n > 0 {
        lemma_count_true_le(seen, n - 1);
    }
}

/// No flag set, no count.
proof fn lemma_count_true_none(seen: Seq<bool>, n: int)
    requires
        n <= seen.len(),
        forall|q: int| 0 <= q < n ==> !seen[q],
    ensures
        spec_count_true(seen, n) == 0,
    decreases n,
{
    if n > 0 {
        lemma_count_true_none(seen, n - 1);
    }
}


/// A fragment held by the clusterer: its place, its byte-frequency
/// profile, its token URLs, and its semantic words when it is mostly
/// text.
#[derive(Debug)]
pub struct ClusterFragment {
    pub offset: u64,
    pub size: u64,
    pub features: ByteFrequency,
    pub links: Vec<Vec<u8>>,
    pub words: Option<Vec<Vec<u8>>>,
}

/// Clusterer: groups fragments whose decayed similarity reaches the
/// threshold into connected components.
#[derive(Debug)]
pub struct FragmentClusterer {
    pub fragments: Vec<ClusterFragment>,
    /// Minimum combined similarity, in milli.
    pub similarity_threshold: u32,
    /// Decay factor per 100 MiB, in milli.
    pub distance_decay_factor: u32,
}

impl FragmentClusterer {
    /// Every held fragment has a sound profile.
    pub open spec fn wf(&self) -> bool {
        forall|k: int|
            0 <= k < self.fragments@.len() ==> (#[trigger] self.fragments@[k]).features.wf()
    }

    /// An empty clusterer with the default thresholds: similarity 0.75,
    /// decay factor 10 per 100 MiB.
    pub fn new() -> (r: Self)
        ensures
            r.fragments@.len() == 0,
            r.similarity_threshold == 750,
            r.distance_decay_factor == 10000,
            r.wf(),
    {
        FragmentClusterer {
            fragments: Vec::new(),
            similarity_threshold: 750,
            distance_decay_factor: 10000,
        }
    }

    /// Add a fragment to the pool.
    pub fn add_fragment(&mut self, offset: u64, data: &[u8], links: Vec<Vec<u8>>)
        requires
            old(self).wf(),
            data@.len() <= 0x1_0000_0000_0000,
        ensures
            final(self).wf(),
            final(self).fragments@.len() == old(self).fragments@.len() + 1,
            final(self).similarity_threshold == old(self).similarity_threshold,
            final(self).distance_decay_factor == old(self).distance_decay_factor,
    {
        let features: ByteFrequency = ByteFrequency::from_bytes(data);
        let words: Option<Vec<Vec<u8>>> = extract_words(data);
        let ghost before: Seq<ClusterFragment> = self.fragments@;
        self.fragments.push(
            ClusterFragment { offset, size: data.len() as u64, features, links, words },
        );
        proof {
            assert forall|k: int| 0 <= k < self.fragments@.len() implies (
            #[trigger] self.fragments@[k]).features.wf() by {
                if k < self.fragments@.len() - 1 {
                    assert(self.fragments@[k] == before[k]);
                }
            }
        }
    }

    /// Set the similarity floor, in milli.
    pub fn set_threshold(&mut self, threshold: u32)
        ensures
            final(self).similarity_threshold == threshold,
            final(self).fragments == old(self).fragments,
            final(self).distance_decay_factor == old(self).distance_decay_factor,
    {
        self.similarity_threshold = threshold;
    }

    /// Set the decay factor per 100 MiB, in milli.
    pub fn set_distance_decay(&mut self, decay: u32)
        ensures
            final(self).distance_decay_factor == decay,
            final(self).fragments == old(self).fragments,
            final(self).similarity_threshold == old(self).similarity_threshold,
    {
        self.distance_decay_factor = decay;
    }

    /// Affinity of one pair, in milli: word Jaccard for two texts, else
    /// byte-profile cosine; a strong token overlap lifts the result;
    /// the whole is damped by the physical-distance decay.
    ///
    /// `None` when the decay alone puts the pair out of reach (under
    /// 0.1).
    pub fn pair_affinity(&self, a: usize, b: usize) -> (r: Option<u32>)
        requires
            self.wf(),
            a < self.fragments@.len(),
            b < self.fragments@.len(),
        ensures
            r is Some ==> r->0 <= 1000,
            (r is None <==> spec_pair_decay(self, a as int, b as int) < 100),
            r is Some ==> (exists|sim: int|
                0 <= sim <= 1000 && r->0 == #[trigger] spec_damped(
                    sim,
                    spec_pair_decay(self, a as int, b as int),
                ) && ((self.fragments@[a as int].words is Some && self.fragments@[
                    b as int].words is Some && !(self.fragments@[a as int].links@.len() > 0
                    && self.fragments@[b as int].links@.len() > 0)) ==> sim == spec_jaccard(
                    self.fragments@[a as int].words->0@.map_values(|e: Vec<u8>| e@),
                    self.fragments@[b as int].words->0@.map_values(|e: Vec<u8>| e@),
                ))),
    {
        let fa: &ClusterFragment = &self.fragments[a];
        let fb: &ClusterFragment = &self.fragments[b];
        let delta: u64 = if fa.offset >= fb.offset {
            fa.offset - fb.offset
        } else {
            fb.offset - fa.offset
        };
        let decay: u32 = distance_decay(delta, self.distance_decay_factor);
        proof {
            assert(decay == spec_pair_decay(self, a as int, b as int));
        }
        if decay < 100 {
            return None;
        }
        let sim: u32 = match (&fa.words, &fb.words) {
            (Some(wa), Some(wb)) => jaccard_similarity(wa, wb),
            _ => fa.features.cosine_similarity(&fb.features),
        };
        let link_sim: u32 = if fa.links.len() > 0 && fb.links.len() > 0 {
            jaccard_similarity(&fa.links, &fb.links)
        } else {
            0
        };
        let combined: u32 = if link_sim > 500 {
            if link_sim > sim {
                link_sim
            } else {
                sim
            }
        } else {
            sim
        };
        proof {
            assert((combined as u64) * (decay as u64) <= 1000 * 1000) by (nonlinear_arith)
                requires
                    combined <= 1000 && decay <= 1000,
            ;
            // With no token overlap the link channel stays silent, so
            // the combined similarity is the content similarity.
            if fa.links@.len() == 0 || fb.links@.len() == 0 {
                assert(link_sim == 0);
                assert(combined == sim);
            }
        }
        let damped: u64 = (combined as u64) * (decay as u64) / 1000;
        proof {
            vstd::arithmetic::div_mod::lemma_div_is_ordered(
                (combined as int) * (decay as int),
                1000000int,
                1000,
            );
            assert(damped == spec_damped(combined as int, decay as int));
            let fa_s = self.fragments@[a as int];
            let fb_s = self.fragments@[b as int];
            let delta_s: int = if fa_s.offset >= fb_s.offset {
                fa_s.offset - fb_s.offset
            } else {
                fb_s.offset - fa_s.offset
            };
            assert(decay == spec_decay(delta_s, self.distance_decay_factor as int));
            assert(decay == spec_pair_decay(self, a as int, b as int));
            assert(0 <= combined <= 1000);
            if fa_s.words is Some && fb_s.words is Some && !(fa_s.links@.len() > 0
                && fb_s.links@.len() > 0) {
                assert(sim == spec_jaccard(
                    fa_s.words->0@.map_values(|e: Vec<u8>| e@),
                    fb_s.words->0@.map_values(|e: Vec<u8>| e@),
                ));
                assert(combined == sim);
            }
        }
        Some(damped as u32)
    }

    /// Cluster the pool: fragments whose pairwise affinity reaches the
    /// threshold land in one group, transitively.
    ///
    /// The groups partition the fragment indices: each index appears in
    /// exactly one group, in ascending order within its group.
    pub fn cluster_fragments(&self) -> (r: Vec<Vec<usize>>)
        requires
            self.wf(),
        ensures
            spec_groups_total(r@) == self.fragments@.len(),
            forall|g: int|
                0 <= g < r@.len() ==> (#[trigger] r@[g])@.len() >= 1 && (forall|a: int, b: int|
                    0 <= a < b < r@[g]@.len() ==> r@[g]@[a] < r@[g]@[b]),
            forall|g1: int, p1: int, g2: int, p2: int|
                0 <= g1 < r@.len() && 0 <= p1 < r@[g1]@.len() && 0 <= g2 < r@.len() && 0 <= p2
                    < r@[g2]@.len() && (g1 != g2 || p1 != p2) ==> (#[trigger] r@[g1]@[p1]) != (
                #[trigger] r@[g2]@[p2]),
    {
        let n: usize = self.fragments.len();
        let mut adj: Vec<Vec<usize>> = Vec::new();
        let mut i: usize = 0;
        while i < n
            invariant
                n == self.fragments@.len(),
                self.wf(),
                i <= n,
                adj@.len() == i,
                forall|q: int, t: int|
                    0 <= q < adj@.len() && 0 <= t < adj@[q]@.len() ==> (#[trigger] adj@[q]@[t])
                        < n,
            decreases n - i,
        {
            let mut row: Vec<usize> = Vec::new();
            let mut j: usize = 0;
            while j < n
                invariant
                    n == self.fragments@.len(),
                    self.wf(),
                    i < n,
                    j <= n,
                    forall|t: int| 0 <= t < row@.len() ==> (#[trigger] row@[t]) < n,
                decreases n - j,
            {
                if j != i {
                    match self.pair_affinity(i, j) {
                        Some(score) => {
                            if score >= self.similarity_threshold {
                                row.push(j);
                            }
                        },
                        None => {
                        },
                    }
                }
                j = j + 1;
            }
            adj.push(row);
            i = i + 1;
        }
        group_components(&adj)
    }
}

/// The semantic words of mostly-text content: runs of more than three
/// ASCII letters, lower-cased, without repeats. `None` for content
/// that is less than half printable.
pub fn extract_words(data: &[u8]) -> (r: Option<Vec<Vec<u8>>>)
{
    let n: usize = data.len();
    let mut printable: usize = 0;
    let mut i: usize = 0;
    while i < n
        invariant
            n == data@.len(),
            i <= n,
            printable <= i,
        decreases n - i,
    {
        let b: u8 = data[i];
        if 32 <= b && b <= 126 {
            printable = printable + 1;
        }
        i = i + 1;
    }
    if printable < n / 2 {
        return None;
    }
    let mut words: Vec<Vec<u8>> = Vec::new();
    let mut j: usize = 0;
    while j < n
        invariant
            n == data@.len(),
            j <= n,
        decreases n - j,
    {
        // One maximal alphanumeric run: [j, run_end).
        let mut run_end: usize = j;
        let mut all_alpha: bool = true;
        while run_end < n && ((48 <= data[run_end] && data[run_end] <= 57) || (65 <= data[
            run_end] && data[run_end] <= 90) || (97 <= data[run_end] && data[run_end] <= 122))
            invariant
                j <= run_end <= n,
                n == data@.len(),
            decreases n - run_end,
        {
            let b: u8 = data[run_end];
            if !((65 <= b && b <= 90) || (97 <= b && b <= 122)) {
                all_alpha = false;
            }
            run_end = run_end + 1;
        }
        if run_end > j {
            if all_alpha && run_end - j > 3 {
                let mut word: Vec<u8> = Vec::new();
                let mut k: usize = j;
                while k < run_end
                    invariant
                        j <= k <= run_end <= n,
                        n == data@.len(),
                    decreases run_end - k,
                {
                    let b: u8 = data[k];
                    let lb: u8 = if 65 <= b && b <= 90 {
                        b + 32
                    } else {
                        b
                    };
                    word.push(lb);
                    k = k + 1;
                }
                if !vec_contains_bytes(&words, word.as_slice()) {
                    words.push(word);
                }
            }
            j = run_end;
        } else {
            j = j + 1;
        }
    }
    if words.len() == 0 {
        None
    } else {
        Some(words)
    }
}

/// A fragment record for type-and-token grouping.
#[derive(Debug)]
pub struct FragmentInfo {
    pub offset: u64,
    pub size: u64,
    pub file_type: crate::types::FileType,
    pub links: Vec<Vec<u8>>,
}

/// Group fragments of one file type whose token overlap reaches the
/// threshold (milli) into connected components.
///
/// The groups partition the fragment indices, ascending within each
/// group.
pub fn find_related_groups(fragments: &Vec<FragmentInfo>, similarity_threshold: u32) -> (r: Vec<
    Vec<usize>,
>)
    ensures
        spec_groups_total(r@) == fragments@.len(),
        forall|g: int|
            0 <= g < r@.len() ==> (#[trigger] r@[g])@.len() >= 1 && (forall|a: int, b: int|
                0 <= a < b < r@[g]@.len() ==> r@[g]@[a] < r@[g]@[b]),
        forall|g1: int, p1: int, g2: int, p2: int|
            0 <= g1 < r@.len() && 0 <= p1 < r@[g1]@.len() && 0 <= g2 < r@.len() && 0 <= p2
                < r@[g2]@.len() && (g1 != g2 || p1 != p2) ==> (#[trigger] r@[g1]@[p1]) != (
            #[trigger] r@[g2]@[p2]),
{
    let n: usize = fragments.len();
    let mut adj: Vec<Vec<usize>> = Vec::new();
    let mut i: usize = 0;
    while i < n
        invariant
            n == fragments@.len(),
            i <= n,
            adj@.len() == i,
            forall|q: int, t: int|
                0 <= q < adj@.len() && 0 <= t < adj@[q]@.len() ==> (#[trigger] adj@[q]@[t]) < n,
        decreases n - i,
    {
        let mut row: Vec<usize> = Vec::new();
        let mut j: usize = 0;
        while j < n
            invariant
                n == fragments@.len(),
                i < n,
                j <= n,
                forall|t: int| 0 <= t < row@.len() ==> (#[trigger] row@[t]) < n,
            decreases n - j,
        {
            if j != i && fragments[i].file_type == fragments[j].file_type && fragments[i]
                .links.len() > 0 && fragments[j].links.len() > 0 {
                let sim: u32 = jaccard_similarity(&fragments[i].links, &fragments[j].links);
                if sim >= similarity_threshold {
                    row.push(j);
                }
            }
            j = j + 1;
        }
        adj.push(row);
        i = i + 1;
    }
    group_components(&adj)
}

} // verus!
