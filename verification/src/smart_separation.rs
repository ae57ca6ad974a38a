//! Byte-frequency feature vectors and cosine similarity.
//!
//! A `ByteFrequency` keeps raw per-byte counts together with the total
//! length; the normalised distribution is the quotient
//! `counts[b] / total`, which cosine similarity does not depend on. An
//! empty input yields the zero vector.

use vstd::prelude::*;
use crate::numeric::{isqrt_u128, lemma_scaled_ratio_at_least_one};
use vstd::arithmetic::div_mod::{lemma_div_is_ordered, lemma_div_multiples_vanish};

verus! {

/// How many times `b` occurs in `data`.
pub open spec fn byte_count(data: Seq<u8>, b: u8) -> nat
    decreases data.len(),
{
    if data.len() == 0 {
        0
    } else {
        byte_count(data.drop_last(), b) + if data.last() == b {
            1nat
        } else {
            0nat
        }
    }
}

/// Sum of `byte_count(data, b)` over the bins `0 <= b < n`.
pub open spec fn bins_total(data: Seq<u8>, n: int) -> nat
    decreases n,
{
    if n <= 0 {
        0
    } else {
        bins_total(data, n - 1) + byte_count(data, (n - 1) as u8)
    }
}

/// A 256-slot byte-frequency profile: raw counts plus the input length.
#[derive(Debug, Clone, PartialEq, Eq)]
pub struct ByteFrequency {
    pub counts: Vec<u64>,
    pub total: u64,
}

impl ByteFrequency {
    /// Shape invariant: 256 bins, each bounded by the total, which
    /// itself stays under `2^48` so that similarity arithmetic cannot
    /// overflow.
    pub open spec fn wf(&self) -> bool {
        &&& self.counts@.len() == 256
        &&& self.total <= 0x1_0000_0000_0000
        &&& forall|i: int| 0 <= i < 256 ==> #[trigger] self.counts@[i] <= self.total
    }

    /// The profile that `data` induces.
    pub open spec fn models(&self, data: Seq<u8>) -> bool {
        &&& self.counts@.len() == 256
        &&& self.total == data.len()
        &&& forall|b: int| 0 <= b < 256 ==> self.counts@[b] == byte_count(data, b as u8)
    }

    /// Count every byte of `data`.
    ///
    /// The length cap is a machine limit: it keeps every later
    /// similarity computation inside 128-bit arithmetic.
    pub fn from_bytes(data: &[u8]) -> (r: ByteFrequency)
        requires
            data@.len() <= 0x1_0000_0000_0000,
        ensures
            r.models(data@),
            r.wf(),
    {
        let mut counts: Vec<u64> = Vec::new();
        let mut b: usize = 0;
        while b < 256
            invariant
                counts@.len() == b <= 256,
                forall|i: int| 0 <= i < b ==> counts@[i] == 0,
            decreases 256 - b,
        {
            counts.push(0);
            b = b + 1;
        }
        proof {
            lemma_byte_count_empty_prefix(data@);
        }
        let n: usize = data.len();
        let mut i: usize = 0;
        while i < n
            invariant
                n == data@.len() <= 0x1_0000_0000_0000,
                i <= n,
                counts@.len() == 256,
                forall|c: int| 0 <= c < 256 ==> counts@[c] == byte_count(data@.take(i as int), c as u8),
            decreases n - i,
        {
            let byte: u8 = data[i];
            proof {
                lemma_byte_count_bounded(data@.take(i as int), byte as u8);
                assert(data@.take(i + 1).drop_last() =~= data@.take(i as int));
                assert(data@.take(i + 1).last() == data@[i as int]);
                assert(forall|c: u8|
                    byte_count(data@.take(i + 1), c) == byte_count(data@.take(i as int), c) + (
                    if data@[i as int] == c {
                        1nat
                    } else {
                        0nat
                    }));
            }
            let old_c: u64 = counts[byte as usize];
            counts.set(byte as usize, old_c + 1);
            i = i + 1;
        }
        proof {
            assert(data@.take(n as int) =~= data@);
        }
        let r = ByteFrequency { counts, total: n as u64 };
        proof {
            assert forall|c: int| 0 <= c < 256 implies #[trigger] r.counts@[c] <= r.total by {
                lemma_byte_count_bounded(data@, c as u8);
            }
        }
        r
    }

    /// Cosine similarity against `other`, in milli.
    ///
    /// The value is exact at the ends of the range: it is 0 exactly when
    /// the dot product of the two count vectors is 0 (in particular for
    /// the zero vector), and 1000 for two equal non-zero profiles. In
    /// between it is the integer approximation
    /// `dot * 1000 / (isqrt(|a|^2) * isqrt(|b|^2))`, capped at 1000.
    pub fn cosine_similarity(&self, other: &ByteFrequency) -> (r: u32)
        requires
            self.wf(),
            other.wf(),
        ensures
            r <= 1000,
            (self == other && exists|i: int|
                0 <= i < 256 && #[trigger] self.counts@[i] > 0) ==> r == 1000,
            (forall|i: int| 0 <= i < 256 ==> #[trigger] self.counts@[i] == 0) ==> r == 0,
            (forall|i: int| 0 <= i < 256 ==> #[trigger] other.counts@[i] == 0) ==> r == 0,
    {
        let mut dot: u128 = 0;
        let mut na: u128 = 0;
        let mut nb: u128 = 0;
        let mut i: usize = 0;
        while i < 256
            invariant
                i <= 256,
                self.wf(),
                other.wf(),
                // 2^96 bounds one product; 256 of them stay under 2^104.
                dot <= (i as int) * 0x1_0000_0000_0000_0000_0000_0000,
                na <= (i as int) * 0x1_0000_0000_0000_0000_0000_0000,
                nb <= (i as int) * 0x1_0000_0000_0000_0000_0000_0000,
                dot == spec_dot(self.counts@, other.counts@, i as int),
                na == spec_dot(self.counts@, self.counts@, i as int),
                nb == spec_dot(other.counts@, other.counts@, i as int),
            decreases 256 - i,
        {
            let a: u128 = self.counts[i] as u128;
            let c: u128 = other.counts[i] as u128;
            proof {
                assert(a * c <= 0x1_0000_0000_0000_0000_0000_0000) by (nonlinear_arith)
                    requires
                        a <= 0x1_0000_0000_0000 && c <= 0x1_0000_0000_0000,
                ;
                assert(a * a <= 0x1_0000_0000_0000_0000_0000_0000) by (nonlinear_arith)
                    requires
                        a <= 0x1_0000_0000_0000,
                ;
                assert(c * c <= 0x1_0000_0000_0000_0000_0000_0000) by (nonlinear_arith)
                    requires
                        c <= 0x1_0000_0000_0000,
                ;
            }
            dot = dot + a * c;
            na = na + a * a;
            nb = nb + c * c;
            i = i + 1;
        }
        proof {
            if forall|i: int| 0 <= i < 256 ==> #[trigger] self.counts@[i] == 0 {
                lemma_dot_all_zero(self.counts@, self.counts@, 256);
            }
            if forall|i: int| 0 <= i < 256 ==> #[trigger] other.counts@[i] == 0 {
                lemma_dot_all_zero(other.counts@, other.counts@, 256);
            }
        }
        if na == 0 || nb == 0 || dot == 0 {
            proof {
                if self == other && exists|k: int| 0 <= k < 256 && #[trigger] self.counts@[k] > 0 {
                    let k = choose|k: int| 0 <= k < 256 && #[trigger] self.counts@[k] > 0;
                    lemma_dot_lower_bound(self.counts@, k);
                }
            }
            return 0;
        }
        let ra: u64 = isqrt_u128(na);
        let rb: u64 = isqrt_u128(nb);
        proof {
            assert(ra <= 0x100_0000_0000_0000) by (nonlinear_arith)
                requires
                    (ra as u128) * (ra as u128) <= na,
                    na <= 256 * 0x1_0000_0000_0000_0000_0000_0000,
            ;
            assert(rb <= 0x100_0000_0000_0000) by (nonlinear_arith)
                requires
                    (rb as u128) * (rb as u128) <= nb,
                    nb <= 256 * 0x1_0000_0000_0000_0000_0000_0000,
            ;
            assert((ra as u128) * (rb as u128) <= 0x1_0000_0000_0000_0000_0000_0000_0000)
                by (nonlinear_arith)
                requires
                    ra <= 0x100_0000_0000_0000 && rb <= 0x100_0000_0000_0000,
            ;
        }
        let denom: u128 = (ra as u128) * (rb as u128);
        proof {
            assert(denom >= 1) by (nonlinear_arith)
                requires
                    denom == (ra as u128) * (rb as u128),
                    (ra as u128) * (ra as u128) <= na,
                    na < ((ra as u128) + 1) * ((ra as u128) + 1),
                    (rb as u128) * (rb as u128) <= nb,
                    nb < ((rb as u128) + 1) * ((rb as u128) + 1),
                    na >= 1,
                    nb >= 1,
            ;
        }
        let scaled: u128 = dot * 1000 / denom;
        let r: u32 = if scaled >= 1000 {
            1000
        } else {
            scaled as u32
        };
        proof {
            if self == other && exists|k: int| 0 <= k < 256 && #[trigger] self.counts@[k] > 0 {
                assert(na == dot);
                assert(nb == dot);
                assert(ra == rb) by (nonlinear_arith)
                    requires
                        (ra as u128) * (ra as u128) <= dot,
                        dot < ((ra as u128) + 1) * ((ra as u128) + 1),
                        (rb as u128) * (rb as u128) <= dot,
                        dot < ((rb as u128) + 1) * ((rb as u128) + 1),
                ;
                assert(denom <= dot) by (nonlinear_arith)
                    requires
                        denom == (ra as u128) * (rb as u128),
                        ra == rb,
                        (ra as u128) * (ra as u128) <= dot,
                ;
                lemma_scaled_ratio_at_least_one(dot as int, denom as int, 1000);
            }
        }
        r
    }
}

/// Partial dot product of two count vectors over the first `n` bins.
pub open spec fn spec_dot(a: Seq<u64>, b: Seq<u64>, n: int) -> nat
    decreases n,
{
    if n <= 0 {
        0
    } else {
        spec_dot(a, b, n - 1) + (a[n - 1] as nat) * (b[n - 1] as nat)
    }
}

/// A dot product with an all-zero side is zero.
proof fn lemma_dot_all_zero(a: Seq<u64>, b: Seq<u64>, n: int)
    requires
        n <= a.len(),
        forall|i: int| 0 <= i < n ==> #[trigger] a[i] == 0,
    ensures
        spec_dot(a, b, n) == 0,
    decreases n,
{
    if n > 0 {
        lemma_dot_all_zero(a, b, n - 1);
    }
}

proof fn lemma_dot_lower_bound(a: Seq<u64>, k: int)
    requires
        0 <= k < 256,
        a.len() == 256,
        a[k] > 0,
    ensures
        spec_dot(a, a, 256) > 0,
{
    lemma_dot_step_positive(a, k, 256);
}

proof fn lemma_dot_step_positive(a: Seq<u64>, k: int, n: int)
    requires
        0 <= k < n,
        a.len() >= n,
        a[k] > 0,
    ensures
        spec_dot(a, a, n) > 0,
    decreases n,
{
    if k == n - 1 {
        assert(a[k] * a[k] > 0) by (nonlinear_arith)
            requires
                a[k] > 0,
        ;
    } else {
        lemma_dot_step_positive(a, k, n - 1);
    }
}

/// Every bin count is bounded by the data length.
pub proof fn lemma_byte_count_bounded(data: Seq<u8>, b: u8)
    ensures
        byte_count(data, b) <= data.len(),
    decreases data.len(),
{
    if data.len() > 0 {
        lemma_byte_count_bounded(data.drop_last(), b);
    }
}

proof fn lemma_byte_count_empty_prefix(data: Seq<u8>)
    ensures
        forall|c: int| 0 <= c < 256 ==> #[trigger] byte_count(data.take(0), c as u8) == 0,
{
    assert(data.take(0) =~= Seq::<u8>::empty());
}

/// The bins of a profile partition the input: summed over all 256 bins,
/// the counts give back the input length. This is the integer form of
/// the normalisation law (the normalised frequencies sum to one exactly
/// when the input is non-empty, and to zero when it is empty).
pub proof fn lemma_frequency_normalisation(data: Seq<u8>)
    ensures
        bins_total(data, 256) == data.len(),
    decreases data.len(),
{
    if data.len() == 0 {
        lemma_bins_total_empty(data, 256);
    } else {
        lemma_frequency_normalisation(data.drop_last());
        lemma_bins_total_step(data, 256);
    }
}

proof fn lemma_bins_total_empty(data: Seq<u8>, n: int)
    requires
        data.len() == 0,
    ensures
        bins_total(data, n) == 0,
    decreases n,
{
    if n > 0 {
        lemma_bins_total_empty(data, n - 1);
    }
}

/// Appending one byte raises exactly the bin of that byte.
proof fn lemma_bins_total_step(data: Seq<u8>, n: int)
    requires
        data.len() > 0,
        n <= 256,
    ensures
        bins_total(data, n) == bins_total(data.drop_last(), n) + if (data.last() as int) < n {
            1nat
        } else {
            0nat
        },
    decreases n,
{
    if n > 0 {
        lemma_bins_total_step(data, n - 1);
        assert(byte_count(data, (n - 1) as u8) == byte_count(data.drop_last(), (n - 1) as u8)
            + if data.last() == (n - 1) as u8 {
                1nat
            } else {
                0nat
            });
    }
}

/// Convenience: run two equal descriptors through `SmartSeparation`.
pub struct SmartSeparation;

impl SmartSeparation {
    /// The byte-frequency feature vector of `data`.
    pub fn feature_vector(data: &[u8]) -> (r: ByteFrequency)
        requires
            data@.len() <= 0x1_0000_0000_0000,
        ensures
            r.models(data@),
            r.wf(),
    {
        ByteFrequency::from_bytes(data)
    }

    /// Cosine similarity of two prepared vectors, in milli.
    pub fn cosine_similarity(a: &ByteFrequency, b: &ByteFrequency) -> (r: u32)
        requires
            a.wf(),
            b.wf(),
        ensures
            r <= 1000,
    {
        a.cosine_similarity(b)
    }

    /// Cosine similarity of two raw byte slices, in milli.
    pub fn similarity(a: &[u8], b: &[u8]) -> (r: u32)
        requires
            a@.len() <= 0x1_0000_0000_0000,
            b@.len() <= 0x1_0000_0000_0000,
        ensures
            r <= 1000,
    {
        let va = ByteFrequency::from_bytes(a);
        let vb = ByteFrequency::from_bytes(b);
        va.cosine_similarity(&vb)
    }
}

} // verus!
