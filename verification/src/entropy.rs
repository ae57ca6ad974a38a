//! Shannon entropy over the 256-bin byte histogram, in Q16 fixed point
//! (65536 units = one bit of entropy).
//!
//! The value is `log2(n) - (sum of c * log2(c)) / n` over the bin counts
//! `c`, evaluated with the integer `log2` of [`crate::numeric`] and
//! clamped into `[0, 8]` bits. Two exact facts hold: empty input and
//! input of one repeated byte both give zero.

use vstd::prelude::*;
use crate::numeric::{log2_q16, spec_log2_q16};
use crate::smart_separation::{byte_count, lemma_byte_count_bounded};
use vstd::arithmetic::div_mod::lemma_div_multiples_vanish;

verus! {

/// One full bit of entropy in the fixed-point scale.
pub const ENTROPY_ONE: u64 = 65536;

/// The ceiling of the entropy range: eight bits.
pub const ENTROPY_MAX: u64 = 8 * 65536;

/// Weighted logarithm sum of the first `b` histogram bins: each bin
/// contributes its count times the count's Q16 logarithm.
pub open spec fn spec_weighted(data: Seq<u8>, b: int) -> int
    decreases b,
{
    if b <= 0 {
        0
    } else {
        spec_weighted(data, b - 1) + byte_count(data, (b - 1) as u8) * spec_log2_q16(
            byte_count(data, (b - 1) as u8) as int,
        )
    }
}

/// Shannon entropy of `data` in Q16 fixed point: `log2(n)` less the
/// average of the per-bin weighted logarithms, clamped to `[0, 8]`
/// bits.
#[verifier::opaque]
pub open spec fn spec_entropy_q16(data: Seq<u8>) -> int {
    if data.len() == 0 {
        0
    } else {
        let log_n = spec_log2_q16(data.len() as int);
        let avg = spec_weighted(data, 256) / (data.len() as int);
        let ent: int = if log_n > avg {
            log_n - avg
        } else {
            0
        };
        if ent > 8 * 65536 {
            8 * 65536int
        } else {
            ent
        }
    }
}

/// All bytes of a non-empty sequence are equal.
pub open spec fn all_bytes_equal(data: Seq<u8>) -> bool {
    forall|i: int| 0 <= i < data.len() ==> #[trigger] data[i] == data[0]
}

/// Shannon entropy of `data` in Q16 fixed point, clamped to `[0, 8]`
/// bits.
///
/// Returns 0 for empty input and for input made of one repeated byte.
pub fn calculate_shannon_entropy(data: &[u8]) -> (r: u64)
    requires
        data@.len() <= 0x1_0000_0000_0000,
    ensures
        r == spec_entropy_q16(data@),
        r <= ENTROPY_MAX,
        data@.len() == 0 ==> r == 0,
        all_bytes_equal(data@) ==> r == 0,
{
    let n: usize = data.len();
    if n == 0 {
        proof {
            reveal(spec_entropy_q16);
        }
        return 0;
    }
    // Build the histogram.
    let mut hist: Vec<u64> = Vec::new();
    let mut b: usize = 0;
    while b < 256
        invariant
            hist@.len() == b <= 256,
            forall|i: int| 0 <= i < b ==> hist@[i] == 0,
        decreases 256 - b,
    {
        hist.push(0);
        b = b + 1;
    }
    proof {
        assert(forall|c: int|
            0 <= c < 256 ==> #[trigger] byte_count(data@.take(0), c as u8) == 0) by {
            assert(data@.take(0) =~= Seq::<u8>::empty());
        }
    }
    let mut i: usize = 0;
    while i < n
        invariant
            n == data@.len() <= 0x1_0000_0000_0000,
            i <= n,
            hist@.len() == 256,
            forall|c: int| 0 <= c < 256 ==> hist@[c] == byte_count(data@.take(i as int), c as u8),
        decreases n - i,
    {
        let byte: u8 = data[i];
        proof {
            lemma_byte_count_bounded(data@.take(i as int), byte as u8);
            assert(data@.take(i + 1).drop_last() =~= data@.take(i as int));
            assert(data@.take(i + 1).last() == data@[i as int]);
            assert(forall|c: u8|
                byte_count(data@.take(i + 1), c) == byte_count(data@.take(i as int), c) + (
                if data@[i as int] == c {
                    1nat
                } else {
                    0nat
                }));
        }
        let old_c: u64 = hist[byte as usize];
        hist.set(byte as usize, old_c + 1);
        i = i + 1;
    }
    proof {
        assert(data@.take(n as int) =~= data@);
    }
    // Entropy = log2(n) - (sum of c * log2(c)) / n.
    let log_n: u64 = log2_q16(n as u64);
    let mut weighted: u128 = 0;
    let mut b2: usize = 0;
    while b2 < 256
        invariant
            hist@.len() == 256,
            b2 <= 256,
            n >= 1,
            n == data@.len() <= 0x1_0000_0000_0000,
            log_n <= 64 * 65536,
            forall|c: int| 0 <= c < 256 ==> hist@[c] == byte_count(data@, c as u8),
            weighted <= (b2 as int) * 0x40_0000_0000_0000_0000,
            log_n == spec_log2_q16(n as int),
            weighted as int == spec_weighted(data@, b2 as int),
            // When every byte equals data[0], only that bin contributes,
            // and it contributes n * log2(n) exactly.
            all_bytes_equal(data@) ==> weighted == if (data@[0] as int) < b2 {
                (n as nat) * (log_n as nat)
            } else {
                0nat
            },
        decreases 256 - b2,
    {
        let c: u64 = hist[b2];
        proof {
            lemma_byte_count_bounded(data@, b2 as u8);
            if all_bytes_equal(data@) {
                if data@[0] == b2 as u8 {
                    lemma_all_equal_count_full(data@, b2 as u8);
                } else {
                    lemma_all_equal_count_zero(data@, b2 as u8);
                }
            }
        }
        if c > 0 {
            // A bin holding the whole input reuses the logarithm of n.
            let lc: u64 = if c == n as u64 {
                log_n
            } else {
                log2_q16(c)
            };
            proof {
                assert((c as int) * (lc as int) <= 0x40_0000_0000_0000_0000)
                    by (nonlinear_arith)
                    requires
                        c <= 0x1_0000_0000_0000,
                        lc <= 64 * 65536,
                ;
                assert(lc == spec_log2_q16(c as int));
            }
            weighted = weighted + (c as u128) * (lc as u128);
        } else {
            proof {
                reveal(spec_log2_q16);
                assert(byte_count(data@, b2 as u8) * spec_log2_q16(
                    byte_count(data@, b2 as u8) as int,
                ) == 0);
            }
        }
        b2 = b2 + 1;
    }
    let avg: u128 = weighted / (n as u128);
    proof {
        if all_bytes_equal(data@) {
            assert(0 <= (data@[0] as int) < 256);
            assert(weighted == (n as nat) * (log_n as nat));
            lemma_div_multiples_vanish(log_n as int, n as int);
            assert((n as int) * (log_n as int) == (log_n as int) * (n as int))
                by (nonlinear_arith);
            assert(avg == log_n);
        }
    }
    let ent: u128 = if (log_n as u128) > avg {
        (log_n as u128) - avg
    } else {
        0
    };
    let r: u64 = if ent > (ENTROPY_MAX as u128) {
        ENTROPY_MAX
    } else {
        ent as u64
    };
    proof {
        reveal(spec_entropy_q16);
        assert(weighted as int == spec_weighted(data@, 256));
        assert(r == spec_entropy_q16(data@));
    }
    r
}

/// In an all-equal sequence the bin of the repeated byte holds all of it.
proof fn lemma_all_equal_count_full(data: Seq<u8>, b: u8)
    requires
        data.len() > 0,
        all_bytes_equal(data),
        data[0] == b,
    ensures
        byte_count(data, b) == data.len(),
    decreases data.len(),
{
    assert(data.last() == data[data.len() - 1]);
    assert(data[data.len() - 1] == data[0]);
    assert(byte_count(data, b) == byte_count(data.drop_last(), b) + 1nat);
    if data.len() == 1 {
        assert(data.drop_last() =~= Seq::<u8>::empty());
        assert(byte_count(data.drop_last(), b) == 0);
    } else {
        assert(data.drop_last().len() == data.len() - 1);
        assert(forall|i: int|
            0 <= i < data.drop_last().len() ==> #[trigger] data.drop_last()[i] == data[i]);
        assert(all_bytes_equal(data.drop_last()));
        lemma_all_equal_count_full(data.drop_last(), b);
    }
}

/// In an all-equal sequence every other bin is empty.
proof fn lemma_all_equal_count_zero(data: Seq<u8>, b: u8)
    requires
        all_bytes_equal(data),
        data.len() == 0 || data[0] != b,
    ensures
        byte_count(data, b) == 0,
    decreases data.len(),
{
    if data.len() > 0 {
        assert(forall|i: int|
            0 <= i < data.drop_last().len() ==> #[trigger] data.drop_last()[i] == data[i]);
        assert(all_bytes_equal(data.drop_last()));
        if data.len() == 1 {
            assert(data.drop_last() =~= Seq::<u8>::empty());
            lemma_all_equal_count_zero(data.drop_last(), b);
        } else {
            lemma_all_equal_count_zero(data.drop_last(), b);
        }
        assert(data.last() == data[data.len() - 1]);
        assert(data[data.len() - 1] == data[0]);
    }
}

/// High entropy (> 7.5 bits) suggests compressed or encrypted content.
pub fn is_compressed_like(data: &[u8]) -> (r: bool)
    requires
        data@.len() <= 0x1_0000_0000_0000,
    ensures
        r == (spec_entropy_q16(data@) > 7 * 65536 + 32768),
        data@.len() == 0 ==> !r,
        all_bytes_equal(data@) ==> !r,
    {
    let entropy: u64 = calculate_shannon_entropy(data);
    entropy > 7 * 65536 + 32768
}

/// Entropy between 3.0 and 6.0 bits suggests readable structured text.
pub fn is_structured_text(data: &[u8]) -> (r: bool)
    requires
        data@.len() <= 0x1_0000_0000_0000,
    ensures
        r == (3 * 65536 <= spec_entropy_q16(data@) && spec_entropy_q16(data@) <= 6 * 65536),
        data@.len() == 0 ==> !r,
        all_bytes_equal(data@) ==> !r,
{
    let entropy: u64 = calculate_shannon_entropy(data);
    3 * 65536 <= entropy && entropy <= 6 * 65536
}

/// Coarse entropy bucket for logging.
///
/// The buckets partition the range at 1.0, 3.5, 6.0 and 7.5 bits.
pub fn get_entropy_category(data: &[u8]) -> (r: &'static str)
    requires
        data@.len() <= 0x1_0000_0000_0000,
    ensures
        spec_entropy_q16(data@) > 7 * 65536 + 32768 ==> r@ =~= "high_entropy_compressed"@,
        6 * 65536 < spec_entropy_q16(data@) <= 7 * 65536 + 32768 ==> r@
            =~= "medium_entropy_mixed"@,
        3 * 65536 + 32768 < spec_entropy_q16(data@) <= 6 * 65536 ==> r@ =~= "structured_text"@,
        65536 < spec_entropy_q16(data@) <= 3 * 65536 + 32768 ==> r@
            =~= "low_entropy_repetitive"@,
        spec_entropy_q16(data@) <= 65536 ==> r@ =~= "very_low_entropy_uniform"@,
        (data@.len() == 0 || all_bytes_equal(data@)) ==> r@ =~= "very_low_entropy_uniform"@,
{
    let entropy: u64 = calculate_shannon_entropy(data);
    if entropy > 7 * 65536 + 32768 {
        "high_entropy_compressed"
    } else if entropy > 6 * 65536 {
        "medium_entropy_mixed"
    } else if entropy > 3 * 65536 + 32768 {
        "structured_text"
    } else if entropy > 65536 {
        "low_entropy_repetitive"
    } else {
        "very_low_entropy_uniform"
    }
}

} // verus!
