//! Integer numeric helpers: square root, base-2 logarithm in fixed
//! point, and decimal rendering.

use vstd::prelude::*;
use vstd::arithmetic::div_mod::{lemma_div_is_ordered, lemma_div_multiples_vanish};
use vstd::arithmetic::power2::{pow2, lemma_pow2_adds, lemma_pow2_pos, lemma_pow2_strictly_increases, lemma2_to64};

verus! {

/// Integer square root of `x`: the largest `r` with `r * r <= x`.
///
/// The input is capped at `2^112` so that squares stay inside the
/// 128-bit intermediates.
pub fn isqrt_u128(x: u128) -> (r: u64)
    requires
        x < 0x1_0000_0000_0000_0000_0000_0000_0000,  // 2^112
    ensures
        (r as u128) * (r as u128) <= x,
        x < ((r as u128) + 1) * ((r as u128) + 1),
{
    let mut lo: u64 = 0;
    // 2^56 squared is 2^112, just past the input cap.
    let mut hi: u64 = 0x100_0000_0000_0000;
    assert((0x100_0000_0000_0000u128) * (0x100_0000_0000_0000u128)
        == 0x1_0000_0000_0000_0000_0000_0000_0000u128) by (nonlinear_arith);
    while lo + 1 < hi
        invariant
            lo < hi,
            hi <= 0x100_0000_0000_0000,
            (lo as u128) * (lo as u128) <= x,
            x < (hi as u128) * (hi as u128),
        decreases hi - lo,
    {
        let mid: u64 = lo + (hi - lo) / 2;
        proof {
            assert((mid as u128) * (mid as u128) <= 0x1_0000_0000_0000_0000_0000_0000_0000)
                by (nonlinear_arith)
                requires
                    mid <= 0x100_0000_0000_0000,
            ;
        }
        if (mid as u128) * (mid as u128) <= x {
            lo = mid;
        } else {
            hi = mid;
        }
    }
    lo
}

/// Floor of `log2(x)` for positive `x`, by repeated halving.
pub open spec fn spec_ilog2(x: int) -> int
    decreases x,
{
    if x < 2 {
        0
    } else {
        1 + spec_ilog2(x / 2)
    }
}

/// The Q32 mantissa the logarithm loop starts from: `x` scaled by a
/// power of two into `[2^32, 2^33)`, clamped at the range ends.
pub open spec fn spec_mant(x: int) -> int {
    let ip = spec_ilog2(x);
    let sh = if ip <= 32 {
        x * pow2((32 - ip) as nat)
    } else {
        x / pow2((ip - 32) as nat) as int
    };
    let lo: int = if sh < 0x1_0000_0000 {
        0x1_0000_0000
    } else {
        sh
    };
    if lo > 0x1_ffff_ffff {
        0x1_ffff_ffff
    } else {
        lo
    }
}

/// Mantissa and fraction bits after `i` squaring steps: each step
/// squares the Q32 mantissa and shifts a one out when it reaches two.
pub open spec fn spec_log2_steps(m: int, i: int) -> (int, int)
    decreases i,
{
    if i <= 0 {
        (m, 0int)
    } else {
        let prev = spec_log2_steps(m, i - 1);
        let sq = (prev.0 * prev.0) / 0x1_0000_0000;
        if sq >= 0x2_0000_0000 {
            (sq / 2, prev.1 * 2 + 1)
        } else {
            (sq, prev.1 * 2)
        }
    }
}

/// `log2(x)` in Q16 fixed point: the integer part exact, the fraction
/// from sixteen mantissa-squaring steps.
#[verifier::opaque]
pub open spec fn spec_log2_q16(x: int) -> int {
    if x <= 1 {
        0
    } else {
        spec_ilog2(x) * 65536 + spec_log2_steps(spec_mant(x), 16).1
    }
}

/// `2^e` for small exponents, by doubling.
fn pow2_small(e: u32) -> (r: u64)
    requires
        e <= 63,
    ensures
        r == pow2(e as nat),
        r >= 1,
{
    let mut r: u64 = 1;
    let mut i: u32 = 0;
    proof {
        lemma2_to64();
    }
    while i < e
        invariant
            i <= e <= 63,
            r == pow2(i as nat),
            r >= 1,
        decreases e - i,
    {
        proof {
            lemma_pow2_adds(i as nat, 1);
            lemma2_to64();
            if i + 1 < 63 {
                lemma_pow2_strictly_increases((i + 1) as nat, 63);
            }
            assert(pow2(63) == 0x8000_0000_0000_0000) by {
                lemma_pow2_adds(32, 31);
                lemma2_to64();
            }
        }
        r = r * 2;
        i = i + 1;
    }
    r
}

/// Floor of `log2(x)` for positive `x`, counted by halving.
pub fn ilog2_u64(x: u64) -> (r: u32)
    requires
        x >= 1,
    ensures
        r < 64,
        r == spec_ilog2(x as int),
{
    let mut r: u32 = 0;
    let mut v: u64 = x;
    proof {
        lemma2_to64();
        assert(pow2(64) == 0x10000000000000000) by {
            lemma_pow2_adds(32, 32);
        }
    }
    while v >= 2
        invariant
            1 <= v,
            r <= 64,
            (v as nat) * pow2(r as nat) < pow2(64),
            spec_ilog2(x as int) == r + spec_ilog2(v as int),
        decreases v,
    {
        proof {
            // v >= 2 forces pow2(r + 1) <= v * pow2(r) < pow2(64), so r < 63.
            lemma_pow2_adds(1, r as nat);
            lemma_pow2_pos(r as nat);
            lemma_pow2_pos((r + 1) as nat);
            lemma2_to64();
            assert(2 * pow2(r as nat) <= (v as nat) * pow2(r as nat)) by (nonlinear_arith)
                requires
                    v >= 2,
                    pow2(r as nat) > 0,
            ;
            if r + 1 >= 64 {
                if r + 1 > 64 {
                    lemma_pow2_strictly_increases(64, (r + 1) as nat);
                }
                assert(false);
            }
            // Halving: (v / 2) * pow2(r + 1) <= v * pow2(r) ... needs care with odd v.
            assert(((v / 2) as nat) * pow2((r + 1) as nat) <= (v as nat) * pow2(r as nat))
                by (nonlinear_arith)
                requires
                    v >= 2,
                    pow2((r + 1) as nat) == 2 * pow2(r as nat),
                    pow2(r as nat) > 0,
            ;
        }
        v = v / 2;
        r = r + 1;
    }
    proof {
        if r == 64 {
            assert((v as nat) * pow2(64) >= pow2(64)) by (nonlinear_arith)
                requires
                    v >= 1,
                    pow2(64) > 0,
            ;
        }
    }
    r
}

/// `log2(x)` in Q16 fixed point (65536 = one bit) for positive `x`.
///
/// The integer part is exact; the fractional part comes from sixteen
/// mantissa-squaring steps. `log2_q16(1) == 0` exactly.
pub fn log2_q16(x: u64) -> (r: u64)
    requires
        x >= 1,
    ensures
        x == 1 ==> r == 0,
        r <= 64 * 65536,
        r == spec_log2_q16(x as int),
{
    proof {
        reveal(spec_log2_q16);
    }
    if x == 1 {
        return 0;
    }
    let ip: u32 = ilog2_u64(x);
    // Normalise x into [1, 2) as a Q32 mantissa in [2^32, 2^33).
    let shifted: u128 = if ip <= 32 {
        let p: u64 = pow2_small(32 - ip);
        proof {
            assert(pow2(32) == 0x1_0000_0000) by {
                lemma2_to64();
            }
            assert(p <= 0x1_0000_0000) by {
                if 32 - ip < 32 {
                    lemma_pow2_strictly_increases((32 - ip) as nat, 32);
                }
            }
            assert((x as int) * (p as int) < 0x1_0000_0000_0000_0000_0000_0000)
                by (nonlinear_arith)
                requires
                    x < 0x1_0000_0000_0000_0000,
                    p <= 0x1_0000_0000,
            ;
        }
        (x as u128) * (p as u128)
    } else {
        let p: u64 = pow2_small(ip - 32);
        (x as u128) / (p as u128)
    };
    proof {
        assert(shifted as int == if (ip as int) <= 32 {
            (x as int) * pow2((32 - ip) as nat)
        } else {
            (x as int) / pow2((ip - 32) as nat) as int
        });
    }
    let mut m: u128 = shifted;
    if m < 0x1_0000_0000 {
        m = 0x1_0000_0000;
    }
    if m > 0x1_ffff_ffff {
        m = 0x1_ffff_ffff;
    }
    proof {
        assert(m as int == spec_mant(x as int));
    }
    let ghost m0: int = m as int;
    let mut frac: u64 = 0;
    let mut i: u32 = 0;
    proof {
        lemma2_to64();
    }
    while i < 16
        invariant
            i <= 16,
            0x1_0000_0000 <= m < 0x2_0000_0000,
            (frac as nat) < pow2(i as nat),
            m0 == spec_mant(x as int),
            (m as int, frac as int) == spec_log2_steps(m0, i as int),
        decreases 16 - i,
    {
        proof {
            assert(m * m < 0x4_0000_0000_0000_0000) by (nonlinear_arith)
                requires
                    m < 0x2_0000_0000,
            ;
            assert(m * m >= 0x1_0000_0000_0000_0000) by (nonlinear_arith)
                requires
                    m >= 0x1_0000_0000,
            ;
            lemma_pow2_adds(i as nat, 1);
            lemma2_to64();
            if i < 16 {
                lemma_pow2_strictly_increases(i as nat, 16);
            }
        }
        let prod: u128 = m * m;
        let sq: u128 = prod / 0x1_0000_0000;
        proof {
            lemma_div_is_ordered(0x1_0000_0000_0000_0000, prod as int, 0x1_0000_0000);
            lemma_div_is_ordered(prod as int, 0x3_ffff_ffff_ffff_ffff, 0x1_0000_0000);
        }
        if sq >= 0x2_0000_0000 {
            frac = frac * 2 + 1;
            m = sq / 2;
        } else {
            frac = frac * 2;
            m = sq;
        }
        i = i + 1;
    }
    proof {
        lemma2_to64();
        assert(pow2(16) == 65536);
        assert((ip as int) * 65536 + frac == spec_log2_q16(x as int));
    }
    (ip as u64) * 65536 + frac
}

/// Render `n` in decimal.
pub fn u64_to_string(n: u64) -> (r: String)
    ensures
        r@.len() >= 1,
{
    let mut digits: Vec<u8> = Vec::new();
    let mut v: u64 = n;
    loop
        invariant
            forall|i: int| 0 <= i < digits@.len() ==> 48 <= #[trigger] digits@[i] <= 57,
        ensures
            digits@.len() >= 1,
            forall|i: int| 0 <= i < digits@.len() ==> 48 <= #[trigger] digits@[i] <= 57,
        decreases v,
    {
        let d: u8 = (v % 10) as u8;
        digits.push(48 + d);
        let next: u64 = v / 10;
        if next == 0 {
            break;
        }
        v = next;
    }
    let mut out = String::new();
    let mut i: usize = digits.len();
    while i > 0
        invariant
            i <= digits@.len(),
            forall|k: int| 0 <= k < digits@.len() ==> 48 <= #[trigger] digits@[k] <= 57,
            out@.len() == digits@.len() - i,
        decreases i,
    {
        i = i - 1;
        let d: u8 = digits[i];
        let piece: &'static str = digit_str(d);
        out.append(piece);
    }
    out
}

/// The one-character string for a decimal digit byte.
fn digit_str(d: u8) -> (r: &'static str)
    requires
        48 <= d <= 57,
    ensures
        r@.len() == 1,
{
    let r: &'static str = match d {
        48u8 => "0",
        49u8 => "1",
        50u8 => "2",
        51u8 => "3",
        52u8 => "4",
        53u8 => "5",
        54u8 => "6",
        55u8 => "7",
        56u8 => "8",
        _ => "9",
    };
    proof {
        reveal_strlit("0");
        reveal_strlit("1");
        reveal_strlit("2");
        reveal_strlit("3");
        reveal_strlit("4");
        reveal_strlit("5");
        reveal_strlit("6");
        reveal_strlit("7");
        reveal_strlit("8");
        reveal_strlit("9");
    }
    r
}

/// Divide then compare: `a * scale / b >= scale` whenever `0 < b <= a`.
pub proof fn lemma_scaled_ratio_at_least_one(a: int, b: int, scale: int)
    requires
        0 < b <= a,
        scale > 0,
    ensures
        a * scale / b >= scale,
{
    assert(b * scale <= a * scale) by (nonlinear_arith)
        requires
            0 < b <= a && scale > 0,
    ;
    lemma_div_is_ordered(b * scale, a * scale, b);
    lemma_div_multiples_vanish(scale, b);
    assert(b * scale / b == scale * b / b) by (nonlinear_arith);
}

} // verus!
