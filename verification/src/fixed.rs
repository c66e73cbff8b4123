//! Fixed-point arithmetic for the vectorizer.
//!
//! A weight of `SCALE` stands for the real number 1.0. All term weights,
//! similarity scores and thresholds in this library are expressed in these
//! units, which keeps the whole computation in exact integer arithmetic.
use vstd::prelude::*;
use vstd::arithmetic::div_mod::{lemma_div_is_ordered, lemma_div_multiples_vanish};
use vstd::arithmetic::mul::lemma_mul_upper_bound;
use vstd::arithmetic::power2::{pow2, lemma_pow2_adds};

verus! {

/// One whole unit: similarity 1.0 and term weight 1.0 are `SCALE`.
pub const SCALE: u64 = 65536;

/// `ln(2) * SCALE`, rounded to the nearest integer.
pub const LN2_FIX: u64 = 45426;

/// Upper bound on `ln_fix_spec` for any 128-bit input: `113 * LN2_FIX`.
pub const LN_MAX: u64 = 5133138;

/// Upper bound on an inverse-document-frequency factor: `SCALE + LN_MAX`.
pub const IDF_MAX: u64 = 5198674;

/// The integer square root: the largest `r` with `r * r <= x`.
pub open spec fn isqrt_spec(x: int) -> int
    decreases x,
{
    if x <= 0 {
        0
    } else {
        let r = isqrt_spec(x - 1);
        if (r + 1) * (r + 1) <= x {
            r + 1
        } else {
            r
        }
    }
}

/// `isqrt_spec(x)` is the unique integer whose square brackets `x`.
pub proof fn lemma_isqrt_bounds(x: int)
    requires
        x >= 0,
    ensures
        isqrt_spec(x) >= 0,
        isqrt_spec(x) * isqrt_spec(x) <= x,
        x < (isqrt_spec(x) + 1) * (isqrt_spec(x) + 1),
    decreases x,
{
    if x == 0 {
    } else {
        lemma_isqrt_bounds(x - 1);
        let r = isqrt_spec(x - 1);
        if (r + 1) * (r + 1) <= x {
            assert(x <= (r + 1) * (r + 1)) by {
                assert(x - 1 < (r + 1) * (r + 1));
            };
            assert((r + 2) * (r + 2) > (r + 1) * (r + 1)) by (nonlinear_arith)
                requires r >= 0;
        } else {
        }
    }
}

/// A positive number has a positive integer square root.
pub proof fn lemma_isqrt_pos(x: int)
    requires
        x >= 1,
    ensures
        isqrt_spec(x) >= 1,
{
    lemma_isqrt_bounds(x);
    let q = isqrt_spec(x);
    if q == 0 {
        assert(x < 1) by (nonlinear_arith)
            requires x < (q + 1) * (q + 1), q == 0;
    }
}

/// Any `r` whose square brackets `x` equals `isqrt_spec(x)`.
pub proof fn lemma_isqrt_unique(x: int, r: int)
    requires
        x >= 0,
        r >= 0,
        r * r <= x,
        x < (r + 1) * (r + 1),
    ensures
        r == isqrt_spec(x),
{
    lemma_isqrt_bounds(x);
    let q = isqrt_spec(x);
    if r < q {
        assert((r + 1) * (r + 1) <= q * q) by (nonlinear_arith)
            requires 0 <= r, r + 1 <= q;
        assert(false);
    }
    if q < r {
        assert((q + 1) * (q + 1) <= r * r) by (nonlinear_arith)
            requires 0 <= q, q + 1 <= r;
        assert(false);
    }
}

/// Integer square root of a 128-bit value by bisection.
pub fn isqrt(x: u128) -> (r: u64)
    ensures
        r as int == isqrt_spec(x as int),
        (r as int) * (r as int) <= x as int,
        (x as int) < ((r as int) + 1) * ((r as int) + 1),
{
    let mut lo: u128 = 0;
    let mut hi: u128 = 0x1_0000_0000_0000_0000;
    assert((hi as int) * (hi as int) > x as int) by (nonlinear_arith)
        requires hi == 0x1_0000_0000_0000_0000u128, x <= u128::MAX;
    while lo + 1 < hi
        invariant
            lo < hi <= 0x1_0000_0000_0000_0000,
            (lo as int) * (lo as int) <= x as int,
            (x as int) < (hi as int) * (hi as int),
        decreases hi - lo,
    {
        let mid = lo + (hi - lo) / 2;
        assert(lo < mid < hi);
        assert((mid as int) * (mid as int) < 0x1_0000_0000_0000_0000_0000_0000_0000_0000)
            by (nonlinear_arith)
            requires mid < 0x1_0000_0000_0000_0000u128;
        if mid * mid <= x {
            lo = mid;
        } else {
            hi = mid;
        }
    }
    proof {
        lemma_isqrt_unique(x as int, lo as int);
    }
    lo as u64
}

/// The leading fixed-point digit of `y`: `y` halved until it lies in
/// `[SCALE, 2 * SCALE)`.
pub open spec fn msd_val(y: int) -> int
    decreases y,
{
    if y < 2 * SCALE {
        y
    } else {
        msd_val(y / 2)
    }
}

/// How many halvings `msd_val` performs.
pub open spec fn msd_exp(y: int) -> int
    decreases y,
{
    if y < 2 * SCALE {
        0
    } else {
        1 + msd_exp(y / 2)
    }
}

/// The first `n` fractional bits of the base-2 logarithm of `y / SCALE`,
/// for `y` in `[SCALE, 2 * SCALE)`, by repeated squaring.
pub open spec fn frac_bits(y: int, n: nat) -> int
    decreases n,
{
    if n == 0 {
        0
    } else {
        let y2 = (y * y) / (SCALE as int);
        if y2 >= 2 * SCALE {
            pow2((n - 1) as nat) + frac_bits(y2 / 2, (n - 1) as nat)
        } else {
            frac_bits(y2, (n - 1) as nat)
        }
    }
}

/// Fixed-point natural logarithm of `x / SCALE`, for `x >= SCALE`:
/// `ln(x / SCALE) ~= (msd_exp(x) + frac/2^16) * ln(2)`.
pub open spec fn ln_fix_spec(x: int) -> int {
    (msd_exp(x) * SCALE + frac_bits(msd_val(x), 16)) * LN2_FIX / (SCALE as int)
}

/// `msd_val` stays in `[SCALE, 2 * SCALE)` and `msd_exp` counts halvings.
proof fn lemma_msd_props(y: int)
    requires
        y >= SCALE,
    ensures
        SCALE <= msd_val(y) < 2 * SCALE,
        msd_exp(y) >= 0,
        msd_val(y) * pow2(msd_exp(y) as nat) <= y,
    decreases y,
{
    if y < 2 * SCALE {
        vstd::arithmetic::power2::lemma2_to64();
        assert(msd_val(y) == y);
        assert(msd_exp(y) == 0);
        assert(msd_exp(y) as nat == 0nat);
        assert(pow2(msd_exp(y) as nat) == 1);
    } else {
        assert(y / 2 >= SCALE);
        lemma_msd_props(y / 2);
        let k = msd_exp(y / 2);
        assert(msd_val(y) == msd_val(y / 2));
        assert(msd_exp(y) == 1 + k);
        lemma_pow2_adds(k as nat, 1);
        vstd::arithmetic::power2::lemma2_to64();
        assert(msd_val(y / 2) * pow2((k + 1) as nat) == (msd_val(y / 2) * pow2(k as nat)) * 2)
            by (nonlinear_arith)
            requires k >= 0, pow2((k + 1) as nat) == pow2(k as nat) * 2;
        assert((y / 2) * 2 <= y);
        assert((msd_val(y / 2) * pow2(k as nat)) * 2 <= (y / 2) * 2) by (nonlinear_arith)
            requires msd_val(y / 2) * pow2(k as nat) <= y / 2;
        assert(msd_val(y) * pow2(msd_exp(y) as nat) == msd_val(y / 2) * pow2((k + 1) as nat));
    }
}

/// `frac_bits` yields fewer than `2^n`.
proof fn lemma_frac_bits_bound(y: int, n: nat)
    requires
        SCALE <= y < 2 * SCALE,
    ensures
        0 <= frac_bits(y, n) < pow2(n),
    decreases n,
{
    vstd::arithmetic::power2::lemma_pow2_pos(n);
    if n == 0 {
    } else {
        let y2 = (y * y) / (SCALE as int);
        assert(SCALE <= y2 < 4 * SCALE) by (nonlinear_arith)
            requires SCALE <= y < 2 * SCALE, y2 == (y * y) / (SCALE as int), SCALE == 65536;
        if y2 >= 2 * SCALE {
            assert(SCALE <= y2 / 2 < 2 * SCALE);
            lemma_frac_bits_bound(y2 / 2, (n - 1) as nat);
        } else {
            lemma_frac_bits_bound(y2, (n - 1) as nat);
        }
        lemma_pow2_adds(1, (n - 1) as nat);
        vstd::arithmetic::power2::lemma2_to64();
    }
}

/// Fixed-point natural logarithm, `ln_fix_spec` made executable.
pub fn ln_fixed(x: u128) -> (r: u64)
    requires
        x as int >= SCALE,
    ensures
        r as int == ln_fix_spec(x as int),
        r <= LN_MAX,
{
    let mut y: u128 = x;
    let mut k: u64 = 0;
    proof {
        vstd::arithmetic::power2::lemma2_to64();
        lemma_msd_props(x as int);
    }
    while y >= 2 * (SCALE as u128)
        invariant
            y >= SCALE,
            k <= 112,
            k as int == msd_exp(x as int) - msd_exp(y as int),
            msd_val(y as int) == msd_val(x as int),
            msd_exp(y as int) >= 0,
            (y as int) * pow2(k as nat) <= x as int,
        decreases y,
    {
        proof {
            lemma_msd_props(y as int);
            lemma_pow2_adds(k as nat, 1);
            vstd::arithmetic::power2::lemma2_to64();
            vstd::arithmetic::power2::lemma_pow2_pos(k as nat);
            assert((y as int / 2) * pow2((k + 1) as nat) <= x as int) by (nonlinear_arith)
                requires
                    (y as int) * pow2(k as nat) <= x as int,
                    pow2((k + 1) as nat) == pow2(k as nat) * 2,
                    pow2(k as nat) >= 1,
                    y as int >= 0,
                    (y as int / 2) * 2 <= y as int;
            if k == 112 {
                vstd::arithmetic::power2::lemma2_to64_rest();
                lemma_pow2_adds(64, 48);
                assert((y as int) * pow2(112) > u128::MAX as int) by (nonlinear_arith)
                    requires
                        y as int >= 2 * 65536,
                        pow2(112) == pow2(64) * pow2(48),
                        pow2(64) == 0x1_0000_0000_0000_0000,
                        pow2(48) == 0x1_0000_0000_0000;
                assert(false);
            }
            lemma_msd_props((y as int) / 2);
        }
        y = y / 2;
        k = k + 1;
        proof {
            vstd::arithmetic::power2::lemma_pow2_pos(k as nat);
        }
    }
    proof {
        assert(msd_exp(y as int) == 0);
    }
    // Now SCALE <= y < 2 * SCALE; extract 16 fractional bits of log2.
    let mut m: u64 = y as u64;
    let mut f: u64 = 0;
    let mut i: u64 = 0;
    let ghost m0 = m as int;
    proof {
        vstd::arithmetic::power2::lemma2_to64();
    }
    while i < 16
        invariant
            i <= 16,
            SCALE <= m < 2 * SCALE,
            0 <= f < pow2(i as nat),
            frac_bits(m0, 16) == f * pow2((16 - i) as nat) + frac_bits(m as int, (16 - i) as nat),
            SCALE <= m0 < 2 * SCALE,
        decreases 16 - i,
    {
        proof {
            lemma_frac_bits_bound(m as int, (16 - i) as nat);
            assert((m as int) * (m as int) < 0x400000000) by (nonlinear_arith)
                requires m < 2 * 65536u64;
        }
        let m2: u64 = (m * m) / SCALE;
        proof {
            assert(SCALE <= m2 < 4 * SCALE) by (nonlinear_arith)
                requires
                    SCALE <= m < 2 * SCALE,
                    m2 == (m as int * m as int) / (SCALE as int),
                    SCALE == 65536u64;
            lemma_pow2_adds(1, (15 - i) as nat);
            vstd::arithmetic::power2::lemma2_to64();
            lemma_frac_bits_bound(m0, 16);
        }
        let ghost fb_before = frac_bits(m as int, (16 - i) as nat);
        if m2 >= 2 * SCALE {
            proof {
                assert(fb_before == pow2((15 - i) as nat) + frac_bits(m2 as int / 2, (15 - i) as nat));
                assert((2 * f + 1) * pow2((15 - i) as nat)
                    == f * (2 * pow2((15 - i) as nat)) + pow2((15 - i) as nat)) by (nonlinear_arith);
                vstd::arithmetic::power2::lemma_pow2_pos((15 - i) as nat);
                assert(f * pow2((16 - i) as nat) == f * (2 * pow2((15 - i) as nat)));
            }
            m = m2 / 2;
            f = 2 * f + 1;
        } else {
            proof {
                assert(fb_before == frac_bits(m2 as int, (15 - i) as nat));
                assert((2 * f) * pow2((15 - i) as nat) == f * (2 * pow2((15 - i) as nat)))
                    by (nonlinear_arith);
            }
            m = m2;
            f = 2 * f;
        }
        i = i + 1;
    }
    proof {
        assert(frac_bits(m as int, 0) == 0);
        assert(f * pow2(0) == f) by {
            vstd::arithmetic::power2::lemma2_to64();
        };
        assert(frac_bits(m0, 16) == f);
    }
    let num: u64 = k * SCALE + f;
    let r: u64 = (num * LN2_FIX) / SCALE;
    proof {
        assert(num as int == msd_exp(x as int) * SCALE + frac_bits(msd_val(x as int), 16));
        assert(num <= 113 * SCALE - 1);
        assert(num as int * LN2_FIX <= (113 * SCALE - 1) * LN2_FIX) by (nonlinear_arith)
            requires num as int <= 113 * SCALE - 1, LN2_FIX > 0;
        lemma_div_is_ordered(num as int * LN2_FIX, (113 * SCALE - 1) as int * LN2_FIX, SCALE as int);
        assert(((113 * 65536 - 1) * 45426) / 65536 <= 5133138) by (nonlinear_arith);
    }
    r
}

/// The smoothed inverse document frequency, in fixed point:
/// `SCALE * (ln((1 + n_docs) / (1 + df)) + 1)`, clamped below at `SCALE`.
pub open spec fn idf_spec(n_docs: int, df: int) -> int {
    let arg = ((1 + n_docs) * SCALE) / (1 + df);
    if arg < SCALE {
        SCALE as int
    } else {
        SCALE + ln_fix_spec(arg)
    }
}

/// Inverse document frequency of a term seen in `df` of `n_docs` documents.
pub fn idf_fixed(n_docs: u64, df: u64) -> (r: u64)
    ensures
        r as int == idf_spec(n_docs as int, df as int),
        SCALE <= r <= IDF_MAX,
{
    proof {
        assert((1 + n_docs as int) * 65536 <= u128::MAX as int) by (nonlinear_arith)
            requires n_docs <= u64::MAX;
    }
    let arg: u128 = ((1 + n_docs as u128) * (SCALE as u128)) / (1 + df as u128);
    if arg < SCALE as u128 {
        SCALE
    } else {
        let l = ln_fixed(arg);
        SCALE + l
    }
}

/// The fixed-point TF-IDF weight of a term occurring `count` times among
/// `total` tokens, with document frequency `df` out of `n_docs` documents.
pub open spec fn weight_spec(count: int, total: int, df: int, n_docs: int) -> int {
    let tf = (count * SCALE) / total;
    (tf * idf_spec(n_docs, df)) / (SCALE as int)
}

/// TF-IDF weight of one term of a text; always at most `IDF_MAX`.
pub fn weight_fixed(count: u64, total: u64, df: u64, n_docs: u64) -> (r: u64)
    requires
        1 <= count <= total,
    ensures
        r as int == weight_spec(count as int, total as int, df as int, n_docs as int),
        r <= IDF_MAX,
{
    proof {
        assert((count as int) * 65536 <= u128::MAX as int) by (nonlinear_arith)
            requires count <= u64::MAX;
    }
    let tf: u128 = ((count as u128) * (SCALE as u128)) / (total as u128);
    proof {
        assert((count as int) * SCALE <= (total as int) * SCALE) by (nonlinear_arith)
            requires count <= total, SCALE == 65536u64;
        lemma_div_is_ordered((count as int) * SCALE, (total as int) * SCALE, total as int);
        lemma_div_multiples_vanish(SCALE as int, total as int);
        assert(tf as int <= SCALE);
    }
    let idf = idf_fixed(n_docs, df);
    proof {
        assert((tf as int) * (idf as int) <= 65536 * 5198674) by (nonlinear_arith)
            requires 0 <= tf as int <= 65536, 0 <= idf as int <= 5198674;
    }
    let prod: u128 = tf * (idf as u128);
    proof {
        lemma_mul_upper_bound(tf as int, SCALE as int, idf as int, IDF_MAX as int);
        lemma_div_is_ordered(prod as int, (SCALE as int) * (IDF_MAX as int), SCALE as int);
        lemma_div_multiples_vanish(IDF_MAX as int, SCALE as int);
    }
    (prod / (SCALE as u128)) as u64
}

} // verus!
