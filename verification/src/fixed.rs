use vstd::prelude::*;
use vstd::arithmetic::div_mod::{
    lemma_div_is_ordered, lemma_div_is_ordered_by_denominator, lemma_div_multiples_vanish,
};
use vstd::arithmetic::power2::{
    lemma2_to64, lemma2_to64_rest, lemma_pow2_strictly_increases, lemma_pow2_unfold, pow2,
};

verus! {

/// One, in Q32.32 fixed point (`2^32`).
pub const Q_ONE: u64 = 4294967296;

/// `floor(ln(2) * 2^32)`.
pub const LN2_Q: u64 = 2977044471;

/// `floor(sqrt(365.25) * 2^32)`, the calendar-day annualization factor.
pub const SQRT_YEAR_Q: u64 = 82083331273;

/// Upper bound on `term_q` over any pair of `u64` prices.
pub const TERM_MAX: u64 = 8452218801796;

/// Fixed-point price ratio `floor(h * 2^32 / l)`.
pub open spec fn ratio_q(h: int, l: int) -> int {
    (h * (Q_ONE as int)) / l
}

/// Integer part of `log2(r / 2^32)` for `r >= Q_ONE`: the number of halvings
/// until the mantissa lies in `[Q_ONE, 2 * Q_ONE)`.
pub open spec fn norm_e(r: int) -> int
    decreases r,
{
    if r < 2 * (Q_ONE as int) {
        0
    } else {
        norm_e(r / 2) + 1
    }
}

/// Mantissa left over by the halvings counted by [`norm_e`].
pub open spec fn norm_m(r: int) -> int
    decreases r,
{
    if r < 2 * (Q_ONE as int) {
        r
    } else {
        norm_m(r / 2)
    }
}

/// One squaring step of the fractional-bit extraction: the next mantissa.
pub open spec fn fstep_m(m: int) -> int {
    let m2 = (m * m) / (Q_ONE as int);
    if m2 >= 2 * (Q_ONE as int) {
        m2 / 2
    } else {
        m2
    }
}

/// One squaring step of the fractional-bit extraction: the bit produced.
pub open spec fn fstep_b(m: int) -> int {
    if (m * m) / (Q_ONE as int) >= 2 * (Q_ONE as int) {
        1
    } else {
        0
    }
}

/// The first `k` fractional bits of `log2(m / 2^32)`, read as an integer.
pub open spec fn frac_bits(m: int, k: nat) -> int
    decreases k,
{
    if k == 0 {
        0
    } else {
        fstep_b(m) * pow2((k - 1) as nat) + frac_bits(fstep_m(m), (k - 1) as nat)
    }
}

/// `log2(r / 2^32)` in Q32.32, for `r >= Q_ONE`.
pub open spec fn log2_q(r: int) -> int {
    norm_e(r) * (Q_ONE as int) + frac_bits(norm_m(r), 32)
}

/// [`log2_q`] rescaled to a natural logarithm, in Q32.32.
pub open spec fn ln_q(r: int) -> int {
    (log2_q(r) * (LN2_Q as int)) / (Q_ONE as int)
}

/// The Parkinson term of one candle: its squared log-range, in Q32.32.
pub open spec fn term_q(h: int, l: int) -> int {
    (ln_q(ratio_q(h, l)) * ln_q(ratio_q(h, l))) / (Q_ONE as int)
}

/// `r` is the integer square root of `x`.
pub open spec fn is_isqrt(x: int, r: int) -> bool {
    r >= 0 && r * r <= x && x < (r + 1) * (r + 1)
}

/// The integer square root of a nonnegative `x`.
pub open spec fn spec_isqrt(x: int) -> int {
    choose|r: int| is_isqrt(x, r)
}

/// The integer square root is unique, so any witness equals `spec_isqrt`.
pub proof fn lemma_isqrt_is(x: int, r: int)
    requires
        is_isqrt(x, r),
    ensures
        spec_isqrt(x) == r,
{
    assert(exists|w: int| is_isqrt(x, w));
    let r2 = spec_isqrt(x);
    assert(is_isqrt(x, r2));
    if r2 < r {
        assert((r2 + 1) * (r2 + 1) <= r * r) by (nonlinear_arith)
            requires
                0 <= r2 + 1 <= r,
        ;
        assert(false);
    }
    if r < r2 {
        assert((r + 1) * (r + 1) <= r2 * r2) by (nonlinear_arith)
            requires
                0 <= r + 1 <= r2,
        ;
        assert(false);
    }
}

/// Integer square root of a `u128`, by binary search on the root.
pub fn isqrt_u128(x: u128) -> (r: u64)
    ensures
        is_isqrt(x as int, r as int),
{
    let mut lo: u128 = 0;
    let mut hi: u128 = 18446744073709551616;
    while lo + 1 < hi
        invariant
            lo < hi <= 18446744073709551616,
            (lo as int) * (lo as int) <= x as int,
            (x as int) < (hi as int) * (hi as int),
        decreases hi - lo,
    {
        let mid = lo + (hi - lo) / 2;
        proof {
            assert((mid as int) * (mid as int) < 340282366920938463463374607431768211456int)
                by (nonlinear_arith)
                requires
                    0 <= mid as int,
                    (mid as int) < 18446744073709551616int,
            ;
        }
        if mid * mid <= x {
            lo = mid;
        } else {
            hi = mid;
        }
    }
    lo as u64
}

/// The exponent of a normalization is never negative.
pub proof fn lemma_norm_e_nonneg(r: int)
    ensures
        norm_e(r) >= 0,
    decreases r,
{
    if r >= 2 * Q_ONE {
        lemma_norm_e_nonneg(r / 2);
    }
}

/// For `Q_ONE <= r < 2^(k + 33)`, normalization stops within `k` steps
/// and leaves a mantissa in `[Q_ONE, 2 * Q_ONE)`.
pub proof fn lemma_norm_bounds(r: int, k: nat)
    requires
        Q_ONE <= r,
        r < pow2((k + 33) as nat),
    ensures
        0 <= norm_e(r) <= k,
        Q_ONE <= norm_m(r) < 2 * Q_ONE,
    decreases k,
{
    if r < 2 * (Q_ONE as int) {
        assert(norm_e(r) == 0);
    } else {
        if k == 0 {
            assert(pow2(33) == 8589934592) by {
                lemma2_to64_rest();
            }
            assert(false);
        }
        lemma_pow2_unfold((k + 33) as nat);
        assert(r / 2 < pow2((k + 32) as nat));
        lemma_norm_bounds(r / 2, (k - 1) as nat);
    }
}

/// The Parkinson term of one high/low pair, exactly [`term_q`].
pub fn term_for(h: u64, l: u64) -> (t: u64)
    requires
        0 < l <= h,
    ensures
        t == term_q(h as int, l as int),
        t <= TERM_MAX,
{
    let ratio: u128 = (h as u128) * (Q_ONE as u128) / (l as u128);
    proof {
        assert((l as int) * (Q_ONE as int) <= (h as int) * (Q_ONE as int)) by (nonlinear_arith)
            requires
                0 < l as int,
                l as int <= h as int,
                Q_ONE as int > 0,
        ;
        assert((h as int) * (Q_ONE as int) < 79228162514264337593543950336int)
            by (nonlinear_arith)
            requires
                0 <= h as int,
                (h as int) < 18446744073709551616int,
                Q_ONE as int == 4294967296,
        ;
        lemma_div_is_ordered(
            (l as int) * (Q_ONE as int),
            (h as int) * (Q_ONE as int),
            l as int,
        );
        lemma_div_multiples_vanish(Q_ONE as int, l as int);
        lemma_div_is_ordered_by_denominator((h as int) * (Q_ONE as int), 1, l as int);
        assert(Q_ONE <= ratio < 79228162514264337593543950336);
        assert(pow2(96) == 79228162514264337593543950336) by {
            lemma2_to64();
            lemma2_to64_rest();
            vstd::arithmetic::power2::lemma_pow2_adds(64, 32);
        }
        lemma_norm_bounds(ratio as int, 63);
    }
    // Normalize the ratio to an exponent and a mantissa in [Q_ONE, 2 * Q_ONE).
    let mut e: u64 = 0;
    let mut mw: u128 = ratio;
    while mw >= 8589934592
        invariant
            Q_ONE <= mw,
            norm_e(ratio as int) == e + norm_e(mw as int),
            norm_m(ratio as int) == norm_m(mw as int),
            0 <= norm_e(ratio as int) <= 63,
            e <= 63,
        decreases mw,
    {
        proof {
            lemma_norm_e_nonneg((mw as int) / 2);
        }
        mw = mw / 2;
        e = e + 1;
    }
    let mut m: u64 = mw as u64;
    let mut frac: u64 = 0;
    let mut i: usize = 0;
    proof {
        lemma2_to64();
        assert((0int) * pow2(32) == 0) by (nonlinear_arith);
    }
    // Extract 32 fractional bits of log2 by repeated squaring.
    while i < 32
        invariant
            i <= 32,
            Q_ONE <= m < 2 * Q_ONE,
            frac < pow2(i as nat),
            frac_bits(norm_m(ratio as int), 32) == frac * pow2((32 - i) as nat) + frac_bits(
                m as int,
                (32 - i) as nat,
            ),
        decreases 32 - i,
    {
        let ghost k: nat = (32 - i) as nat;
        let ghost f0: int = frac as int;
        let ghost m0: int = m as int;
        proof {
            lemma2_to64();
            assert((m as int) * (m as int) >= 18446744073709551616int) by (nonlinear_arith)
                requires
                    m as int >= 4294967296,
            ;
            assert((m as int) * (m as int) < 73786976294838206464int) by (nonlinear_arith)
                requires
                    0 <= m as int,
                    (m as int) < 8589934592,
            ;
        }
        let mq: u128 = (m as u128) * (m as u128) / (Q_ONE as u128);
        proof {
            lemma_div_is_ordered(
                18446744073709551616int,
                (m as int) * (m as int),
                Q_ONE as int,
            );
            lemma_div_is_ordered(
                (m as int) * (m as int),
                73786976294838206463int,
                Q_ONE as int,
            );
            assert(18446744073709551616int / (Q_ONE as int) == 4294967296);
            assert(73786976294838206463int / (Q_ONE as int) == 17179869183);
            assert(Q_ONE <= mq <= 17179869183);
            assert(pow2(i as nat) <= pow2(31)) by {
                if (i as nat) < 31 {
                    lemma_pow2_strictly_increases(i as nat, 31);
                }
            }
        }
        if mq >= 8589934592 {
            frac = frac * 2 + 1;
            m = (mq / 2) as u64;
        } else {
            frac = frac * 2;
            m = mq as u64;
        }
        i = i + 1;
        proof {
            assert(fstep_b(m0) == if mq >= 8589934592 { 1int } else { 0int });
            assert(m as int == fstep_m(m0));
            lemma_pow2_unfold(k);
            let halfpow = pow2((k - 1) as nat) as int;
            assert(frac_bits(m0, k) == fstep_b(m0) * halfpow + frac_bits(m as int, (k - 1) as nat));
            assert((2 * f0 + fstep_b(m0)) * halfpow == f0 * (2 * halfpow) + fstep_b(m0) * halfpow)
                by (nonlinear_arith);
            lemma_pow2_unfold(i as nat);
        }
    }
    proof {
        lemma2_to64();
        assert((frac as int) * pow2(0) == frac as int) by (nonlinear_arith)
            requires
                pow2(0) == 1,
        ;
        assert(frac == frac_bits(norm_m(ratio as int), 32));
        assert((e as int) * (Q_ONE as int) <= 270582939648int) by (nonlinear_arith)
            requires
                0 <= e as int,
                e as int <= 63,
                Q_ONE as int == 4294967296,
        ;
    }
    let lg: u64 = e * Q_ONE + frac;
    proof {
        assert(lg == log2_q(ratio as int));
        assert(lg <= 274877906943);
        assert((lg as int) * (LN2_Q as int) <= 818323753064710662153int) by (nonlinear_arith)
            requires
                0 <= lg as int,
                lg as int <= 274877906943,
                LN2_Q as int == 2977044471,
        ;
        lemma_div_is_ordered(
            (lg as int) * (LN2_Q as int),
            818323753064710662153int,
            Q_ONE as int,
        );
        assert(818323753064710662153int / (Q_ONE as int) == 190530846143);
    }
    let ln_v: u64 = ((lg as u128) * (LN2_Q as u128) / (Q_ONE as u128)) as u64;
    proof {
        assert(ln_v == ln_q(ratio as int));
        assert(ln_v <= 190530846143);
        assert((ln_v as int) * (ln_v as int) <= 36302003331967537976449int) by (nonlinear_arith)
            requires
                0 <= ln_v as int,
                ln_v as int <= 190530846143,
        ;
        lemma_div_is_ordered(
            (ln_v as int) * (ln_v as int),
            36302003331967537976449int,
            Q_ONE as int,
        );
        assert(36302003331967537976449int / (Q_ONE as int) == 8452218801706);
    }
    let t: u64 = ((ln_v as u128) * (ln_v as u128) / (Q_ONE as u128)) as u64;
    proof {
        assert(t == term_q(h as int, l as int));
    }
    t
}

} // verus!
