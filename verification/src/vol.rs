use vstd::prelude::*;
use crate::candle::Candle;
use crate::fixed::{
    fstep_b, fstep_m, frac_bits, is_isqrt, isqrt_u128, lemma_isqrt_is, ln_q, log2_q,
    norm_e, norm_m, ratio_q, spec_isqrt, term_for, term_q, LN2_Q, Q_ONE, SQRT_YEAR_Q,
};
use vstd::arithmetic::div_mod::{
    lemma_div_by_multiple, lemma_div_denominator, lemma_div_is_ordered,
    lemma_div_is_ordered_by_denominator, lemma_div_multiples_vanish, lemma_div_of0,
};
use vstd::arithmetic::power2::pow2;
use vstd::seq_lib::{commutative_foldr, lemma_fold_right_permutation, to_multiset_len};

verus! {

/// Largest window length the estimator accepts.
pub const MAX_WINDOW: usize = 1048576;

/// Folding one candle's Parkinson term onto an accumulator.
pub open spec fn term_acc() -> spec_fn(Candle, int) -> int {
    |c: Candle, acc: int| term_q(c.high_e8 as int, c.low_e8 as int) + acc
}

/// Sum of the Parkinson terms of a window.
pub open spec fn sum_terms(w: Seq<Candle>) -> int {
    w.fold_right(term_acc(), 0)
}

/// The annualized Parkinson volatility of a window, in Q32.32:
/// `sqrt(sum / (4 * N * ln 2)) * sqrt(365.25)`.
pub open spec fn estimate_q(w: Seq<Candle>) -> int
    recommends
        w.len() >= 1,
{
    let s = sum_terms(w);
    let denom = 4 * (w.len() as int) * (LN2_Q as int);
    let var_q = (s * (Q_ONE as int)) / denom;
    (spec_isqrt(var_q * (Q_ONE as int)) * (SQRT_YEAR_Q as int)) / (Q_ONE as int)
}

/// Folding from any accumulator shifts the sum by that accumulator.
proof fn lemma_fold_shift(w: Seq<Candle>, v: int)
    ensures
        w.fold_right(term_acc(), v) == sum_terms(w) + v,
    decreases w.len(),
{
    let f = term_acc();
    if w.len() > 0 {
        lemma_fold_shift(w.drop_last(), f(w.last(), v));
        lemma_fold_shift(w.drop_last(), f(w.last(), 0));
    }
}

/// Taking one more candle adds exactly its term to the sum.
proof fn lemma_sum_take_step(w: Seq<Candle>, i: int)
    requires
        0 <= i < w.len(),
    ensures
        sum_terms(w.take(i + 1)) == sum_terms(w.take(i)) + term_q(
            w[i].high_e8 as int,
            w[i].low_e8 as int,
        ),
{
    let f = term_acc();
    let t1 = w.take(i + 1);
    assert(t1.drop_last() =~= w.take(i));
    assert(t1.last() == w[i]);
    assert(sum_terms(t1) == t1.drop_last().fold_right(f, f(w[i], 0)));
    lemma_fold_shift(w.take(i), f(w[i], 0));
}

/// Annualized Parkinson volatility of one window, exactly [`estimate_q`].
pub fn estimate_volatility(window: &[Candle]) -> (vol: u64)
    requires
        1 <= window@.len() <= MAX_WINDOW,
        forall|i: int| 0 <= i < window@.len() ==> window@[i].range_ok(),
    ensures
        vol == estimate_q(window@),
{
    let n: usize = window.len();
    let mut sum: u64 = 0;
    let mut i: usize = 0;
    proof {
        assert(window@.take(0) =~= Seq::<Candle>::empty());
    }
    while i < n
        invariant
            i <= n,
            n == window@.len(),
            1 <= n <= 1048576,
            forall|j: int| 0 <= j < window@.len() ==> window@[j].range_ok(),
            sum as int == sum_terms(window@.take(i as int)),
            sum as int <= (i as int) * 8452218801796,
        decreases n - i,
    {
        let c = vstd::slice::slice_index_get(window, i);
        let t = term_for(c.high_e8, c.low_e8);
        proof {
            lemma_sum_take_step(window@, i as int);
        }
        sum = sum + t;
        i = i + 1;
    }
    proof {
        assert(window@.take(n as int) =~= window@);
        assert(4 * (n as int) * (LN2_Q as int) >= 11908177884int) by (nonlinear_arith)
            requires
                1 <= n as int,
                LN2_Q as int == 2977044471,
        ;
        assert(4 * (n as int) * (LN2_Q as int) <= 12486629532893184int) by (nonlinear_arith)
            requires
                n as int <= 1048576,
                LN2_Q as int == 2977044471,
        ;
    }
    let denom: u64 = 4 * (n as u64) * LN2_Q;
    proof {
        assert((sum as int) * (Q_ONE as int) < 79228162514264337593543950336int)
            by (nonlinear_arith)
            requires
                0 <= sum as int,
                (sum as int) < 18446744073709551616int,
                Q_ONE as int == 4294967296,
        ;
        lemma_div_is_ordered_by_denominator(
            (sum as int) * (Q_ONE as int),
            11908177884,
            denom as int,
        );
        lemma_div_is_ordered(
            (sum as int) * (Q_ONE as int),
            79228162514264337593543950335int,
            11908177884,
        );
        assert(79228162514264337593543950335int / 11908177884int == 6653256550753784288);
    }
    let varq: u128 = (sum as u128) * (Q_ONE as u128) / (denom as u128);
    proof {
        assert(varq <= 6653256550753784288);
        assert((varq as int) * (Q_ONE as int) < 340282366920938463463374607431768211456int)
            by (nonlinear_arith)
            requires
                0 <= varq as int,
                varq as int <= 6653256550753784288,
                Q_ONE as int == 4294967296,
        ;
    }
    let raw: u64 = isqrt_u128(varq * (Q_ONE as u128));
    proof {
        lemma_isqrt_is((varq * (Q_ONE as u128)) as int, raw as int);
        assert((varq as int) * (Q_ONE as int) < 39614081257132168796771975168int)
            by (nonlinear_arith)
            requires
                0 <= varq as int,
                varq as int <= 6653256550753784288,
                Q_ONE as int == 4294967296,
        ;
        assert((raw as int) < 281474976710656int) by (nonlinear_arith)
            requires
                0 <= raw as int,
                (raw as int) * (raw as int) < 39614081257132168796771975168int,
        ;
        assert((raw as int) * (SQRT_YEAR_Q as int) <= 23104403758400736317145088int)
            by (nonlinear_arith)
            requires
                0 <= raw as int,
                ((raw as int)) < 281474976710656int,
                SQRT_YEAR_Q as int == 82083331273,
        ;
        lemma_div_is_ordered(
            (raw as int) * (SQRT_YEAR_Q as int),
            23104403758400736317145088int,
            Q_ONE as int,
        );
        assert(23104403758400736317145088int / (Q_ONE as int) == 5379413198307328);
    }
    let vol: u64 = ((raw as u128) * (SQRT_YEAR_Q as u128) / (Q_ONE as u128)) as u64;
    proof {
        assert(vol == estimate_q(window@));
    }
    vol
}

/// The Parkinson term of a candle with no range is exactly zero.
proof fn lemma_term_flat(h: int)
    requires
        h > 0,
    ensures
        term_q(h, h) == 0,
{
    lemma_div_multiples_vanish(Q_ONE as int, h);
    assert(ratio_q(h, h) == Q_ONE as int);
    lemma_frac_zero(32);
    assert(norm_e(Q_ONE as int) == 0);
    assert(norm_m(Q_ONE as int) == Q_ONE as int);
    assert(0int * (Q_ONE as int) == 0) by (nonlinear_arith);
    assert(log2_q(Q_ONE as int) == 0);
    assert(0int * (LN2_Q as int) == 0) by (nonlinear_arith);
    lemma_div_of0(Q_ONE as int);
    assert(ln_q(Q_ONE as int) == 0);
    assert(term_q(h, h) == (0int * 0int) / (Q_ONE as int));
    assert(term_q(h, h) == 0);
}

/// The fractional log2 bits of a mantissa of exactly one are all zero.
proof fn lemma_frac_zero(k: nat)
    ensures
        frac_bits(Q_ONE as int, k) == 0,
    decreases k,
{
    if k > 0 {
        lemma_div_by_multiple(Q_ONE as int, Q_ONE as int);
        assert(fstep_m(Q_ONE as int) == Q_ONE as int);
        assert(fstep_b(Q_ONE as int) == 0);
        lemma_frac_zero((k - 1) as nat);
        assert(0int * pow2((k - 1) as nat) == 0) by (nonlinear_arith);
    }
}

/// A window whose candles all have zero terms sums to zero.
proof fn lemma_sum_zero_terms(w: Seq<Candle>)
    requires
        forall|i: int| 0 <= i < w.len() ==> term_q(w[i].high_e8 as int, w[i].low_e8 as int) == 0,
    ensures
        sum_terms(w) == 0,
    decreases w.len(),
{
    let f = term_acc();
    if w.len() > 0 {
        lemma_sum_zero_terms(w.drop_last());
        lemma_fold_shift(w.drop_last(), f(w.last(), 0));
    }
}

/// If every candle in a window has `high == low`, the estimated volatility
/// is exactly zero.
pub proof fn lemma_flat_window_zero(w: Seq<Candle>)
    requires
        w.len() >= 1,
        forall|i: int| 0 <= i < w.len() ==> w[i].range_ok(),
        forall|i: int| 0 <= i < w.len() ==> w[i].high_e8 == w[i].low_e8,
    ensures
        estimate_q(w) == 0,
{
    assert forall|i: int| 0 <= i < w.len() implies term_q(
        w[i].high_e8 as int,
        w[i].low_e8 as int,
    ) == 0 by {
        lemma_term_flat(w[i].high_e8 as int);
    }
    lemma_sum_zero_terms(w);
    assert(4 * (w.len() as int) * (LN2_Q as int) >= 11908177884int) by (nonlinear_arith)
        requires
            1 <= w.len() as int,
            LN2_Q as int == 2977044471,
    ;
    assert(0int * (Q_ONE as int) == 0) by (nonlinear_arith);
    lemma_div_of0(4 * (w.len() as int) * (LN2_Q as int));
    assert(is_isqrt(0, 0));
    lemma_isqrt_is(0, 0);
    assert(0int * (SQRT_YEAR_Q as int) == 0) by (nonlinear_arith);
    lemma_div_of0(Q_ONE as int);
}

/// Permuting the candles inside a window does not change the estimated
/// volatility: the estimate is a function of the multiset of candles.
pub proof fn lemma_estimate_permutation_invariant(w1: Seq<Candle>, w2: Seq<Candle>)
    requires
        w1.to_multiset() == w2.to_multiset(),
    ensures
        estimate_q(w1) == estimate_q(w2),
{
    to_multiset_len(w1);
    to_multiset_len(w2);
    let f = term_acc();
    assert(commutative_foldr(f)) by {
        assert forall|x: Candle, y: Candle, v: int| #[trigger] f(x, f(y, v)) == f(
            y,
            f(x, v),
        ) by {
        }
    }
    lemma_fold_right_permutation(w1, w2, f, 0);
}

/// A candle with every price multiplied by `k`.
pub open spec fn scale_candle(c: Candle, k: int) -> Candle {
    Candle {
        start_ms: c.start_ms,
        open_e8: (k * c.open_e8) as u64,
        high_e8: (k * c.high_e8) as u64,
        low_e8: (k * c.low_e8) as u64,
        close_e8: (k * c.close_e8) as u64,
        volume: c.volume,
        turnover: c.turnover,
    }
}

/// A window with every price multiplied by `k`.
pub open spec fn scale_window(w: Seq<Candle>, k: int) -> Seq<Candle> {
    w.map(|i: int, c: Candle| scale_candle(c, k))
}

/// The `k`-scaled prices of every candle of the window still fit in `u64`.
pub open spec fn scale_fits(w: Seq<Candle>, k: int) -> bool {
    forall|i: int| 0 <= i < w.len() ==> k * w[i].high_e8 <= u64::MAX
}

/// Scaling both prices of a ratio by one positive constant cancels out.
proof fn lemma_ratio_scale(h: int, l: int, k: int)
    requires
        0 < l <= h,
        k >= 1,
    ensures
        ratio_q(k * h, k * l) == ratio_q(h, l),
{
    assert((k * h) * (Q_ONE as int) == k * (h * (Q_ONE as int))) by (nonlinear_arith);
    assert(0 <= k * (h * (Q_ONE as int))) by (nonlinear_arith)
        requires
            k >= 1,
            h >= 0,
            Q_ONE as int >= 0,
    ;
    lemma_div_denominator(k * (h * (Q_ONE as int)), k, l);
    lemma_div_multiples_vanish(h * (Q_ONE as int), k);
}

/// Sums of two windows with pointwise-equal terms are equal.
proof fn lemma_sum_pointwise(w1: Seq<Candle>, w2: Seq<Candle>)
    requires
        w1.len() == w2.len(),
        forall|i: int|
            0 <= i < w1.len() ==> term_q(w1[i].high_e8 as int, w1[i].low_e8 as int) == term_q(
                w2[i].high_e8 as int,
                w2[i].low_e8 as int,
            ),
    ensures
        sum_terms(w1) == sum_terms(w2),
    decreases w1.len(),
{
    let f = term_acc();
    if w1.len() > 0 {
        lemma_sum_pointwise(w1.drop_last(), w2.drop_last());
        lemma_fold_shift(w1.drop_last(), f(w1.last(), 0));
        lemma_fold_shift(w2.drop_last(), f(w2.last(), 0));
    }
}

/// Scaling all prices in a window by one positive integer constant does not
/// change the estimated volatility: the log-ratio is scale-invariant.
pub proof fn lemma_estimate_scale_invariant(w: Seq<Candle>, k: int)
    requires
        k >= 1,
        forall|i: int| 0 <= i < w.len() ==> w[i].range_ok(),
        scale_fits(w, k),
    ensures
        estimate_q(scale_window(w, k)) == estimate_q(w),
{
    let ws = scale_window(w, k);
    assert(ws.len() == w.len());
    assert forall|i: int| 0 <= i < ws.len() implies term_q(
        ws[i].high_e8 as int,
        ws[i].low_e8 as int,
    ) == term_q(w[i].high_e8 as int, w[i].low_e8 as int) by {
        let c = w[i];
        assert(k * c.high_e8 <= u64::MAX);
        assert(k * c.low_e8 <= k * c.high_e8) by (nonlinear_arith)
            requires
                k >= 1,
                c.low_e8 <= c.high_e8,
        ;
        assert(k * c.low_e8 >= 1) by (nonlinear_arith)
            requires
                k >= 1,
                c.low_e8 >= 1,
        ;
        assert(ws[i].high_e8 == k * c.high_e8);
        assert(ws[i].low_e8 == k * c.low_e8);
        lemma_ratio_scale(c.high_e8 as int, c.low_e8 as int, k);
    }
    lemma_sum_pointwise(ws, w);
}

} // verus!
