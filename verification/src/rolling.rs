use vstd::prelude::*;
use crate::candle::Candle;
use crate::vol::{estimate_q, estimate_volatility, MAX_WINDOW};

verus! {

/// One point of the rolling series.
pub struct VolatilityPoint {
    /// Timestamp of the last (most recent) candle of the window, in
    /// milliseconds since the epoch: the estimate's "as-of" time.
    pub start_ms: u64,
    /// Annualized Parkinson volatility of the window, in Q32.32.
    pub vol_q32: u64,
}

/// Rolling Parkinson volatility over every run of `window_size` consecutive
/// candles, stride one.
///
/// Fewer candles than `window_size` is not an error: there is no valid
/// window, so the series is empty.  Otherwise there is one point per window
/// position, in input order, annotated with the window's last timestamp.
pub fn rolling_volatility(candles: &Vec<Candle>, window_size: usize) -> (out: Vec<
    VolatilityPoint,
>)
    requires
        1 <= window_size <= MAX_WINDOW,
        forall|i: int| 0 <= i < candles@.len() ==> candles@[i].range_ok(),
    ensures
        candles@.len() < window_size ==> out@.len() == 0,
        candles@.len() >= window_size ==> out@.len() == candles@.len() - window_size + 1,
        forall|j: int|
            0 <= j < out@.len() ==> (#[trigger] out@[j]).start_ms == candles@[j + window_size
                - 1].start_ms,
        forall|j: int|
            0 <= j < out@.len() ==> (#[trigger] out@[j]).vol_q32 == estimate_q(
                candles@.subrange(j, j + window_size as int),
            ),
{
    let mut out: Vec<VolatilityPoint> = Vec::new();
    let n = candles.len();
    if n < window_size {
        return out;
    }
    let count = n - window_size + 1;
    let mut k: usize = 0;
    while k < count
        invariant
            1 <= window_size <= MAX_WINDOW,
            n == candles@.len(),
            n >= window_size,
            count == n - window_size + 1,
            k <= count,
            forall|i: int| 0 <= i < candles@.len() ==> candles@[i].range_ok(),
            out@.len() == k,
            forall|j: int|
                0 <= j < k ==> (#[trigger] out@[j]).start_ms == candles@[j + window_size
                    - 1].start_ms,
            forall|j: int|
                0 <= j < k ==> (#[trigger] out@[j]).vol_q32 == estimate_q(
                    candles@.subrange(j, j + window_size as int),
                ),
        decreases count - k,
    {
        let w = vstd::slice::slice_subrange(candles.as_slice(), k, k + window_size);
        let v = estimate_volatility(w);
        let last = vstd::slice::slice_index_get(candles.as_slice(), k + window_size - 1);
        out.push(VolatilityPoint { start_ms: last.start_ms, vol_q32: v });
        k = k + 1;
    }
    out
}

} // verus!
