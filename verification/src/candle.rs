use vstd::prelude::*;

verus! {

/// One OHLC observation.
///
/// Prices are integers scaled by `1e8` (so `110.5` is stored as
/// `11050000000`), which keeps every computation over them exact.
#[derive(Debug, Clone, PartialEq, Eq)]
pub struct Candle {
    /// Start of the bucket, in milliseconds since the epoch.
    pub start_ms: u64,
    /// Opening price, in units of `1e-8`.
    pub open_e8: u64,
    /// Highest price of the bucket, in units of `1e-8`.
    pub high_e8: u64,
    /// Lowest price of the bucket, in units of `1e-8`.
    pub low_e8: u64,
    /// Closing price, in units of `1e-8`.
    pub close_e8: u64,
    /// Traded volume, carried through as received.
    pub volume: String,
    /// Traded turnover, carried through as received.
    pub turnover: String,
}

impl Candle {
    /// Price invariant: a positive range with open and close inside it.
    pub open spec fn valid(self) -> bool {
        &&& self.range_ok()
        &&& self.low_e8 <= self.open_e8 <= self.high_e8
        &&& self.low_e8 <= self.close_e8 <= self.high_e8
    }

    /// The part of the invariant the volatility estimate rests on: a
    /// positive low no greater than the high.
    pub open spec fn range_ok(self) -> bool {
        0 < self.low_e8 <= self.high_e8
    }
}

} // verus!
