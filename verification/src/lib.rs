//! Rolling Parkinson volatility over OHLC candles.
//!
//! Prices are held as integers scaled by `1e8` and volatilities as Q32.32
//! fixed-point numbers, so the whole computation is exact integer
//! arithmetic with a proved contract at every step.

pub mod candle;
pub mod decode;
pub mod fixed;
pub mod parse;
pub mod rolling;
pub mod vol;
