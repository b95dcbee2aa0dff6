//! Candle aggregation and resampling for trade streams, and the state of the
//! file-backed stores that hold the streams.

pub mod aggregate;
pub mod binary32;
pub mod candle;
pub mod candle_order;
pub mod csv;
pub mod decimal;
pub mod ranges;
pub mod rebin;
pub mod series;
pub mod state;
pub mod store;
pub mod update;
