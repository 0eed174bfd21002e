//! A personal ledger engine: dated, currency-tagged, signed amounts stored in
//! flat text files, read back for listing, validation, conversion totals and
//! monthly time series, with an on-disk currency-rate cache.

pub mod digits;
pub mod dec;
pub mod date;
pub mod db;
pub mod agg;
pub mod plot;
pub mod reader;
pub mod cache;
pub mod net;
