//! Strung: string extraction from binary data, with junk filtering,
//! significance features, secret detection and result aggregation.

pub mod text;
pub mod scan;
pub mod digram;
pub mod config;
pub mod filter;
pub mod pattern;
pub mod secret;
pub mod score;
pub mod process;
pub mod tally;
pub mod order;
pub mod regions;
pub mod entropy;
pub mod style;
pub mod format;
