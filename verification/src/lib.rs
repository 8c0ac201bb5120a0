//! CloudMon metrics: turns raw time-series metrics into boolean flags and
//! weighted per-service health signals, and drives an incident reporter
//! against a status dashboard.
//!
//! Sample values and thresholds are carried as `u32` keys under an
//! order- and equality-preserving encoding chosen by the caller, so that
//! every comparison the flag engine makes is an exact integer comparison.

pub mod api;
pub mod common;
pub mod config;
pub mod graphite;
pub mod reporter;
pub mod sd;
pub mod text;
pub mod types;

