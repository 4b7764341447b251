//! Core of a serial-monitor: turns a raw byte stream into named numeric
//! channels, keeps a bounded rolling window per channel for charting, and
//! flags statistically anomalous readings per channel.
//!
//! Numeric readings are held as [`fixed::Fixed`], a signed fixed-point
//! number with three fractional decimal digits, so that every statistic the
//! library computes is exact integer arithmetic.

pub mod fixed;
pub mod numerals;
pub mod text;
pub mod classify;
pub mod config;
pub mod framer;
pub mod detector;
pub mod math;
pub mod registry;
pub mod session;
