//! A TCP reachability and latency probe, without the sockets.
//!
//! The crate holds everything the probe decides and computes: how the
//! command line is read, what one finished connection attempt does to the
//! running statistics, whether another attempt follows, and what the
//! console lines say. Opening connections, sleeping and printing are left
//! to the program around it.
//!
//! Elapsed times are whole microseconds throughout, so every statistic is
//! exact integer arithmetic and prints to three decimals of a millisecond
//! without loss.

pub mod decimal;
pub mod params;
pub mod report;
pub mod rounding;
pub mod runner;
pub mod stats;
pub mod wide;
