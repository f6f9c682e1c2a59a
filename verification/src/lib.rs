//! Balances a test suite across parallel CI workers using historical
//! per-file timing data.
//!
//! The library has two verified components: a tolerant, line-oriented report
//! parser that accumulates per-file durations, and a deterministic greedy
//! (longest-processing-time-first) balancer that partitions the records into
//! a fixed number of buckets while keeping the largest bucket small.
//! Durations are fixed-point integers in whole microseconds; the surrounding
//! command-line program converts at its own boundary.

pub mod coverage;
pub mod opt;
pub mod text;
pub mod timings;
