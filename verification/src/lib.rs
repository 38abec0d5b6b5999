//! Benchmark-execution harness core: metric assembly, the statsd-style wire
//! protocol, resource-usage deltas, exit-code policy, setup retries,
//! profiler-output parsing, and JSON emission. The process plumbing (UDP,
//! subprocesses, timers) lives outside the library and hands it plain values.

pub mod buffer;
pub mod bytes;
pub mod cachegrind;
pub mod config;
pub mod error;
pub mod exit;
pub mod iterate;
pub mod json;
pub mod metrics;
pub mod num;
pub mod report;
pub mod run;
pub mod setup;
pub mod statsd;
