//! Core of a sampling profiler: a time-bucketed stack-aggregation engine.
//!
//! The library folds captured stack traces into per-path, per-time-bucket
//! counters, filters them by idle/GIL/thread policy, drives the per-tick
//! decisions of a drift-corrected sampling loop, and serializes the counters
//! to a lossless raw snapshot that can be reloaded and re-filtered over an
//! arbitrary time window.

pub mod flamegraph;
pub mod idle_list;
pub mod raw;
pub mod scheduler;
pub mod speedscope;
pub mod stack_trace;
pub mod text;
pub mod trace_filter;
