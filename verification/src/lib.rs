//! Core engine of an HTTP load-testing client.
//!
//! The crate is split along the line between decision logic and I/O:
//! everything here is pure logic — the workload scheduler (worker pool,
//! stop conditions, rate pacing) and the result aggregator (latency,
//! throughput and histogram statistics). The surrounding program supplies
//! the clock readings and performs the actual requests, feeding timestamps
//! and outcomes back into these verified state machines and functions.

pub mod outcome;
pub mod pacer;
pub mod report;
pub mod scheduler;
