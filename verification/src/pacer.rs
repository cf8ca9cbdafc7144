//! Rate pacing: converts a target aggregate request rate into a per-worker
//! minimum interval between dispatches.
//!
//! With `worker_count` workers sharing an aggregate target of `rate`
//! requests per second, each worker must leave at least
//! `worker_count / rate` seconds between its own dispatch starts. Pacing
//! only delays dispatch; it never raises concurrency, so when request
//! latency exceeds the interval the achieved rate falls below the target.

use vstd::prelude::*;

verus! {

/// Per-worker minimum interval between dispatch starts, in nanoseconds:
/// `worker_count / rate` seconds, rounded down.
pub open spec fn pacing_interval_spec(worker_count: int, rate: int) -> int
    recommends
        rate >= 1,
{
    worker_count * 1_000_000_000 / rate
}

/// Computes the per-worker pacing interval in nanoseconds.
pub fn pacing_interval_ns(worker_count: usize, rate: u64) -> (iv: u64)
    requires
        1 <= rate,
        worker_count <= 0xffff_ffff,
    ensures
        iv == pacing_interval_spec(worker_count as int, rate as int),
{
    ((worker_count as u64) * 1_000_000_000) / rate
}

/// How long a worker must still wait before its next dispatch: zero once
/// `interval` nanoseconds have passed since its previous dispatch at
/// `last_ns`, the remainder of the interval otherwise.
pub fn pacing_delay_ns(last_ns: u64, interval_ns: u64, now_ns: u64) -> (d: u64)
    requires
        last_ns <= now_ns,
    ensures
        d == if now_ns - last_ns >= interval_ns {
            0int
        } else {
            last_ns + interval_ns - now_ns
        },
        d == 0 <==> now_ns - last_ns >= interval_ns,
{
    let elapsed = now_ns - last_ns;
    if elapsed >= interval_ns {
        0
    } else {
        interval_ns - elapsed
    }
}

} // verus!
