//! The result of one request attempt: a timed success or a timed failure.
//!
//! Timestamps are nanoseconds on the process-wide monotonic clock; the
//! surrounding program converts its clock readings to this form before
//! handing outcomes to the aggregator.

use vstd::prelude::*;

verus! {

/// Why a request attempt failed.
#[derive(Clone, Copy, Debug, PartialEq, Eq, Structural)]
pub enum ErrorKind {
    /// Connection or other transport failure.
    Network,
    /// The request did not complete in time.
    Timeout,
    /// The response body could not be read.
    Decode,
}

/// A successful request attempt with its timing, protocol status and
/// response body length.
#[derive(Clone, Copy, Debug, PartialEq, Eq, Structural)]
pub struct RequestResult {
    /// Dispatch instant, nanoseconds on the monotonic clock.
    pub start_ns: u64,
    /// Completion instant, nanoseconds on the monotonic clock.
    pub end_ns: u64,
    /// Protocol status code of the response.
    pub status: u16,
    /// Length of the response body in bytes.
    pub len_bytes: u64,
}

impl RequestResult {
    /// The attempt ends no earlier than it starts.
    pub open spec fn wf(self) -> bool {
        self.start_ns <= self.end_ns
    }

    /// Latency of the attempt in nanoseconds.
    pub fn duration(&self) -> (d: u64)
        requires
            self.wf(),
        ensures
            d == self.end_ns - self.start_ns,
    {
        self.end_ns - self.start_ns
    }
}

/// One request attempt: exactly one of the success record or the error
/// class is populated, never both.
#[derive(Clone, Copy, Debug, PartialEq, Eq, Structural)]
pub enum Outcome {
    Success(RequestResult),
    Failure { start_ns: u64, end_ns: u64, kind: ErrorKind },
}

impl Outcome {
    /// Every attempt ends no earlier than it starts.
    pub open spec fn wf(self) -> bool {
        match self {
            Outcome::Success(r) => r.wf(),
            Outcome::Failure { start_ns, end_ns, .. } => start_ns <= end_ns,
        }
    }

    /// Whether the attempt succeeded.
    pub open spec fn is_success_spec(self) -> bool {
        self is Success
    }

    /// Whether the attempt succeeded.
    pub fn is_success(&self) -> (b: bool)
        ensures
            b == self.is_success_spec(),
    {
        matches!(self, Outcome::Success(_))
    }
}

} // verus!
