//! The workload scheduler: a fixed pool of workers driven through a
//! start → execute → report loop, bounded by a stop condition and paced by
//! an optional rate limit.
//!
//! The scheduler is the decision core only. The surrounding program owns
//! the clock and the network: it polls [`Scheduler::poll_worker`] with the
//! current monotonic time, performs the request when told to dispatch,
//! sleeps when told to wait, and reports completions through
//! [`Scheduler::finish_worker`]. All counting, budget reservation,
//! deadline checking and pacing decisions happen here, under `inv`.

use vstd::prelude::*;
use crate::pacer::{pacing_delay_ns, pacing_interval_ns, pacing_interval_spec};

verus! {

/// When workers must stop starting new requests.
#[derive(Clone, Copy, Debug, PartialEq, Eq, Structural)]
pub enum StopCondition {
    /// Stop once `total` requests have been started.
    Count { total: u64 },
    /// Stop new starts once `duration_ns` nanoseconds have elapsed since
    /// the run origin; in-flight requests are left to finish.
    Deadline { duration_ns: u64 },
    /// Both limits at once: a worker may start only while the budget is
    /// unspent and the deadline has not passed.
    Both { total: u64, duration_ns: u64 },
}

impl StopCondition {
    /// Whether a request budget applies.
    pub open spec fn has_count(self) -> bool {
        !(self is Deadline)
    }

    /// The request budget, where one applies.
    pub open spec fn count_total(self) -> u64 {
        match self {
            StopCondition::Count { total } => total,
            StopCondition::Both { total, .. } => total,
            StopCondition::Deadline { .. } => 0,
        }
    }

    /// Whether a deadline applies.
    pub open spec fn has_deadline(self) -> bool {
        !(self is Count)
    }

    /// The run duration limit, where one applies.
    pub open spec fn deadline_dur(self) -> u64 {
        match self {
            StopCondition::Deadline { duration_ns } => duration_ns,
            StopCondition::Both { duration_ns, .. } => duration_ns,
            StopCondition::Count { .. } => 0,
        }
    }
}

/// Immutable configuration for one run.
#[derive(Clone, Copy, Debug, PartialEq, Eq, Structural)]
pub struct WorkloadSpec {
    /// Number of concurrently active workers, at least one.
    pub worker_count: usize,
    /// When new starts are forbidden.
    pub stop: StopCondition,
    /// Optional aggregate requests-per-second ceiling.
    pub target_rate: Option<u64>,
}

impl WorkloadSpec {
    /// At least one worker; the worker count small enough that the pacing
    /// interval arithmetic stays inside `u64`; a configured rate is
    /// non-zero.
    pub open spec fn wf(self) -> bool {
        &&& 1 <= self.worker_count <= 0xffff_ffff
        &&& match self.target_rate {
            Some(q) => q >= 1,
            None => true,
        }
    }

    /// The per-worker pacing interval this configuration implies, if any.
    pub open spec fn interval_spec(self) -> Option<u64> {
        match self.target_rate {
            Some(q) => Some(pacing_interval_spec(self.worker_count as int, q as int) as u64),
            None => None,
        }
    }
}

/// What a worker is doing.
#[derive(Clone, Copy, Debug, PartialEq, Eq, Structural)]
pub enum WorkerPhase {
    /// Ready to be polled for its next step.
    Idle,
    /// A request is outstanding.
    InFlight,
    /// The worker has exited its loop and will start nothing more.
    Done,
}

/// One worker of the pool.
#[derive(Clone, Copy)]
pub struct WorkerState {
    pub phase: WorkerPhase,
    /// Instant of this worker's most recent dispatch; meaningful only
    /// after the first one.
    pub last_dispatch_ns: u64,
    /// Whether this worker has dispatched at least once.
    pub has_dispatched: bool,
    /// History of this worker's dispatch instants.
    pub times: Ghost<Seq<u64>>,
}

impl WorkerState {
    /// The dispatch history is consistent with the flat fields, stays
    /// inside the run's clock window, and respects the pacing interval.
    pub open spec fn wf(self, origin_ns: u64, clock_ns: u64, interval: Option<u64>) -> bool {
        &&& self.has_dispatched == (self.times@.len() > 0)
        &&& (self.has_dispatched ==> self.last_dispatch_ns == self.times@.last())
        &&& (forall|k: int| 0 <= k < self.times@.len() ==>
            origin_ns <= #[trigger] self.times@[k] <= clock_ns)
        &&& match interval {
            Some(iv) => forall|k: int| 0 <= k < self.times@.len() - 1 ==>
                #[trigger] self.times@[k] + iv <= self.times@[k + 1],
            None => true,
        }
    }
}

/// What the surrounding program must do next for a polled worker.
#[derive(Clone, Copy, Debug, PartialEq, Eq, Structural)]
pub enum Action {
    /// Start a request now.
    Dispatch,
    /// Sleep this many nanoseconds, then poll again.
    Wait(u64),
    /// The worker's loop is over; never poll it again.
    Exit,
}

/// Number of workers with a request outstanding.
pub open spec fn count_in_flight(ws: Seq<WorkerState>) -> int
    decreases ws.len(),
{
    if ws.len() == 0 {
        0
    } else {
        count_in_flight(ws.drop_last()) + if ws.last().phase is InFlight {
            1int
        } else {
            0int
        }
    }
}

proof fn lemma_count_in_flight_update(ws: Seq<WorkerState>, i: int, v: WorkerState)
    requires
        0 <= i < ws.len(),
    ensures
        count_in_flight(ws.update(i, v)) == count_in_flight(ws)
            - (if ws[i].phase is InFlight { 1int } else { 0int })
            + (if v.phase is InFlight { 1int } else { 0int }),
    decreases ws.len(),
{
    if i == ws.len() - 1 {
        assert(ws.update(i, v).drop_last() =~= ws.drop_last());
    } else {
        lemma_count_in_flight_update(ws.drop_last(), i, v);
        assert(ws.update(i, v).drop_last() =~= ws.drop_last().update(i, v));
    }
}

proof fn lemma_count_in_flight_bounds(ws: Seq<WorkerState>)
    ensures
        0 <= count_in_flight(ws) <= ws.len(),
    decreases ws.len(),
{
    if ws.len() > 0 {
        lemma_count_in_flight_bounds(ws.drop_last());
    }
}

/// Dispatches made so far over the whole pool.
pub open spec fn total_dispatched(ws: Seq<WorkerState>) -> int
    decreases ws.len(),
{
    if ws.len() == 0 {
        0
    } else {
        total_dispatched(ws.drop_last()) + ws.last().times@.len()
    }
}

proof fn lemma_total_dispatched_update(ws: Seq<WorkerState>, i: int, v: WorkerState)
    requires
        0 <= i < ws.len(),
    ensures
        total_dispatched(ws.update(i, v)) == total_dispatched(ws)
            - ws[i].times@.len() + v.times@.len(),
    decreases ws.len(),
{
    if i == ws.len() - 1 {
        assert(ws.update(i, v).drop_last() =~= ws.drop_last());
    } else {
        lemma_total_dispatched_update(ws.drop_last(), i, v);
        assert(ws.update(i, v).drop_last() =~= ws.drop_last().update(i, v));
    }
}

proof fn lemma_total_dispatched_empty(ws: Seq<WorkerState>)
    requires
        forall|j: int| 0 <= j < ws.len() ==> (#[trigger] ws[j]).times@.len() == 0,
    ensures
        total_dispatched(ws) == 0,
    decreases ws.len(),
{
    if ws.len() > 0 {
        assert(forall|j: int| 0 <= j < ws.drop_last().len() ==> ws.drop_last()[j] == ws[j]);
        lemma_total_dispatched_empty(ws.drop_last());
    }
}

proof fn lemma_total_dispatched_le(ws: Seq<WorkerState>, b: int)
    requires
        0 <= b,
        forall|j: int| 0 <= j < ws.len() ==> (#[trigger] ws[j]).times@.len() <= b,
    ensures
        total_dispatched(ws) <= ws.len() * b,
    decreases ws.len(),
{
    if ws.len() == 0 {
        assert(ws.len() * b == 0) by (nonlinear_arith)
            requires ws.len() == 0;
    } else {
        assert(forall|j: int| 0 <= j < ws.drop_last().len() ==> ws.drop_last()[j] == ws[j]);
        lemma_total_dispatched_le(ws.drop_last(), b);
        assert(ws.len() * b == (ws.len() - 1) * b + b) by (nonlinear_arith);
    }
}

proof fn lemma_count_in_flight_zero(ws: Seq<WorkerState>)
    requires
        forall|j: int| 0 <= j < ws.len() ==> !((#[trigger] ws[j]).phase is InFlight),
    ensures
        count_in_flight(ws) == 0,
    decreases ws.len(),
{
    if ws.len() > 0 {
        assert(forall|j: int| 0 <= j < ws.drop_last().len() ==> ws.drop_last()[j] == ws[j]);
        lemma_count_in_flight_zero(ws.drop_last());
    }
}

/// The scheduling engine for one run.
pub struct Scheduler {
    /// The run's configuration.
    pub workload: WorkloadSpec,
    /// Monotonic instant at which the run began.
    pub origin_ns: u64,
    /// High-water mark of the clock readings seen so far.
    pub clock_ns: u64,
    /// Per-worker pacing interval, fixed at construction.
    pub pace_ns: Option<u64>,
    /// Unspent request budget, where the stop condition has one.
    pub remaining: u64,
    /// Requests started so far.
    pub started: u64,
    /// Requests finished so far.
    pub finished: u64,
    /// Requests currently outstanding.
    pub in_flight: u64,
    /// The worker pool.
    pub workers: Vec<WorkerState>,
    /// History of all dispatch instants, across workers.
    pub dispatches: Ghost<Seq<u64>>,
}

impl Scheduler {
    /// The state-machine invariant: counters agree with the pool, the
    /// budget accounts exactly for every start, every dispatch respected
    /// the deadline, and every worker's history respects the pacing
    /// interval.
    pub open spec fn inv(self) -> bool {
        &&& self.workload.wf()
        &&& self.workers@.len() == self.workload.worker_count
        &&& self.origin_ns <= self.clock_ns
        &&& self.pace_ns == self.workload.interval_spec()
        &&& self.in_flight == count_in_flight(self.workers@)
        &&& self.started == self.finished + self.in_flight
        &&& self.dispatches@.len() == self.started
        &&& total_dispatched(self.workers@) == self.started
        &&& (self.workload.stop.has_count() ==> {
            &&& self.remaining <= self.workload.stop.count_total()
            &&& self.started == self.workload.stop.count_total() - self.remaining
        })
        &&& (self.workload.stop is Count ==> (forall|j: int|
            0 <= j < self.workers@.len() && (#[trigger] self.workers@[j]).phase is Done
                ==> self.remaining == 0))
        &&& (self.workload.stop.has_deadline() ==> (forall|k: int|
            0 <= k < self.dispatches@.len()
                ==> #[trigger] self.dispatches@[k] - self.origin_ns
                    < self.workload.stop.deadline_dur()))
        &&& (forall|k: int| 0 <= k < self.dispatches@.len()
            ==> self.origin_ns <= #[trigger] self.dispatches@[k] <= self.clock_ns)
        &&& (forall|j: int| 0 <= j < self.workers@.len()
            ==> (#[trigger] self.workers@[j]).wf(self.origin_ns, self.clock_ns, self.pace_ns))
    }

    /// All workers have exited their loops.
    pub open spec fn all_done(self) -> bool {
        forall|j: int| 0 <= j < self.workers@.len()
            ==> (#[trigger] self.workers@[j]).phase is Done
    }

    /// Whether the stop condition permits a new start at `now_ns`.
    pub open spec fn may_start(self, now_ns: u64) -> bool {
        &&& (self.workload.stop.has_count() ==> self.remaining > 0)
        &&& (self.workload.stop.has_deadline()
            ==> now_ns - self.origin_ns < self.workload.stop.deadline_dur())
    }

    /// Builds the scheduler for one run, with every worker idle and the
    /// full budget unspent.
    pub fn new(workload: WorkloadSpec, origin_ns: u64) -> (s: Scheduler)
        requires
            workload.wf(),
        ensures
            s.inv(),
            s.workload == workload,
            s.origin_ns == origin_ns,
            s.clock_ns == origin_ns,
            s.started == 0,
            s.finished == 0,
            s.in_flight == 0,
            s.dispatches@ == Seq::<u64>::empty(),
            s.workload.stop.has_count() ==> s.remaining == s.workload.stop.count_total(),
            forall|j: int| 0 <= j < s.workers@.len()
                ==> (#[trigger] s.workers@[j]).phase is Idle,
    {
        let pace_ns = match workload.target_rate {
            Some(q) => Some(pacing_interval_ns(workload.worker_count, q)),
            None => None,
        };
        let remaining = match workload.stop {
            StopCondition::Count { total } => total,
            StopCondition::Both { total, .. } => total,
            StopCondition::Deadline { .. } => 0,
        };
        let mut workers: Vec<WorkerState> = Vec::new();
        let mut j: usize = 0;
        while j < workload.worker_count
            invariant
                j <= workload.worker_count,
                workers@.len() == j,
                forall|k: int| 0 <= k < j ==> (#[trigger] workers@[k]).phase is Idle,
                forall|k: int| 0 <= k < j ==> !((#[trigger] workers@[k]).phase is InFlight),
                forall|k: int| 0 <= k < j ==> (#[trigger] workers@[k]).times@.len() == 0,
                forall|k: int| 0 <= k < j ==> !(#[trigger] workers@[k]).has_dispatched,
            decreases workload.worker_count - j,
        {
            workers.push(WorkerState {
                phase: WorkerPhase::Idle,
                last_dispatch_ns: 0,
                has_dispatched: false,
                times: Ghost(Seq::empty()),
            });
            j += 1;
        }
        proof {
            lemma_count_in_flight_zero(workers@);
            lemma_total_dispatched_empty(workers@);
        }
        Scheduler {
            workload,
            origin_ns,
            clock_ns: origin_ns,
            pace_ns,
            remaining,
            started: 0,
            finished: 0,
            in_flight: 0,
            workers,
            dispatches: Ghost(Seq::empty()),
        }
    }

    /// One scheduling decision for an idle worker at monotonic instant
    /// `now_ns`: exit when the stop condition forbids a new start, wait
    /// when pacing requires it, otherwise reserve a budget slot and
    /// dispatch.
    #[verifier::rlimit(100)]
    pub fn poll_worker(&mut self, wi: usize, now_ns: u64) -> (a: Action)
        requires
            old(self).inv(),
            wi < old(self).workers@.len(),
            old(self).workers@[wi as int].phase is Idle,
            old(self).clock_ns <= now_ns,
            old(self).started < u64::MAX,
        ensures
            final(self).inv(),
            final(self).workload == old(self).workload,
            final(self).origin_ns == old(self).origin_ns,
            final(self).pace_ns == old(self).pace_ns,
            final(self).clock_ns == now_ns,
            final(self).finished == old(self).finished,
            final(self).workers@.len() == old(self).workers@.len(),
            forall|j: int| 0 <= j < old(self).workers@.len() && j != wi
                ==> final(self).workers@[j] == old(self).workers@[j],
            match a {
                Action::Dispatch => {
                    &&& old(self).may_start(now_ns)
                    &&& final(self).started == old(self).started + 1
                    &&& final(self).in_flight == old(self).in_flight + 1
                    &&& final(self).dispatches@ == old(self).dispatches@.push(now_ns)
                    &&& final(self).workers@[wi as int].phase is InFlight
                    &&& final(self).workers@[wi as int].times@
                        == old(self).workers@[wi as int].times@.push(now_ns)
                    &&& (old(self).workload.stop.has_count() ==> {
                        &&& old(self).remaining > 0
                        &&& final(self).remaining == old(self).remaining - 1
                    })
                    &&& (old(self).workload.stop.has_deadline()
                        ==> now_ns - old(self).origin_ns
                            < old(self).workload.stop.deadline_dur())
                    &&& match old(self).pace_ns {
                        Some(iv) => old(self).workers@[wi as int].has_dispatched
                            ==> old(self).workers@[wi as int].last_dispatch_ns + iv <= now_ns,
                        None => true,
                    }
                },
                Action::Wait(d) => {
                    &&& d > 0
                    &&& old(self).may_start(now_ns)
                    &&& match old(self).pace_ns {
                        Some(iv) => {
                            &&& old(self).workers@[wi as int].has_dispatched
                            &&& now_ns < old(self).workers@[wi as int].last_dispatch_ns + iv
                            &&& d == old(self).workers@[wi as int].last_dispatch_ns + iv - now_ns
                        },
                        None => false,
                    }
                    &&& final(self).started == old(self).started
                    &&& final(self).remaining == old(self).remaining
                    &&& final(self).in_flight == old(self).in_flight
                    &&& final(self).dispatches@ == old(self).dispatches@
                    &&& final(self).workers@[wi as int] == old(self).workers@[wi as int]
                },
                Action::Exit => {
                    &&& !old(self).may_start(now_ns)
                    &&& final(self).started == old(self).started
                    &&& final(self).remaining == old(self).remaining
                    &&& final(self).in_flight == old(self).in_flight
                    &&& final(self).dispatches@ == old(self).dispatches@
                    &&& final(self).workers@[wi as int].phase is Done
                    &&& final(self).workers@[wi as int].times
                        == old(self).workers@[wi as int].times
                },
            },
    {
        proof {
            assert(old(self).workers@[wi as int].wf(
                old(self).origin_ns, old(self).clock_ns, old(self).pace_ns));
        }
        self.clock_ns = now_ns;
        let allowed = match self.workload.stop {
            StopCondition::Count { .. } => self.remaining > 0,
            StopCondition::Deadline { duration_ns } => now_ns - self.origin_ns < duration_ns,
            StopCondition::Both { duration_ns, .. } => self.remaining > 0
                && now_ns - self.origin_ns < duration_ns,
        };
        if !allowed {
            let w = self.workers[wi];
            let done_w = WorkerState {
                phase: WorkerPhase::Done,
                last_dispatch_ns: w.last_dispatch_ns,
                has_dispatched: w.has_dispatched,
                times: w.times,
            };
            proof {
                lemma_count_in_flight_update(self.workers@, wi as int, done_w);
                lemma_total_dispatched_update(self.workers@, wi as int, done_w);
            }
            self.workers[wi] = done_w;
            return Action::Exit;
        }
        match self.pace_ns {
            Some(iv) => {
                let w = self.workers[wi];
                if w.has_dispatched {
                    let d = pacing_delay_ns(w.last_dispatch_ns, iv, now_ns);
                    if d > 0 {
                        return Action::Wait(d);
                    }
                }
            },
            None => {},
        }
        match self.workload.stop {
            StopCondition::Count { .. } | StopCondition::Both { .. } => {
                self.remaining = self.remaining - 1;
            },
            StopCondition::Deadline { .. } => {},
        }
        let w = self.workers[wi];
        let new_w = WorkerState {
            phase: WorkerPhase::InFlight,
            last_dispatch_ns: now_ns,
            has_dispatched: true,
            times: Ghost(w.times@.push(now_ns)),
        };
        proof {
            lemma_count_in_flight_update(self.workers@, wi as int, new_w);
            lemma_count_in_flight_bounds(self.workers@);
            lemma_total_dispatched_update(self.workers@, wi as int, new_w);
        }
        self.workers[wi] = new_w;
        self.started = self.started + 1;
        self.in_flight = self.in_flight + 1;
        self.dispatches = Ghost(self.dispatches@.push(now_ns));
        Action::Dispatch
    }

    /// Records that worker `wi`'s outstanding request completed at
    /// `now_ns` and its outcome was published; the worker is idle again.
    pub fn finish_worker(&mut self, wi: usize, now_ns: u64)
        requires
            old(self).inv(),
            wi < old(self).workers@.len(),
            old(self).workers@[wi as int].phase is InFlight,
            old(self).clock_ns <= now_ns,
        ensures
            final(self).inv(),
            final(self).workload == old(self).workload,
            final(self).origin_ns == old(self).origin_ns,
            final(self).pace_ns == old(self).pace_ns,
            final(self).clock_ns == now_ns,
            final(self).started == old(self).started,
            final(self).remaining == old(self).remaining,
            final(self).finished == old(self).finished + 1,
            final(self).in_flight == old(self).in_flight - 1,
            final(self).dispatches@ == old(self).dispatches@,
            final(self).workers@.len() == old(self).workers@.len(),
            final(self).workers@[wi as int].phase is Idle,
            final(self).workers@[wi as int].times == old(self).workers@[wi as int].times,
            final(self).workers@[wi as int].last_dispatch_ns
                == old(self).workers@[wi as int].last_dispatch_ns,
            forall|j: int| 0 <= j < old(self).workers@.len() && j != wi
                ==> final(self).workers@[j] == old(self).workers@[j],
    {
        self.clock_ns = now_ns;
        let w = self.workers[wi];
        let idle_w = WorkerState {
            phase: WorkerPhase::Idle,
            last_dispatch_ns: w.last_dispatch_ns,
            has_dispatched: w.has_dispatched,
            times: w.times,
        };
        proof {
            lemma_count_in_flight_update(self.workers@, wi as int, idle_w);
            lemma_count_in_flight_bounds(self.workers@.update(wi as int, idle_w));
            lemma_total_dispatched_update(self.workers@, wi as int, idle_w);
        }
        self.workers[wi] = idle_w;
        self.in_flight = self.in_flight - 1;
        self.finished = self.finished + 1;
    }
}

/// Law: under the count stop condition a run never starts more requests
/// than its budget, whatever the worker count.
pub proof fn lemma_count_never_exceeds(s: Scheduler)
    requires
        s.inv(),
        s.workload.stop.has_count(),
    ensures
        s.started <= s.workload.stop.count_total(),
{
}

/// Law: under the count stop condition, once every worker has exited its
/// loop, exactly `total` requests were started and all of them finished —
/// the run delivers exactly `total` outcomes, whatever the worker count.
pub proof fn lemma_count_stop_exact(s: Scheduler)
    requires
        s.inv(),
        s.workload.stop is Count,
        s.all_done(),
    ensures
        s.started == s.workload.stop.count_total(),
        s.finished == s.workload.stop.count_total(),
{
    assert(s.workers@[0].phase is Done);
    assert(s.remaining == 0);
    assert forall|j: int| 0 <= j < s.workers@.len()
        implies !((#[trigger] s.workers@[j]).phase is InFlight) by {
        assert(s.workers@[j].phase is Done);
    }
    lemma_count_in_flight_zero(s.workers@);
}

/// Law: at no reachable state are more than `worker_count` requests
/// concurrently outstanding.
pub proof fn lemma_bounded_concurrency(s: Scheduler)
    requires
        s.inv(),
    ensures
        s.in_flight <= s.workload.worker_count,
{
    lemma_count_in_flight_bounds(s.workers@);
}

/// Law: under a deadline stop condition, every dispatch of the run
/// happened strictly before the deadline instant.
pub proof fn lemma_deadline_respected(s: Scheduler)
    requires
        s.inv(),
        s.workload.stop.has_deadline(),
    ensures
        forall|k: int| 0 <= k < s.dispatches@.len()
            ==> #[trigger] s.dispatches@[k] - s.origin_ns
                < s.workload.stop.deadline_dur(),
{
}

/// Law: instants separated pairwise by at least `iv` span at least
/// `(n - 1) * iv` from first to last.
pub proof fn lemma_paced_span(times: Seq<u64>, iv: u64)
    requires
        times.len() >= 1,
        forall|k: int| 0 <= k < times.len() - 1 ==> #[trigger] times[k] + iv <= times[k + 1],
    ensures
        times.first() + (times.len() - 1) * iv <= times.last(),
    decreases times.len(),
{
    if times.len() == 1 {
    } else {
        let prefix = times.drop_last();
        assert forall|k: int| 0 <= k < prefix.len() - 1
            implies #[trigger] prefix[k] + iv <= prefix[k + 1] by {
            assert(prefix[k] == times[k]);
            assert(prefix[k + 1] == times[k + 1]);
        }
        lemma_paced_span(prefix, iv);
        assert(prefix.last() == times[times.len() - 2]);
        assert(times[times.len() - 2] + iv <= times[times.len() - 1]);
        assert((times.len() - 1) * (iv as int) == (times.len() - 2) * (iv as int) + iv)
            by (nonlinear_arith);
    }
}

/// Law (rate pacing): with a target rate configured, a worker that has
/// dispatched `n` times did so over a stretch of at least
/// `(n - 1) * interval` nanoseconds of the run window, so its dispatch
/// count over a window of length `T` is at most `T / interval + 1` and
/// the aggregate rate converges to the target from below as the run
/// grows.
pub proof fn lemma_rate_bound(s: Scheduler, j: int, iv: u64)
    requires
        s.inv(),
        s.pace_ns == Some(iv),
        0 <= j < s.workers@.len(),
        s.workers@[j].times@.len() >= 1,
    ensures
        (s.workers@[j].times@.len() - 1) * iv <= s.clock_ns - s.origin_ns,
{
    let times = s.workers@[j].times@;
    assert(s.workers@[j].wf(s.origin_ns, s.clock_ns, s.pace_ns));
    lemma_paced_span(times, iv);
    assert(s.origin_ns <= times[0]);
    assert(times[times.len() - 1] <= s.clock_ns);
}

/// Law (aggregate rate): with a pacing interval of `iv` nanoseconds, the
/// whole pool has started at most `worker_count * (T / iv + 1)` requests
/// over a run window of `T` nanoseconds. With `iv = worker_count / rate`
/// seconds this is `rate * T` plus one startup dispatch per worker.
pub proof fn lemma_aggregate_rate_bound(s: Scheduler, iv: u64)
    requires
        s.inv(),
        s.pace_ns == Some(iv),
        iv >= 1,
    ensures
        s.started <= s.workload.worker_count
            * ((s.clock_ns - s.origin_ns) / (iv as int) + 1),
{
    let span = (s.clock_ns - s.origin_ns) as int;
    let b = span / (iv as int) + 1;
    assert(0int / (iv as int) == 0) by {
        vstd::arithmetic::div_mod::lemma_div_by_multiple(0, iv as int);
    }
    assert(b >= 1) by {
        vstd::arithmetic::div_mod::lemma_div_is_ordered(0, span, iv as int);
    }
    assert forall|j: int| 0 <= j < s.workers@.len()
        implies (#[trigger] s.workers@[j]).times@.len() <= b by {
        let times = s.workers@[j].times@;
        if times.len() >= 1 {
            lemma_rate_bound(s, j, iv);
            vstd::arithmetic::div_mod::lemma_div_is_ordered(
                (times.len() - 1) * (iv as int),
                span,
                iv as int,
            );
            vstd::arithmetic::div_mod::lemma_div_by_multiple(
                times.len() as int - 1,
                iv as int,
            );
        }
    }
    lemma_total_dispatched_le(s.workers@, b);
}

} // verus!
