use loadcore::outcome::{Outcome, RequestResult};
use loadcore::pacer::{pacing_delay_ns, pacing_interval_ns};
use loadcore::report::summarize;
use loadcore::scheduler::{Action, Scheduler, StopCondition, WorkerPhase, WorkloadSpec};

const ORIGIN: u64 = 1_000;

fn spec(worker_count: usize, stop: StopCondition, target_rate: Option<u64>) -> WorkloadSpec {
    WorkloadSpec { worker_count, stop, target_rate }
}

/// Drives a scheduler to completion single-threadedly: every dispatch is
/// executed at once with the given latency, and each outcome is
/// delivered onto `delivered`.
fn run_to_completion(w: WorkloadSpec, exec_latency_ns: u64) -> (Scheduler, Vec<Outcome>) {
    let mut s = Scheduler::new(w, ORIGIN);
    let mut now: u64 = ORIGIN;
    let mut delivered: Vec<Outcome> = Vec::new();
    loop {
        let mut all_done = true;
        for wi in 0..w.worker_count {
            match s.workers[wi].phase {
                WorkerPhase::Idle => {
                    all_done = false;
                    match s.poll_worker(wi, now) {
                        Action::Dispatch => {
                            let start = now;
                            now += exec_latency_ns;
                            delivered.push(Outcome::Success(RequestResult {
                                start_ns: start,
                                end_ns: now,
                                status: 200,
                                len_bytes: 1,
                            }));
                            s.finish_worker(wi, now);
                        }
                        Action::Wait(d) => {
                            assert!(d > 0);
                            now += d;
                        }
                        Action::Exit => {}
                    }
                }
                WorkerPhase::InFlight => panic!("serial driver left a request in flight"),
                WorkerPhase::Done => {}
            }
        }
        if all_done {
            break;
        }
    }
    (s, delivered)
}

#[test]
fn count_stop_delivers_exactly_n() {
    let (s, delivered) = run_to_completion(
        spec(4, StopCondition::Count { total: 25 }, None),
        7,
    );
    assert_eq!(delivered.len(), 25);
    assert_eq!(s.started, 25);
    assert_eq!(s.finished, 25);
    assert_eq!(s.remaining, 0);
}

#[test]
fn count_stop_single_worker() {
    let (s, delivered) = run_to_completion(spec(1, StopCondition::Count { total: 9 }, None), 3);
    assert_eq!(delivered.len(), 9);
    assert_eq!(s.finished, 9);
}

#[test]
fn count_stop_more_workers_than_requests() {
    let (s, delivered) = run_to_completion(spec(50, StopCondition::Count { total: 5 }, None), 1);
    assert_eq!(delivered.len(), 5);
    assert_eq!(s.finished, 5);
}

#[test]
fn deadline_stop_no_late_starts() {
    let duration_ns: u64 = 10_000;
    let (s, delivered) = run_to_completion(
        spec(3, StopCondition::Deadline { duration_ns }, None),
        1_500,
    );
    assert!(s.started > 0);
    for o in &delivered {
        match o {
            Outcome::Success(rr) => assert!(rr.start_ns < ORIGIN + duration_ns),
            Outcome::Failure { .. } => unreachable!(),
        }
    }
    // In-flight work may finish after the deadline; starts may not.
    assert_eq!(s.started, s.finished);
}

#[test]
fn deadline_boundary_is_strict() {
    let mut s = Scheduler::new(spec(1, StopCondition::Deadline { duration_ns: 1_000 }, None), ORIGIN);
    // A nanosecond before the deadline a start is still allowed.
    assert_eq!(s.poll_worker(0, ORIGIN + 999), Action::Dispatch);
    s.finish_worker(0, ORIGIN + 999);
    // At the deadline instant the worker must exit.
    assert_eq!(s.poll_worker(0, ORIGIN + 1_000), Action::Exit);
    assert!(matches!(s.workers[0].phase, WorkerPhase::Done));
}

#[test]
fn concurrency_never_exceeds_worker_count() {
    let mut s = Scheduler::new(spec(3, StopCondition::Count { total: 10 }, None), ORIGIN);
    assert_eq!(s.poll_worker(0, ORIGIN), Action::Dispatch);
    assert_eq!(s.poll_worker(1, ORIGIN), Action::Dispatch);
    assert_eq!(s.poll_worker(2, ORIGIN), Action::Dispatch);
    assert_eq!(s.in_flight, 3);
    // Every worker holds one outstanding request; the pool is the hard
    // ceiling, and only a completion frees a slot.
    s.finish_worker(1, ORIGIN + 10);
    assert_eq!(s.in_flight, 2);
    assert_eq!(s.poll_worker(1, ORIGIN + 10), Action::Dispatch);
    assert_eq!(s.in_flight, 3);
    assert_eq!(s.started, 4);
}

#[test]
fn pacing_interval_and_delay() {
    // 100 requests/s over 50 workers: one dispatch per worker every
    // 500ms.
    assert_eq!(pacing_interval_ns(50, 100), 500_000_000);
    assert_eq!(pacing_interval_ns(1, 1_000), 1_000_000);
    assert_eq!(pacing_delay_ns(0, 1_000_000, 400_000), 600_000);
    assert_eq!(pacing_delay_ns(0, 1_000_000, 1_000_000), 0);
    assert_eq!(pacing_delay_ns(0, 1_000_000, 2_000_000), 0);
}

#[test]
fn pacing_bounds_dispatch_count() {
    // One worker at 1000 requests/s: interval 1ms. With a zero-latency
    // executor, a 10ms window holds exactly the dispatches at
    // 0, 1ms, ..., 10ms: eleven of them (rate * window + 1).
    let interval: u64 = 1_000_000;
    let window: u64 = 10 * interval;
    let mut s = Scheduler::new(
        spec(1, StopCondition::Count { total: 1_000 }, Some(1_000)),
        ORIGIN,
    );
    let mut now = ORIGIN;
    let mut dispatches: u64 = 0;
    loop {
        match s.poll_worker(0, now) {
            Action::Dispatch => {
                dispatches += 1;
                s.finish_worker(0, now);
            }
            Action::Wait(d) => {
                if now + d > ORIGIN + window {
                    break;
                }
                now += d;
            }
            Action::Exit => break,
        }
    }
    assert_eq!(dispatches, 11);
}

#[test]
fn paced_worker_waits_exactly_the_interval() {
    let mut s = Scheduler::new(
        spec(1, StopCondition::Count { total: 10 }, Some(1_000)),
        ORIGIN,
    );
    assert_eq!(s.poll_worker(0, ORIGIN), Action::Dispatch);
    s.finish_worker(0, ORIGIN);
    assert_eq!(s.poll_worker(0, ORIGIN), Action::Wait(1_000_000));
    assert_eq!(s.poll_worker(0, ORIGIN + 250_000), Action::Wait(750_000));
    assert_eq!(s.poll_worker(0, ORIGIN + 1_000_000), Action::Dispatch);
}

#[test]
fn interrupt_reports_exactly_what_was_delivered() {
    // A big run against a slow executor: ten requests go out, four
    // complete, then the consumer is interrupted and aggregates what it
    // has.
    let mut s = Scheduler::new(spec(10, StopCondition::Count { total: 1_000 }, None), ORIGIN);
    for wi in 0..10 {
        assert_eq!(s.poll_worker(wi, ORIGIN), Action::Dispatch);
    }
    assert_eq!(s.in_flight, 10);
    let mut delivered: Vec<Outcome> = Vec::new();
    for wi in 0..4 {
        let end = ORIGIN + 50_000 + wi as u64;
        delivered.push(Outcome::Success(RequestResult {
            start_ns: ORIGIN,
            end_ns: end,
            status: 200,
            len_bytes: 2,
        }));
        s.finish_worker(wi, end);
    }
    let r = summarize(&delivered, 60_000);
    assert_eq!(r.total, 4);
    assert_eq!(r.total, delivered.len() as u64);
    assert_eq!(r.successes, 4);
}

#[test]
fn both_limits_stop_on_budget() {
    let (s, delivered) = run_to_completion(
        spec(2, StopCondition::Both { total: 6, duration_ns: u64::MAX }, None),
        5,
    );
    assert_eq!(delivered.len(), 6);
    assert_eq!(s.finished, 6);
}

#[test]
fn both_limits_stop_on_deadline() {
    let (s, delivered) = run_to_completion(
        spec(2, StopCondition::Both { total: 1_000_000, duration_ns: 8_000 }, None),
        2_000,
    );
    assert!(delivered.len() < 1_000_000);
    for o in &delivered {
        match o {
            Outcome::Success(rr) => assert!(rr.start_ns < ORIGIN + 8_000),
            Outcome::Failure { .. } => unreachable!(),
        }
    }
    assert_eq!(s.started, s.finished);
}

#[test]
fn new_scheduler_initial_state() {
    let s = Scheduler::new(spec(5, StopCondition::Count { total: 42 }, Some(10)), ORIGIN);
    assert_eq!(s.started, 0);
    assert_eq!(s.finished, 0);
    assert_eq!(s.in_flight, 0);
    assert_eq!(s.remaining, 42);
    assert_eq!(s.workers.len(), 5);
    for w in &s.workers {
        assert!(matches!(w.phase, WorkerPhase::Idle));
    }
}
