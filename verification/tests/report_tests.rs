use loadcore::outcome::{ErrorKind, Outcome, RequestResult};
use loadcore::report::summarize;

fn success(start_ns: u64, end_ns: u64, status: u16, len_bytes: u64) -> Outcome {
    Outcome::Success(RequestResult { start_ns, end_ns, status, len_bytes })
}

fn failure(start_ns: u64, end_ns: u64, kind: ErrorKind) -> Outcome {
    Outcome::Failure { start_ns, end_ns, kind }
}

#[test]
fn empty_input_all_zero() {
    let r = summarize(&Vec::new(), 1_000_000_000);
    assert_eq!(r.total, 0);
    assert_eq!(r.successes, 0);
    assert_eq!(r.failures, 0);
    assert_eq!(r.latency_min_ns, 0);
    assert_eq!(r.latency_max_ns, 0);
    assert_eq!(r.latency_mean_ns, 0);
    assert_eq!(r.latency_p50_ns, 0);
    assert_eq!(r.latency_p99_ns, 0);
    assert_eq!(r.total_bytes, 0);
    assert_eq!(r.rps_milli, 0);
    assert_eq!(r.bytes_per_sec_milli, 0);
    assert_eq!(r.status_hist.len(), 0);
    assert_eq!(r.error_hist.len(), 0);
}

#[test]
fn empty_input_zero_elapsed_no_fault() {
    let r = summarize(&Vec::new(), 0);
    assert_eq!(r.rps_milli, 0);
    assert_eq!(r.bytes_per_sec_milli, 0);
}

#[test]
fn percentile_example_four_latencies() {
    // Latencies 10ms, 20ms, 30ms, 40ms: with the ceil(p * n / 100) - 1
    // rank, p50 lands on index 1 and p90 on index 3.
    let outcomes = vec![
        success(0, 10_000_000, 200, 1),
        success(0, 20_000_000, 200, 1),
        success(0, 30_000_000, 200, 1),
        success(0, 40_000_000, 200, 1),
    ];
    let r = summarize(&outcomes, 1_000_000_000);
    assert_eq!(r.latency_p50_ns, 20_000_000);
    assert_eq!(r.latency_p90_ns, 40_000_000);
    assert_eq!(r.latency_p95_ns, 40_000_000);
    assert_eq!(r.latency_p99_ns, 40_000_000);
    assert_eq!(r.latency_min_ns, 10_000_000);
    assert_eq!(r.latency_max_ns, 40_000_000);
    assert_eq!(r.latency_mean_ns, 25_000_000);
}

#[test]
fn percentiles_ignore_input_order() {
    let outcomes = vec![
        success(0, 40_000_000, 200, 1),
        success(0, 10_000_000, 200, 1),
        success(0, 30_000_000, 200, 1),
        success(0, 20_000_000, 200, 1),
    ];
    let r = summarize(&outcomes, 1_000_000_000);
    assert_eq!(r.latency_p50_ns, 20_000_000);
    assert_eq!(r.latency_p90_ns, 40_000_000);
}

#[test]
fn mixed_success_failure_histograms() {
    // 100 requests: 70 succeed with status 200, 30 time out.
    let mut outcomes = Vec::new();
    for k in 0..70u64 {
        outcomes.push(success(k, k + 5, 200, 10));
    }
    for k in 0..30u64 {
        outcomes.push(failure(k, k + 9, ErrorKind::Timeout));
    }
    let r = summarize(&outcomes, 2_000_000_000);
    assert_eq!(r.total, 100);
    assert_eq!(r.successes, 70);
    assert_eq!(r.failures, 30);
    assert_eq!(r.status_count(200), 70);
    assert_eq!(r.status_count(404), 0);
    assert_eq!(r.error_count(ErrorKind::Timeout), 30);
    assert_eq!(r.error_count(ErrorKind::Network), 0);
    assert_eq!(r.error_count(ErrorKind::Decode), 0);
}

#[test]
fn summarize_is_deterministic() {
    let outcomes = vec![
        success(0, 7, 200, 3),
        failure(1, 9, ErrorKind::Network),
        success(2, 31, 500, 8),
        success(3, 12, 200, 0),
    ];
    let r1 = summarize(&outcomes, 123_456_789);
    let r2 = summarize(&outcomes, 123_456_789);
    assert_eq!(r1, r2);
}

#[test]
fn all_failures_zero_latency_stats() {
    let outcomes = vec![
        failure(0, 4, ErrorKind::Network),
        failure(1, 5, ErrorKind::Timeout),
        failure(2, 6, ErrorKind::Network),
    ];
    let r = summarize(&outcomes, 1_000_000_000);
    assert_eq!(r.total, 3);
    assert_eq!(r.successes, 0);
    assert_eq!(r.failures, 3);
    assert_eq!(r.latency_min_ns, 0);
    assert_eq!(r.latency_max_ns, 0);
    assert_eq!(r.latency_mean_ns, 0);
    assert_eq!(r.latency_p50_ns, 0);
    assert_eq!(r.rps_milli, 0);
    assert_eq!(r.total_bytes, 0);
    assert_eq!(r.status_hist.len(), 0);
    assert_eq!(r.error_count(ErrorKind::Network), 2);
    assert_eq!(r.error_count(ErrorKind::Timeout), 1);
}

#[test]
fn throughput_exact_values() {
    // 3 successes totalling 600 bytes over one second: 3.000 requests/s
    // and 600.000 bytes/s, reported in thousandths.
    let outcomes = vec![
        success(0, 10, 200, 100),
        success(0, 30, 200, 200),
        success(0, 20, 204, 300),
    ];
    let r = summarize(&outcomes, 1_000_000_000);
    assert_eq!(r.rps_milli, 3_000);
    assert_eq!(r.bytes_per_sec_milli, 600_000);
    assert_eq!(r.total_bytes, 600);
    assert_eq!(r.latency_min_ns, 10);
    assert_eq!(r.latency_max_ns, 30);
    assert_eq!(r.latency_mean_ns, 20);
    assert_eq!(r.status_count(200), 2);
    assert_eq!(r.status_count(204), 1);
}

#[test]
fn single_outcome_percentiles() {
    let outcomes = vec![success(5, 47, 200, 9)];
    let r = summarize(&outcomes, 10);
    assert_eq!(r.latency_min_ns, 42);
    assert_eq!(r.latency_max_ns, 42);
    assert_eq!(r.latency_mean_ns, 42);
    assert_eq!(r.latency_p50_ns, 42);
    assert_eq!(r.latency_p90_ns, 42);
    assert_eq!(r.latency_p95_ns, 42);
    assert_eq!(r.latency_p99_ns, 42);
}

#[test]
fn request_result_duration() {
    let rr = RequestResult { start_ns: 100, end_ns: 350, status: 200, len_bytes: 4 };
    assert_eq!(rr.duration(), 250);
}

#[test]
fn outcome_is_success() {
    assert!(success(0, 1, 200, 0).is_success());
    assert!(!failure(0, 1, ErrorKind::Decode).is_success());
}
