//! Result aggregation: turns a finite sequence of outcomes plus the
//! elapsed wall time into summary statistics.
//!
//! Aggregation is a pure function of its inputs: every field of the
//! produced [`Report`] is pinned by `report_matches`, so two runs over the
//! same outcome sequence and elapsed time agree on everything observable.

use vstd::prelude::*;
use vstd::relations::{sorted_by, total_ordering};
use vstd::seq_lib::lemma_sorted_unique;
use vstd::arithmetic::mul::lemma_mul_inequality;
use vstd::arithmetic::div_mod::{lemma_div_by_multiple, lemma_div_is_ordered};
use crate::outcome::{ErrorKind, Outcome};

verus! {

/// Number of successful outcomes in `s`.
pub open spec fn count_successes(s: Seq<Outcome>) -> int
    decreases s.len(),
{
    if s.len() == 0 {
        0
    } else {
        count_successes(s.drop_last()) + if s.last() is Success {
            1int
        } else {
            0int
        }
    }
}

/// Number of successful outcomes in `s` whose status code is `code`.
pub open spec fn count_status(s: Seq<Outcome>, code: u16) -> int
    decreases s.len(),
{
    if s.len() == 0 {
        0
    } else {
        count_status(s.drop_last(), code) + match s.last() {
            Outcome::Success(r) => if r.status == code {
                1int
            } else {
                0int
            },
            Outcome::Failure { .. } => 0int,
        }
    }
}

/// Number of failed outcomes in `s` whose error class is `kind`.
pub open spec fn count_error(s: Seq<Outcome>, kind: ErrorKind) -> int
    decreases s.len(),
{
    if s.len() == 0 {
        0
    } else {
        count_error(s.drop_last(), kind) + match s.last() {
            Outcome::Success(_) => 0int,
            Outcome::Failure { kind: k, .. } => if k == kind {
                1int
            } else {
                0int
            },
        }
    }
}

/// Latencies of the successful outcomes in `s`, in delivery order.
pub open spec fn latencies_of(s: Seq<Outcome>) -> Seq<u64>
    decreases s.len(),
{
    if s.len() == 0 {
        Seq::empty()
    } else {
        latencies_of(s.drop_last()) + match s.last() {
            Outcome::Success(r) => seq![(r.end_ns - r.start_ns) as u64],
            Outcome::Failure { .. } => Seq::<u64>::empty(),
        }
    }
}

/// Total response body bytes over the successful outcomes in `s`.
pub open spec fn bytes_total(s: Seq<Outcome>) -> int
    decreases s.len(),
{
    if s.len() == 0 {
        0
    } else {
        bytes_total(s.drop_last()) + match s.last() {
            Outcome::Success(r) => r.len_bytes as int,
            Outcome::Failure { .. } => 0int,
        }
    }
}

/// Sum of a sequence of latencies.
pub open spec fn sum_of(s: Seq<u64>) -> int
    decreases s.len(),
{
    if s.len() == 0 {
        0
    } else {
        sum_of(s.drop_last()) + s.last()
    }
}

/// Least element of a non-empty sequence.
pub open spec fn min_of(s: Seq<u64>) -> u64
    recommends
        s.len() > 0,
    decreases s.len(),
{
    if s.len() <= 1 {
        s[0]
    } else {
        let m = min_of(s.drop_last());
        if s.last() < m {
            s.last()
        } else {
            m
        }
    }
}

/// Greatest element of a non-empty sequence.
pub open spec fn max_of(s: Seq<u64>) -> u64
    recommends
        s.len() > 0,
    decreases s.len(),
{
    if s.len() <= 1 {
        s[0]
    } else {
        let m = max_of(s.drop_last());
        if s.last() > m {
            s.last()
        } else {
            m
        }
    }
}

/// Ascending order, with duplicates allowed.
pub open spec fn is_sorted(s: Seq<u64>) -> bool {
    forall|i: int, j: int| 0 <= i <= j < s.len() ==> s[i] <= s[j]
}

/// The ascending rearrangement of `s`.
pub open spec fn sorted_ascending(s: Seq<u64>) -> Seq<u64> {
    s.sort_by(|a: u64, b: u64| a <= b)
}

/// Any sorted sequence with the elements of `a` is `sorted_ascending(a)`.
pub proof fn lemma_sorted_version_unique(a: Seq<u64>, s: Seq<u64>)
    requires
        is_sorted(s),
        s.to_multiset() == a.to_multiset(),
    ensures
        s == sorted_ascending(a),
        is_sorted(sorted_ascending(a)),
        sorted_ascending(a).len() == a.len(),
{
    broadcast use vstd::seq_lib::group_to_multiset_ensures;

    let leq = |x: u64, y: u64| x <= y;
    assert(total_ordering(leq));
    a.lemma_sort_by_ensures(leq);
    assert(sorted_by(s, leq));
    lemma_sorted_unique(s, a.sort_by(leq), leq);
    assert(s =~= a.sort_by(leq));
    assert(a.sort_by(leq).to_multiset().len() == a.to_multiset().len());
}

/// Zero-based rank used for the `p`-th percentile over `n` sorted
/// latencies: `ceil(p * n / 100) - 1`, clamped into `[0, n - 1]`.
pub open spec fn pct_index(p: int, n: int) -> int
    recommends
        1 <= p <= 100,
        n >= 1,
{
    let raw = (p * n + 99) / 100 - 1;
    if raw < 0 {
        0
    } else if raw > n - 1 {
        n - 1
    } else {
        raw
    }
}

/// The `p`-th percentile of a latency sequence; zero when it is empty.
pub open spec fn percentile_spec(lats: Seq<u64>, p: int) -> u64 {
    if lats.len() == 0 {
        0
    } else {
        sorted_ascending(lats)[pct_index(p, lats.len() as int)]
    }
}

/// Clamp a non-negative mathematical integer into `u64`.
pub open spec fn sat64(x: int) -> u64
    recommends
        x >= 0,
{
    if x > u64::MAX {
        u64::MAX
    } else {
        x as u64
    }
}

/// Occurrences recorded for `code` in a status histogram.
pub open spec fn hist_count_status(h: Seq<(u16, u64)>, code: u16) -> int
    decreases h.len(),
{
    if h.len() == 0 {
        0
    } else {
        hist_count_status(h.drop_last(), code) + if h.last().0 == code {
            h.last().1 as int
        } else {
            0int
        }
    }
}

/// Occurrences recorded for `kind` in an error histogram.
pub open spec fn hist_count_error(h: Seq<(ErrorKind, u64)>, kind: ErrorKind) -> int
    decreases h.len(),
{
    if h.len() == 0 {
        0
    } else {
        hist_count_error(h.drop_last(), kind) + if h.last().0 == kind {
            h.last().1 as int
        } else {
            0int
        }
    }
}

proof fn lemma_hist_status_update(h: Seq<(u16, u64)>, i: int, v: (u16, u64), c: u16)
    requires
        0 <= i < h.len(),
    ensures
        hist_count_status(h.update(i, v), c) == hist_count_status(h, c)
            - (if h[i].0 == c { h[i].1 as int } else { 0int })
            + (if v.0 == c { v.1 as int } else { 0int }),
    decreases h.len(),
{
    if i == h.len() - 1 {
        assert(h.update(i, v).drop_last() =~= h.drop_last());
    } else {
        lemma_hist_status_update(h.drop_last(), i, v, c);
        assert(h.update(i, v).drop_last() =~= h.drop_last().update(i, v));
    }
}

proof fn lemma_hist_error_update(h: Seq<(ErrorKind, u64)>, i: int, v: (ErrorKind, u64), c: ErrorKind)
    requires
        0 <= i < h.len(),
    ensures
        hist_count_error(h.update(i, v), c) == hist_count_error(h, c)
            - (if h[i].0 == c { h[i].1 as int } else { 0int })
            + (if v.0 == c { v.1 as int } else { 0int }),
    decreases h.len(),
{
    if i == h.len() - 1 {
        assert(h.update(i, v).drop_last() =~= h.drop_last());
    } else {
        lemma_hist_error_update(h.drop_last(), i, v, c);
        assert(h.update(i, v).drop_last() =~= h.drop_last().update(i, v));
    }
}

/// Adds one occurrence of `code` to a status histogram. `bound` carries
/// the caller's ceiling on every recorded count, so the increment cannot
/// overflow.
fn bump_status(h: &mut Vec<(u16, u64)>, code: u16, bound: Ghost<int>)
    requires
        forall|j: int| 0 <= j < old(h)@.len() ==> (#[trigger] old(h)@[j]).1 <= bound@,
        0 <= bound@ < u64::MAX,
    ensures
        forall|c: u16| #[trigger] hist_count_status(final(h)@, c)
            == hist_count_status(old(h)@, c) + (if c == code { 1int } else { 0int }),
        forall|j: int| 0 <= j < final(h)@.len() ==> (#[trigger] final(h)@[j]).1 <= bound@ + 1,
{
    let n = h.len();
    let mut k: usize = 0;
    while k < n
        invariant
            h@ == old(h)@,
            n == old(h)@.len(),
            k <= n,
            forall|j: int| 0 <= j < k ==> (#[trigger] old(h)@[j]).0 != code,
            forall|j: int| 0 <= j < old(h)@.len() ==> (#[trigger] old(h)@[j]).1 <= bound@,
            0 <= bound@ < u64::MAX,
        decreases n - k,
    {
        let pair = h[k];
        if pair.0 == code {
            let bumped: u64 = pair.1 + 1;
            h[k] = (code, bumped);
            proof {
                assert(h@ =~= old(h)@.update(k as int, (code, bumped)));
                assert forall|c: u16| #[trigger] hist_count_status(h@, c)
                    == hist_count_status(old(h)@, c) + (if c == code { 1int } else { 0int }) by {
                    lemma_hist_status_update(old(h)@, k as int, (code, bumped), c);
                    assert(old(h)@[k as int] == pair);
                }
            }
            return;
        }
        k += 1;
    }
    h.push((code, 1));
    proof {
        assert(h@.drop_last() =~= old(h)@);
        assert(h@.last() == (code, 1u64));
    }
}

/// Adds one occurrence of `kind` to an error histogram.
fn bump_error(h: &mut Vec<(ErrorKind, u64)>, kind: ErrorKind, bound: Ghost<int>)
    requires
        forall|j: int| 0 <= j < old(h)@.len() ==> (#[trigger] old(h)@[j]).1 <= bound@,
        0 <= bound@ < u64::MAX,
    ensures
        forall|c: ErrorKind| #[trigger] hist_count_error(final(h)@, c)
            == hist_count_error(old(h)@, c) + (if c == kind { 1int } else { 0int }),
        forall|j: int| 0 <= j < final(h)@.len() ==> (#[trigger] final(h)@[j]).1 <= bound@ + 1,
{
    let n = h.len();
    let mut k: usize = 0;
    while k < n
        invariant
            h@ == old(h)@,
            n == old(h)@.len(),
            k <= n,
            forall|j: int| 0 <= j < k ==> (#[trigger] old(h)@[j]).0 != kind,
            forall|j: int| 0 <= j < old(h)@.len() ==> (#[trigger] old(h)@[j]).1 <= bound@,
            0 <= bound@ < u64::MAX,
        decreases n - k,
    {
        let pair = h[k];
        if pair.0 == kind {
            let bumped: u64 = pair.1 + 1;
            h[k] = (kind, bumped);
            proof {
                assert(h@ =~= old(h)@.update(k as int, (kind, bumped)));
                assert forall|c: ErrorKind| #[trigger] hist_count_error(h@, c)
                    == hist_count_error(old(h)@, c) + (if c == kind { 1int } else { 0int }) by {
                    lemma_hist_error_update(old(h)@, k as int, (kind, bumped), c);
                    assert(old(h)@[k as int] == pair);
                }
            }
            return;
        }
        k += 1;
    }
    h.push((kind, 1));
    proof {
        assert(h@.drop_last() =~= old(h)@);
        assert(h@.last() == (kind, 1u64));
    }
}

/// Sorts a latency vector ascending, in place.
pub fn sort_latencies(v: &mut Vec<u64>)
    ensures
        is_sorted(final(v)@),
        final(v)@.to_multiset() == old(v)@.to_multiset(),
        final(v)@.len() == old(v)@.len(),
{
    broadcast use vstd::seq_lib::to_multiset_update;
    broadcast use vstd::seq_lib::group_to_multiset_ensures;
    broadcast use vstd::multiset::group_multiset_axioms;

    let n = v.len();
    let mut i: usize = 1;
    if n < 2 {
        return;
    }
    while i < n
        invariant
            1 <= i <= n,
            n == v@.len(),
            v@.to_multiset() == old(v)@.to_multiset(),
            forall|a: int, b: int| 0 <= a <= b < i ==> v@[a] <= v@[b],
        decreases n - i,
    {
        let mut j: usize = i;
        while j > 0 && v[j - 1] > v[j]
            invariant
                0 <= j <= i < n,
                n == v@.len(),
                v@.to_multiset() == old(v)@.to_multiset(),
                forall|a: int, b: int| 0 <= a <= b <= i && b != j ==> v@[a] <= v@[b],
            decreases j,
        {
            let ghost before = v@;
            let x = v[j - 1];
            let y = v[j];
            v[j - 1] = y;
            v[j] = x;
            proof {
                let m = before.to_multiset();
                before.to_multiset_ensures();
                assert(before[j as int - 1] == x);
                assert(before.contains(x));
                assert(m.count(x) > 0);
                let s1 = before.update(j as int - 1, y);
                vstd::seq_lib::to_multiset_update(before, j as int - 1, y);
                assert(s1.to_multiset() == m.insert(y).remove(x));
                assert(s1[j as int] == y);
                vstd::seq_lib::to_multiset_update(s1, j as int, x);
                assert(s1.update(j as int, x).to_multiset() == s1.to_multiset().insert(x).remove(y));
                assert(v@ =~= s1.update(j as int, x));
                assert(v@.to_multiset() == m.insert(y).remove(x).insert(x).remove(y));
                assert(v@.to_multiset() =~= m);
            }
            j -= 1;
        }
        i += 1;
    }
}

/// Reads the `p`-th percentile (`ceil(p * n / 100) - 1` rank) out of a
/// sorted latency vector.
fn percentile_from_sorted(sorted: &Vec<u64>, p: u64) -> (r: u64)
    requires
        1 <= p <= 100,
        sorted@.len() >= 1,
    ensures
        r == sorted@[pct_index(p as int, sorted@.len() as int)],
{
    let n = sorted.len();
    proof {
        lemma_mul_inequality(p as int, 100, n as int);
        assert(p as int * n as int >= 1) by (nonlinear_arith)
            requires p >= 1, n >= 1;
        lemma_div_is_ordered(p as int * n as int + 99, 100 * n as int + 99, 100);
        assert((100 * n as int + 99) / 100 == n as int) by {
            assert(100 * n as int + 99 == 100 * n as int + 99);
            lemma_div_by_multiple(n as int, 100);
            assert((n as int * 100) / 100 == n as int);
            assert((100 * n as int + 99) / 100 == (n as int * 100 + 99) / 100);
            assert((n as int * 100 + 99) / 100 == n as int) by (nonlinear_arith);
        }
    }
    let num: u128 = (p as u128) * (n as u128) + 99;
    let raw: u128 = num / 100;
    let idx128: u128 = raw - 1;
    let idx: usize = if idx128 > (n - 1) as u128 {
        n - 1
    } else {
        idx128 as usize
    };
    sorted[idx]
}

/// Clamps `num * 1_000_000_000_000 / elapsed_ns` into `u64`; zero when no
/// time has elapsed. This is a rate in thousandths of a unit per second,
/// for nanosecond elapsed times.
fn rate_milli(num: u64, elapsed_ns: u64) -> (t: u64)
    ensures
        t == if elapsed_ns == 0 {
            0u64
        } else {
            sat64(num * 1_000_000_000_000 / elapsed_ns as int)
        },
{
    if elapsed_ns == 0 {
        return 0;
    }
    proof {
        lemma_mul_inequality(num as int, u64::MAX as int, 1_000_000_000_000int);
    }
    let q: u128 = (num as u128) * 1_000_000_000_000u128 / (elapsed_ns as u128);
    if q > 0xffff_ffff_ffff_ffffu128 {
        0xffff_ffff_ffff_ffffu64
    } else {
        q as u64
    }
}

/// Aggregated statistics for one run. Latencies are nanoseconds; the
/// throughput fields are thousandths of a request (or byte) per second.
#[derive(Clone, Debug, PartialEq)]
pub struct Report {
    /// Outcomes aggregated, successes and failures together.
    pub total: u64,
    /// Successful outcomes.
    pub successes: u64,
    /// Failed outcomes.
    pub failures: u64,
    /// Elapsed wall time handed in by the caller, nanoseconds.
    pub elapsed_ns: u64,
    /// Least latency over the successes; zero when there are none.
    pub latency_min_ns: u64,
    /// Greatest latency over the successes; zero when there are none.
    pub latency_max_ns: u64,
    /// Arithmetic mean latency, rounded down; zero when no successes.
    pub latency_mean_ns: u64,
    /// Percentile cut points over the successes' latencies.
    pub latency_p50_ns: u64,
    pub latency_p90_ns: u64,
    pub latency_p95_ns: u64,
    pub latency_p99_ns: u64,
    /// Total response body bytes over the successes, clamped into `u64`.
    pub total_bytes: u64,
    /// Successful requests per second, in thousandths; zero when no time
    /// elapsed.
    pub rps_milli: u64,
    /// Response body bytes per second, in thousandths.
    pub bytes_per_sec_milli: u64,
    /// Occurrences of each status code, successes only.
    pub status_hist: Vec<(u16, u64)>,
    /// Occurrences of each error class, failures only.
    pub error_hist: Vec<(ErrorKind, u64)>,
}

/// Every observable quantity of `r` as a function of the outcome
/// sequence and elapsed time alone.
pub open spec fn report_matches(r: Report, s: Seq<Outcome>, elapsed_ns: u64) -> bool {
    let lats = latencies_of(s);
    &&& r.total == s.len()
    &&& r.successes == count_successes(s)
    &&& r.failures == s.len() - count_successes(s)
    &&& r.elapsed_ns == elapsed_ns
    &&& r.total_bytes == sat64(bytes_total(s))
    &&& (forall|c: u16| #[trigger] hist_count_status(r.status_hist@, c) == count_status(s, c))
    &&& (forall|k: ErrorKind| #[trigger] hist_count_error(r.error_hist@, k) == count_error(s, k))
    &&& r.latency_min_ns == (if lats.len() == 0 { 0u64 } else { min_of(lats) })
    &&& r.latency_max_ns == (if lats.len() == 0 { 0u64 } else { max_of(lats) })
    &&& r.latency_mean_ns == (if lats.len() == 0 { 0int } else { sum_of(lats) / (lats.len() as int) })
    &&& r.latency_p50_ns == percentile_spec(lats, 50)
    &&& r.latency_p90_ns == percentile_spec(lats, 90)
    &&& r.latency_p95_ns == percentile_spec(lats, 95)
    &&& r.latency_p99_ns == percentile_spec(lats, 99)
    &&& r.rps_milli == (if elapsed_ns == 0 { 0u64 } else {
        sat64(count_successes(s) * 1_000_000_000_000 / (elapsed_ns as int))
    })
    &&& r.bytes_per_sec_milli == (if elapsed_ns == 0 { 0u64 } else {
        sat64((r.total_bytes as int) * 1_000_000_000_000 / (elapsed_ns as int))
    })
}

/// Agreement on every observable quantity of two reports, histograms
/// compared count-for-count.
pub open spec fn reports_agree(r1: Report, r2: Report) -> bool {
    &&& r1.total == r2.total
    &&& r1.successes == r2.successes
    &&& r1.failures == r2.failures
    &&& r1.elapsed_ns == r2.elapsed_ns
    &&& r1.total_bytes == r2.total_bytes
    &&& r1.latency_min_ns == r2.latency_min_ns
    &&& r1.latency_max_ns == r2.latency_max_ns
    &&& r1.latency_mean_ns == r2.latency_mean_ns
    &&& r1.latency_p50_ns == r2.latency_p50_ns
    &&& r1.latency_p90_ns == r2.latency_p90_ns
    &&& r1.latency_p95_ns == r2.latency_p95_ns
    &&& r1.latency_p99_ns == r2.latency_p99_ns
    &&& r1.rps_milli == r2.rps_milli
    &&& r1.bytes_per_sec_milli == r2.bytes_per_sec_milli
    &&& (forall|c: u16| #[trigger] hist_count_status(r1.status_hist@, c)
        == hist_count_status(r2.status_hist@, c))
    &&& (forall|k: ErrorKind| #[trigger] hist_count_error(r1.error_hist@, k)
        == hist_count_error(r2.error_hist@, k))
}

/// Law: aggregation is deterministic — any two reports for the same
/// outcome sequence and elapsed time agree on every observable quantity.
pub proof fn lemma_summarize_deterministic(r1: Report, r2: Report, s: Seq<Outcome>, elapsed_ns: u64)
    requires
        report_matches(r1, s, elapsed_ns),
        report_matches(r2, s, elapsed_ns),
    ensures
        reports_agree(r1, r2),
{
}

/// Law: on the empty outcome sequence every count, latency figure and
/// throughput figure is zero and the histograms record nothing — there
/// is no division fault to have.
pub proof fn lemma_empty_report(r: Report, elapsed_ns: u64)
    requires
        report_matches(r, Seq::<Outcome>::empty(), elapsed_ns),
    ensures
        r.total == 0,
        r.successes == 0,
        r.failures == 0,
        r.latency_min_ns == 0,
        r.latency_max_ns == 0,
        r.latency_mean_ns == 0,
        r.latency_p50_ns == 0,
        r.latency_p90_ns == 0,
        r.latency_p95_ns == 0,
        r.latency_p99_ns == 0,
        r.total_bytes == 0,
        r.rps_milli == 0,
        r.bytes_per_sec_milli == 0,
        forall|c: u16| #[trigger] hist_count_status(r.status_hist@, c) == 0,
        forall|k: ErrorKind| #[trigger] hist_count_error(r.error_hist@, k) == 0,
{
    assert(latencies_of(Seq::<Outcome>::empty()) =~= Seq::<u64>::empty());
}

impl Report {
    /// Occurrences of `code` among the successful outcomes.
    pub fn status_count(&self, code: u16) -> (cnt: u64)
        requires
            hist_count_status(self.status_hist@, code) <= u64::MAX,
        ensures
            cnt == hist_count_status(self.status_hist@, code),
    {
        let ghost h = self.status_hist@;
        let n = self.status_hist.len();
        let mut acc: u128 = 0;
        let mut k: usize = 0;
        while k < n
            invariant
                k <= n,
                n == h.len(),
                h == self.status_hist@,
                acc == hist_count_status(h.take(k as int), code),
                acc <= (k as int) * (u64::MAX as int),
            decreases n - k,
        {
            proof {
                assert(h.take(k as int + 1).drop_last() =~= h.take(k as int));
                assert(h.take(k as int + 1).last() == h[k as int]);
                assert((k as int + 1) * (u64::MAX as int)
                    == (k as int) * (u64::MAX as int) + (u64::MAX as int)) by (nonlinear_arith);
                lemma_mul_inequality(k as int + 1, 0x1_0000_0000_0000_0000, u64::MAX as int);
            }
            let pair = self.status_hist[k];
            if pair.0 == code {
                acc = acc + (pair.1 as u128);
            }
            k += 1;
        }
        proof {
            assert(h.take(n as int) =~= h);
        }
        acc as u64
    }

    /// Occurrences of `kind` among the failed outcomes.
    pub fn error_count(&self, kind: ErrorKind) -> (cnt: u64)
        requires
            hist_count_error(self.error_hist@, kind) <= u64::MAX,
        ensures
            cnt == hist_count_error(self.error_hist@, kind),
    {
        let ghost h = self.error_hist@;
        let n = self.error_hist.len();
        let mut acc: u128 = 0;
        let mut k: usize = 0;
        while k < n
            invariant
                k <= n,
                n == h.len(),
                h == self.error_hist@,
                acc == hist_count_error(h.take(k as int), kind),
                acc <= (k as int) * (u64::MAX as int),
            decreases n - k,
        {
            proof {
                assert(h.take(k as int + 1).drop_last() =~= h.take(k as int));
                assert(h.take(k as int + 1).last() == h[k as int]);
                assert((k as int + 1) * (u64::MAX as int)
                    == (k as int) * (u64::MAX as int) + (u64::MAX as int)) by (nonlinear_arith);
                lemma_mul_inequality(k as int + 1, 0x1_0000_0000_0000_0000, u64::MAX as int);
            }
            let pair = self.error_hist[k];
            if pair.0 == kind {
                acc = acc + (pair.1 as u128);
            }
            k += 1;
        }
        proof {
            assert(h.take(n as int) =~= h);
        }
        acc as u64
    }
}

/// Computes the report for a finite outcome sequence and the elapsed
/// wall time. Pure and total: the empty and the all-failure sequences
/// yield zero counts and placeholders, never a fault.
#[verifier::rlimit(100)]
pub fn summarize(outcomes: &Vec<Outcome>, elapsed_ns: u64) -> (r: Report)
    requires
        forall|i: int| 0 <= i < outcomes@.len() ==> (#[trigger] outcomes@[i]).wf(),
    ensures
        report_matches(r, outcomes@, elapsed_ns),
{
    let ghost full = outcomes@;
    let n = outcomes.len();
    let mut successes: u64 = 0;
    let mut bytes: u64 = 0;
    let mut lat_sum: u128 = 0;
    let mut lat_min: u64 = 0;
    let mut lat_max: u64 = 0;
    let mut lats: Vec<u64> = Vec::new();
    let mut shist: Vec<(u16, u64)> = Vec::new();
    let mut ehist: Vec<(ErrorKind, u64)> = Vec::new();
    let mut i: usize = 0;
    while i < n
        invariant
            i <= n,
            n == full.len(),
            full == outcomes@,
            forall|t: int| 0 <= t < full.len() ==> (#[trigger] full[t]).wf(),
            successes == count_successes(full.take(i as int)),
            successes <= i,
            lats@ == latencies_of(full.take(i as int)),
            lats@.len() <= i,
            bytes == sat64(bytes_total(full.take(i as int))),
            bytes_total(full.take(i as int)) >= 0,
            lat_sum == sum_of(lats@),
            lat_sum <= lats@.len() * (u64::MAX as int),
            lats@.len() == 0 ==> lat_min == 0 && lat_max == 0,
            lats@.len() > 0 ==> lat_min == min_of(lats@) && lat_max == max_of(lats@),
            forall|c: u16| #[trigger] hist_count_status(shist@, c)
                == count_status(full.take(i as int), c),
            forall|j: int| 0 <= j < shist@.len() ==> (#[trigger] shist@[j]).1 <= i as int,
            forall|k: ErrorKind| #[trigger] hist_count_error(ehist@, k)
                == count_error(full.take(i as int), k),
            forall|j: int| 0 <= j < ehist@.len() ==> (#[trigger] ehist@[j]).1 <= i as int,
        decreases n - i,
    {
        let ghost p = full.take(i as int);
        let ghost p1 = full.take(i as int + 1);
        proof {
            assert(p1.drop_last() =~= p);
            assert(p1.last() == full[i as int]);
        }
        let o = outcomes[i];
        match o {
            Outcome::Success(rr) => {
                let lat = rr.end_ns - rr.start_ns;
                proof {
                    assert(latencies_of(p1) =~= lats@.push(lat));
                    assert(lats@.push(lat).drop_last() =~= lats@);
                    assert((lats@.len() + 1) * (u64::MAX as int)
                        == lats@.len() * (u64::MAX as int) + (u64::MAX as int))
                        by (nonlinear_arith);
                    lemma_mul_inequality(
                        lats@.len() as int + 1,
                        0x1_0000_0000_0000_0000,
                        u64::MAX as int,
                    );
                }
                if lats.len() == 0 {
                    lat_min = lat;
                    lat_max = lat;
                } else {
                    if lat < lat_min {
                        lat_min = lat;
                    }
                    if lat > lat_max {
                        lat_max = lat;
                    }
                }
                lat_sum = lat_sum + (lat as u128);
                lats.push(lat);
                successes = successes + 1;
                let add = rr.len_bytes;
                if bytes <= u64::MAX - add {
                    bytes = bytes + add;
                } else {
                    bytes = u64::MAX;
                }
                bump_status(&mut shist, rr.status, Ghost(i as int));
            },
            Outcome::Failure { kind, .. } => {
                proof {
                    assert(latencies_of(p1) =~= lats@);
                }
                bump_error(&mut ehist, kind, Ghost(i as int));
            },
        }
        i += 1;
    }
    proof {
        assert(full.take(n as int) =~= full);
    }
    let total: u64 = n as u64;
    let failures: u64 = total - successes;
    let ghost lats_orig = lats@;
    sort_latencies(&mut lats);
    proof {
        lemma_sorted_version_unique(lats_orig, lats@);
    }
    let cnt = lats.len();
    let mut mean: u64 = 0;
    let mut p50: u64 = 0;
    let mut p90: u64 = 0;
    let mut p95: u64 = 0;
    let mut p99: u64 = 0;
    if cnt > 0 {
        proof {
            lemma_div_is_ordered(
                lat_sum as int,
                lats_orig.len() * (u64::MAX as int),
                lats_orig.len() as int,
            );
            lemma_div_by_multiple(u64::MAX as int, lats_orig.len() as int);
            assert(lats_orig.len() * (u64::MAX as int) == (u64::MAX as int) * lats_orig.len())
                by (nonlinear_arith);
        }
        mean = (lat_sum / (cnt as u128)) as u64;
        p50 = percentile_from_sorted(&lats, 50);
        p90 = percentile_from_sorted(&lats, 90);
        p95 = percentile_from_sorted(&lats, 95);
        p99 = percentile_from_sorted(&lats, 99);
    }
    let rps_milli = rate_milli(successes, elapsed_ns);
    let bytes_per_sec_milli = rate_milli(bytes, elapsed_ns);
    Report {
        total,
        successes,
        failures,
        elapsed_ns,
        latency_min_ns: lat_min,
        latency_max_ns: lat_max,
        latency_mean_ns: mean,
        latency_p50_ns: p50,
        latency_p90_ns: p90,
        latency_p95_ns: p95,
        latency_p99_ns: p99,
        total_bytes: bytes,
        rps_milli,
        bytes_per_sec_milli,
        status_hist: shist,
        error_hist: ehist,
    }
}

} // verus!
