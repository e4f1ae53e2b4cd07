use crate::text::text_eq;
use std::collections::VecDeque;
use vstd::prelude::*;

verus! {

/// Upper bound on the number of recent requests kept in memory.
pub const REQUEST_LOG_CAP: usize = 5000;

/// One finished request, as shown by the recent-request log.
pub struct RequestLogEntry {
    pub ts_ms: u64,
    pub client_ip: String,
    pub method: String,
    pub path: String,
    pub model: Option<String>,
    pub upstream_id: Option<String>,
    pub status: u16,
    pub latency_ms: u64,
    pub req_bytes: usize,
    pub resp_bytes: usize,
    pub prompt_tokens: Option<u64>,
    pub completion_tokens: Option<u64>,
    pub total_tokens: Option<u64>,
}

/// Counters of one time bucket.
#[derive(Clone, Copy, Debug, PartialEq, Eq)]
pub struct MetricsBucket {
    pub ts_ms: u64,
    pub total: u64,
    pub success: u64,
    pub failure: u64,
    pub ignored: u64,
}

/// Width of the buckets a metrics query asks for.
#[derive(Clone, Copy, Debug, PartialEq, Eq)]
pub enum MetricsWindow {
    Minute,
    Hour,
    Day,
}

/// `(success, failure, ignored)` increments for a response status.
pub open spec fn status_class(status: u16) -> (u64, u64, u64) {
    if 200 <= status && status < 300 {
        (1, 0, 0)
    } else if status == 404 {
        (0, 0, 1)
    } else {
        (0, 1, 0)
    }
}

/// `2xx` counts as success, `404` as ignored, anything else as failure.
pub fn classify_status(status: u16) -> (r: (u64, u64, u64))
    ensures
        r == status_class(status),
{
    if 200 <= status && status < 300 {
        (1, 0, 0)
    } else if status == 404 {
        (0, 0, 1)
    } else {
        (0, 1, 0)
    }
}

/// Every status falls in exactly one of success, failure and ignored.
pub proof fn lemma_status_class_partition(status: u16)
    ensures
        ({
            let (s, f, i) = status_class(status);
            &&& s + f + i == 1
            &&& s <= 1 && f <= 1 && i <= 1
            &&& (s == 1 <==> 200 <= status < 300)
            &&& (i == 1 <==> status == 404)
            &&& (f == 1 <==> !(200 <= status < 300) && status != 404)
        }),
{
}

pub open spec fn sat_add(x: u64, y: u64) -> u64 {
    if x + y > u64::MAX {
        u64::MAX
    } else {
        (x + y) as u64
    }
}

pub open spec fn empty_bucket(ts_ms: u64) -> MetricsBucket {
    MetricsBucket { ts_ms, total: 0, success: 0, failure: 0, ignored: 0 }
}

pub open spec fn bumped(b: MetricsBucket, class: (u64, u64, u64)) -> MetricsBucket {
    MetricsBucket {
        ts_ms: b.ts_ms,
        total: sat_add(b.total, 1),
        success: sat_add(b.success, class.0),
        failure: sat_add(b.failure, class.1),
        ignored: sat_add(b.ignored, class.2),
    }
}

/// Start of the bucket of width `step` that holds `ts`.
pub open spec fn bucket_floor(ts: u64, step: u64) -> u64
    recommends
        step > 0,
{
    (ts - ts % step) as u64
}

/// The empty buckets that follow `last` up to and including `start`.
pub open spec fn gap_buckets(last: u64, start: u64, step: u64) -> Seq<MetricsBucket>
    recommends
        step > 0,
{
    if start > last {
        Seq::new(
            ((start - last) / step as int) as nat,
            |i: int| empty_bucket((last + (i + 1) * step) as u64),
        )
    } else {
        Seq::empty()
    }
}

/// The buckets once the one holding `start` exists as the last one.
pub open spec fn padded(b: Seq<MetricsBucket>, start: u64, step: u64) -> Seq<MetricsBucket> {
    if b.len() == 0 {
        seq![empty_bucket(start)]
    } else {
        b + gap_buckets(b.last().ts_ms, start, step)
    }
}

/// Keeps the `cap` newest buckets.
pub open spec fn keep_last<T>(b: Seq<T>, cap: nat) -> Seq<T> {
    if b.len() > cap {
        b.subrange(b.len() - cap, b.len() as int)
    } else {
        b
    }
}

/// The buckets after one request at `ts` with outcome `class` is counted.
pub open spec fn updated_buckets(
    b: Seq<MetricsBucket>,
    ts: u64,
    step: u64,
    cap: nat,
    class: (u64, u64, u64),
) -> Seq<MetricsBucket> {
    let p = padded(b, bucket_floor(ts, step), step);
    keep_last(p.update(p.len() - 1, bumped(p.last(), class)), cap)
}

/// Bucket start times strictly increase, oldest first.
pub open spec fn increasing(b: Seq<MetricsBucket>) -> bool {
    forall|i: int, j: int| 0 <= i < j < b.len() ==> (#[trigger] b[i]).ts_ms < (#[trigger] b[j]).ts_ms
}

/// Counting a request keeps the series ordered by start time.
pub proof fn lemma_updated_increasing(b: Seq<MetricsBucket>, ts: u64, step: u64, cap: nat, class: (u64, u64, u64))
    requires
        increasing(b),
        step > 0,
    ensures
        increasing(updated_buckets(b, ts, step, cap, class)),
{
    let start = bucket_floor(ts, step);
    assert(ts % step <= ts) by (nonlinear_arith) requires step > 0;
    let p = padded(b, start, step);
    assert(increasing(p)) by {
        if b.len() > 0 {
            let last = b.last().ts_ms;
            let g = gap_buckets(last, start, step);
            if start > last {
                assert forall|i: int| 0 <= i < g.len() implies (#[trigger] g[i]).ts_ms == last + (i + 1) * step by {
                    assert((i + 1) * step <= start - last) by (nonlinear_arith)
                        requires 0 <= i, i < (start - last) / step as int, step > 0, start > last;
                }
                assert forall|i: int, j: int| 0 <= i < j < p.len() implies (#[trigger] p[i]).ts_ms < (#[trigger] p[j]).ts_ms by {
                    if j < b.len() {
                    } else if i < b.len() {
                        assert(p[j] == g[j - b.len()]);
                        assert(b[i].ts_ms <= last);
                        assert((j - b.len() + 1) * step > 0) by (nonlinear_arith) requires j - b.len() >= 0, step > 0;
                    } else {
                        assert(p[i] == g[i - b.len()] && p[j] == g[j - b.len()]);
                        assert((i - b.len() + 1) * step < (j - b.len() + 1) * step) by (nonlinear_arith)
                            requires i < j, step > 0;
                    }
                }
            } else {
                assert(g.len() == 0);
                assert(p =~= b);
            }
        }
    }
    let q = p.update(p.len() - 1, bumped(p.last(), class));
    assert(increasing(q)) by {
        assert forall|i: int, j: int| 0 <= i < j < q.len() implies (#[trigger] q[i]).ts_ms < (#[trigger] q[j]).ts_ms by {
            assert(q[i].ts_ms == p[i].ts_ms && q[j].ts_ms == p[j].ts_ms);
        }
    }
    let r = keep_last(q, cap);
    assert forall|i: int, j: int| 0 <= i < j < r.len() implies (#[trigger] r[i]).ts_ms < (#[trigger] r[j]).ts_ms by {
        if q.len() > cap {
            assert(r[i] == q[q.len() - cap + i] && r[j] == q[q.len() - cap + j]);
        }
    }
}

fn add_sat(x: u64, y: u64) -> (r: u64)
    ensures
        r == sat_add(x, y),
{
    if x > u64::MAX - y {
        u64::MAX
    } else {
        x + y
    }
}

/// Counts one request at `ts_ms` in the bucket series of width `step_ms`,
/// opening empty buckets for the time that passed and keeping at most `cap`.
pub fn update_bucket(
    buckets: &mut VecDeque<MetricsBucket>,
    ts_ms: u64,
    step_ms: u64,
    cap: usize,
    success: u64,
    failure: u64,
    ignored: u64,
)
    requires
        step_ms > 0,
        cap > 0,
    ensures
        final(buckets)@ == updated_buckets(
            old(buckets)@,
            ts_ms,
            step_ms,
            cap as nat,
            (success, failure, ignored),
        ),
{
    assert(ts_ms % step_ms <= ts_ms) by (nonlinear_arith)
        requires
            step_ms > 0,
    ;
    let bucket_start = ts_ms - (ts_ms % step_ms);
    let ghost orig = buckets@;
    if buckets.len() == 0 {
        buckets.push_back(MetricsBucket { ts_ms: bucket_start, total: 0, success: 0, failure: 0, ignored: 0 });
        assert(buckets@ =~= padded(orig, bucket_start, step_ms));
    } else {
        let last_start = buckets[buckets.len() - 1].ts_ms;
        if bucket_start > last_start {
            let count: u64 = (bucket_start - last_start) / step_ms;
            let ghost want = gap_buckets(last_start, bucket_start, step_ms);
            let mut k: u64 = 0;
            while k < count
                invariant
                    step_ms > 0,
                    last_start < bucket_start,
                    count == (bucket_start - last_start) / step_ms as int,
                    want == gap_buckets(last_start, bucket_start, step_ms),
                    want.len() == count,
                    k <= count,
                    buckets@ == orig + want.subrange(0, k as int),
                decreases count - k,
            {
                proof {
                    assert((k + 1) * step_ms <= bucket_start - last_start) by (nonlinear_arith)
                        requires
                            k + 1 <= count,
                            count == (bucket_start - last_start) / step_ms as int,
                            step_ms > 0,
                            last_start < bucket_start,
                    ;
                }
                let next_start: u64 = last_start + (k + 1) * step_ms;
                buckets.push_back(MetricsBucket { ts_ms: next_start, total: 0, success: 0, failure: 0, ignored: 0 });
                assert(buckets@ =~= orig + want.subrange(0, k + 1));
                k = k + 1;
            }
            assert(buckets@ =~= padded(orig, bucket_start, step_ms));
        } else {
            assert(buckets@ =~= padded(orig, bucket_start, step_ms));
        }
    }
    let ghost p = buckets@;
    let last = buckets.pop_back().unwrap();
    buckets.push_back(MetricsBucket {
        ts_ms: last.ts_ms,
        total: add_sat(last.total, 1),
        success: add_sat(last.success, success),
        failure: add_sat(last.failure, failure),
        ignored: add_sat(last.ignored, ignored),
    });
    assert(buckets@ =~= p.update(p.len() - 1, bumped(p.last(), (success, failure, ignored))));
    let ghost q = buckets@;
    while buckets.len() > cap
        invariant
            cap > 0,
            q.len() >= buckets@.len(),
            buckets@ =~= q.subrange(q.len() - buckets@.len(), q.len() as int),
            buckets@.len() < q.len() ==> buckets@.len() >= cap,
        decreases buckets@.len(),
    {
        buckets.pop_front();
    }
    assert(buckets@ =~= keep_last(q, cap as nat));
}

impl MetricsWindow {
    /// `"hour"` and `"day"` name their windows; anything else means minutes.
    pub fn from_str(s: &str) -> (r: MetricsWindow)
        ensures
            r == (if s@ == "hour"@ {
                MetricsWindow::Hour
            } else if s@ == "day"@ {
                MetricsWindow::Day
            } else {
                MetricsWindow::Minute
            }),
    {
        if text_eq(s, "hour") {
            MetricsWindow::Hour
        } else if text_eq(s, "day") {
            MetricsWindow::Day
        } else {
            MetricsWindow::Minute
        }
    }

    pub fn as_str(&self) -> (r: &'static str)
        ensures
            r@ == (match *self {
                MetricsWindow::Minute => "minute"@,
                MetricsWindow::Hour => "hour"@,
                MetricsWindow::Day => "day"@,
            }),
    {
        match self {
            MetricsWindow::Minute => "minute",
            MetricsWindow::Hour => "hour",
            MetricsWindow::Day => "day",
        }
    }
}

/// Per-minute, per-hour and per-day bucket series.
pub struct RequestMetrics {
    minute: VecDeque<MetricsBucket>,
    hour: VecDeque<MetricsBucket>,
    day: VecDeque<MetricsBucket>,
}

pub const MINUTE_MS: u64 = 60_000;
pub const HOUR_MS: u64 = 3_600_000;
pub const DAY_MS: u64 = 86_400_000;
pub const MINUTE_BUCKETS: usize = 60;
pub const HOUR_BUCKETS: usize = 48;
pub const DAY_BUCKETS: usize = 30;

impl RequestMetrics {
    /// Each series is ordered by start time, oldest first.
    pub open spec fn wf(&self) -> bool {
        increasing(self.minute_view()) && increasing(self.hour_view()) && increasing(self.day_view())
    }

    pub closed spec fn minute_view(&self) -> Seq<MetricsBucket> {
        self.minute@
    }

    pub closed spec fn hour_view(&self) -> Seq<MetricsBucket> {
        self.hour@
    }

    pub closed spec fn day_view(&self) -> Seq<MetricsBucket> {
        self.day@
    }

    pub open spec fn window_view(&self, w: MetricsWindow) -> Seq<MetricsBucket> {
        match w {
            MetricsWindow::Minute => self.minute_view(),
            MetricsWindow::Hour => self.hour_view(),
            MetricsWindow::Day => self.day_view(),
        }
    }

    pub fn new() -> (r: RequestMetrics)
        ensures
            r.wf(),
            r.minute_view().len() == 0,
            r.hour_view().len() == 0,
            r.day_view().len() == 0,
    {
        RequestMetrics { minute: VecDeque::new(), hour: VecDeque::new(), day: VecDeque::new() }
    }

    /// Counts one finished request in all three series.
    pub fn update(&mut self, entry: &RequestLogEntry)
        requires
            old(self).wf(),
        ensures
            final(self).wf(),
            final(self).minute_view() == updated_buckets(
                old(self).minute_view(),
                entry.ts_ms,
                MINUTE_MS,
                MINUTE_BUCKETS as nat,
                status_class(entry.status),
            ),
            final(self).hour_view() == updated_buckets(
                old(self).hour_view(),
                entry.ts_ms,
                HOUR_MS,
                HOUR_BUCKETS as nat,
                status_class(entry.status),
            ),
            final(self).day_view() == updated_buckets(
                old(self).day_view(),
                entry.ts_ms,
                DAY_MS,
                DAY_BUCKETS as nat,
                status_class(entry.status),
            ),
    {
        let (success, failure, ignored) = classify_status(entry.status);
        let ts_ms = entry.ts_ms;
        update_bucket(&mut self.minute, ts_ms, MINUTE_MS, MINUTE_BUCKETS, success, failure, ignored);
        update_bucket(&mut self.hour, ts_ms, HOUR_MS, HOUR_BUCKETS, success, failure, ignored);
        update_bucket(&mut self.day, ts_ms, DAY_MS, DAY_BUCKETS, success, failure, ignored);
        proof {
            lemma_updated_increasing(old(self).minute_view(), ts_ms, MINUTE_MS, MINUTE_BUCKETS as nat, (success, failure, ignored));
            lemma_updated_increasing(old(self).hour_view(), ts_ms, HOUR_MS, HOUR_BUCKETS as nat, (success, failure, ignored));
            lemma_updated_increasing(old(self).day_view(), ts_ms, DAY_MS, DAY_BUCKETS as nat, (success, failure, ignored));
        }
    }

    /// The buckets of one window, oldest first.
    pub fn snapshot(&self, window: MetricsWindow) -> (r: Vec<MetricsBucket>)
        ensures
            r@ == self.window_view(window),
            self.wf() ==> increasing(r@),
    {
        let src = match window {
            MetricsWindow::Minute => &self.minute,
            MetricsWindow::Hour => &self.hour,
            MetricsWindow::Day => &self.day,
        };
        let mut out: Vec<MetricsBucket> = Vec::new();
        let mut i: usize = 0;
        while i < src.len()
            invariant
                i <= src@.len(),
                src@ == self.window_view(window),
                out@ == src@.subrange(0, i as int),
            decreases src@.len() - i,
        {
            out.push(src[i]);
            i = i + 1;
            assert(out@ =~= src@.subrange(0, i as int));
        }
        assert(out@ =~= src@);
        out
    }
}

impl RequestLogEntry {
    /// A field-by-field copy.
    pub fn duplicate(&self) -> (r: RequestLogEntry)
        ensures
            r == *self,
    {
        RequestLogEntry {
            ts_ms: self.ts_ms,
            client_ip: self.client_ip.clone(),
            method: self.method.clone(),
            path: self.path.clone(),
            model: match &self.model {
                Some(m) => Some(m.clone()),
                None => None,
            },
            upstream_id: match &self.upstream_id {
                Some(u) => Some(u.clone()),
                None => None,
            },
            status: self.status,
            latency_ms: self.latency_ms,
            req_bytes: self.req_bytes,
            resp_bytes: self.resp_bytes,
            prompt_tokens: self.prompt_tokens,
            completion_tokens: self.completion_tokens,
            total_tokens: self.total_tokens,
        }
    }
}

/// The recent-request ring buffer and the bucketed counters fed by it.
pub struct RequestsLog {
    entries: VecDeque<RequestLogEntry>,
    metrics: RequestMetrics,
    cap: usize,
}

impl RequestsLog {
    pub closed spec fn entries_view(&self) -> Seq<RequestLogEntry> {
        self.entries@
    }

    pub closed spec fn cap_view(&self) -> nat {
        self.cap as nat
    }

    pub closed spec fn metrics_view(&self) -> RequestMetrics {
        self.metrics
    }

    pub open spec fn wf(&self) -> bool {
        self.cap_view() > 0 && self.entries_view().len() <= self.cap_view() && self.metrics_view().wf()
    }

    pub fn new(cap: usize) -> (r: RequestsLog)
        requires
            cap > 0,
        ensures
            r.wf(),
            r.entries_view().len() == 0,
            r.cap_view() == cap,
            r.metrics_view().minute_view().len() == 0,
            r.metrics_view().hour_view().len() == 0,
            r.metrics_view().day_view().len() == 0,
    {
        RequestsLog { entries: VecDeque::new(), metrics: RequestMetrics::new(), cap }
    }

    /// Appends an entry, evicting the oldest ones beyond the capacity, and
    /// counts it in the metrics.
    pub fn record(&mut self, entry: RequestLogEntry)
        requires
            old(self).wf(),
        ensures
            final(self).wf(),
            final(self).cap_view() == old(self).cap_view(),
            final(self).entries_view() == keep_last(
                old(self).entries_view().push(entry),
                old(self).cap_view(),
            ),
            final(self).metrics_view().minute_view() == updated_buckets(
                old(self).metrics_view().minute_view(),
                entry.ts_ms,
                MINUTE_MS,
                MINUTE_BUCKETS as nat,
                status_class(entry.status),
            ),
            final(self).metrics_view().hour_view() == updated_buckets(
                old(self).metrics_view().hour_view(),
                entry.ts_ms,
                HOUR_MS,
                HOUR_BUCKETS as nat,
                status_class(entry.status),
            ),
            final(self).metrics_view().day_view() == updated_buckets(
                old(self).metrics_view().day_view(),
                entry.ts_ms,
                DAY_MS,
                DAY_BUCKETS as nat,
                status_class(entry.status),
            ),
    {
        self.metrics.update(&entry);
        let ghost m = self.metrics;
        self.entries.push_back(entry);
        let ghost q = self.entries@;
        while self.entries.len() > self.cap
            invariant
                self.cap > 0,
                self.cap == old(self).cap,
                self.metrics == m,
                q == old(self).entries@.push(entry),
                q.len() >= self.entries@.len(),
                self.entries@ =~= q.subrange(q.len() - self.entries@.len(), q.len() as int),
                self.entries@.len() < q.len() ==> self.entries@.len() >= self.cap,
            decreases self.entries@.len(),
        {
            self.entries.pop_front();
        }
        assert(self.entries@ =~= keep_last(q, self.cap as nat));
    }

    /// Up to `limit` entries, newest first.
    pub fn recent(&self, limit: usize) -> (r: Vec<RequestLogEntry>)
        ensures
            r@.len() == if limit < self.entries_view().len() {
                limit as nat
            } else {
                self.entries_view().len()
            },
            forall|i: int|
                0 <= i < r@.len() ==> r@[i] == self.entries_view()[self.entries_view().len() - 1
                    - i],
    {
        let n = self.entries.len();
        let mut out: Vec<RequestLogEntry> = Vec::new();
        let mut i: usize = 0;
        while i < n && i < limit
            invariant
                n == self.entries@.len(),
                i <= n,
                i <= limit,
                out@.len() == i,
                forall|j: int| 0 <= j < i ==> out@[j] == self.entries@[n - 1 - j],
            decreases n - i,
        {
            out.push(self.entries[n - 1 - i].duplicate());
            i = i + 1;
        }
        out
    }

    /// The buckets of one window, oldest first.
    pub fn metrics_snapshot(&self, window: MetricsWindow) -> (r: Vec<MetricsBucket>)
        ensures
            r@ == self.metrics_view().window_view(window),
            self.wf() ==> increasing(r@),
    {
        self.metrics.snapshot(window)
    }
}

/// The log never holds more than its capacity, and it drops the oldest
/// entries first.
pub proof fn lemma_ring_bounded_fifo(old_entries: Seq<RequestLogEntry>, e: RequestLogEntry, cap: nat)
    requires
        cap > 0,
        old_entries.len() <= cap,
    ensures
        keep_last(old_entries.push(e), cap).len() <= cap,
        keep_last(old_entries.push(e), cap).last() == e,
        old_entries.len() == cap ==> keep_last(old_entries.push(e), cap) =~= old_entries.subrange(
            1,
            cap as int,
        ).push(e),
        old_entries.len() < cap ==> keep_last(old_entries.push(e), cap) == old_entries.push(e),
{
}

} // verus!
