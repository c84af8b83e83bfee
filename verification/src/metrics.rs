//! Counters and a latency histogram for broker operations, rendered in the
//! Prometheus text format. Counters wrap around on overflow.

use crate::text::{decimal, decimal_string};
use vstd::prelude::*;

verus! {

/// The upper bounds (in ms) of the latency histogram buckets.
pub open spec fn latency_bounds() -> Seq<u64> {
    seq![1u64, 5u64, 10u64, 25u64, 50u64, 100u64, 250u64, 500u64, 1000u64, 2500u64]
}

fn latency_bound(i: usize) -> (b: u64)
    requires
        i < 10,
    ensures
        b == latency_bounds()[i as int],
{
    let bounds: [u64; 10] = [1u64, 5u64, 10u64, 25u64, 50u64, 100u64, 250u64, 500u64, 1000u64, 2500u64];
    assert(bounds@ =~= latency_bounds());
    bounds[i]
}

#[derive(Debug)]
pub struct BrokerMetrics {
    produce_total: u64,
    produce_bytes: u64,
    fetch_total: u64,
    fetch_bytes: u64,
    fetch_records: u64,
    commit_total: u64,
    request_errors: u64,
    request_latency_sum_ms: u64,
    request_latency_count: u64,
    latency_buckets: Vec<u64>,
}

pub struct MetricsView {
    pub produce_total: u64,
    pub produce_bytes: u64,
    pub fetch_total: u64,
    pub fetch_bytes: u64,
    pub fetch_records: u64,
    pub commit_total: u64,
    pub request_errors: u64,
    pub request_latency_sum_ms: u64,
    pub request_latency_count: u64,
    pub latency_buckets: Seq<u64>,
}

impl View for BrokerMetrics {
    type V = MetricsView;

    closed spec fn view(&self) -> MetricsView {
        MetricsView {
            produce_total: self.produce_total,
            produce_bytes: self.produce_bytes,
            fetch_total: self.fetch_total,
            fetch_bytes: self.fetch_bytes,
            fetch_records: self.fetch_records,
            commit_total: self.commit_total,
            request_errors: self.request_errors,
            request_latency_sum_ms: self.request_latency_sum_ms,
            request_latency_count: self.request_latency_count,
            latency_buckets: self.latency_buckets@,
        }
    }
}

/// The bucket lines for the first `n` buckets.
pub open spec fn bucket_lines(buckets: Seq<u64>, n: nat) -> Seq<char>
    decreases n,
{
    if n == 0 {
        Seq::empty()
    } else {
        bucket_lines(buckets, (n - 1) as nat) + "dmq_request_latency_ms_bucket{le=\""@ + decimal(
            latency_bounds()[n - 1] as nat,
        ) + "\"} "@ + decimal(buckets[n - 1] as nat) + "\n"@
    }
}

/// The Prometheus text of the metrics.
pub open spec fn rendered(v: MetricsView) -> Seq<char> {
    "# HELP dmq_produce_total Total produce requests\n# TYPE dmq_produce_total counter\ndmq_produce_total "@ + decimal(v.produce_total as nat) + "\n"@ + "# HELP dmq_produce_bytes Total bytes produced\n# TYPE dmq_produce_bytes counter\ndmq_produce_bytes "@ + decimal(v.produce_bytes as nat) + "\n"@ + "# HELP dmq_fetch_total Total fetch requests\n# TYPE dmq_fetch_total counter\ndmq_fetch_total "@ + decimal(v.fetch_total as nat) + "\n"@ + "# HELP dmq_fetch_bytes Total bytes fetched\n# TYPE dmq_fetch_bytes counter\ndmq_fetch_bytes "@ + decimal(v.fetch_bytes as nat) + "\n"@ + "# HELP dmq_fetch_records Total records returned by fetch\n# TYPE dmq_fetch_records counter\ndmq_fetch_records "@ + decimal(v.fetch_records as nat) + "\n"@ + "# HELP dmq_commit_total Total offset commits\n# TYPE dmq_commit_total counter\ndmq_commit_total "@ + decimal(v.commit_total as nat) + "\n"@ + "# HELP dmq_request_errors Total request errors\n# TYPE dmq_request_errors counter\ndmq_request_errors "@ + decimal(v.request_errors as nat) + "\n"@ + "# HELP dmq_request_latency_ms Request latency sum in milliseconds\n# TYPE dmq_request_latency_ms counter\ndmq_request_latency_ms_sum "@ + decimal(v.request_latency_sum_ms as nat) + "\n"@ + "dmq_request_latency_ms_count "@ + decimal(v.request_latency_count as nat) + "\n"@ + "# HELP dmq_request_latency_ms_bucket Request latency histogram buckets\n"@ + "# TYPE dmq_request_latency_ms_bucket counter\n"@ + bucket_lines(v.latency_buckets, 10)
        + "dmq_request_latency_ms_bucket{le=\"+Inf\"} "@ + decimal(v.request_latency_count as nat) + "\n"@
}

/// Appends `text`, the decimal form of `value`, and a newline.
fn push_line(out: &mut String, text: &str, value: u64)
    ensures
        final(out)@ == old(out)@ + text@ + decimal(value as nat) + "\n"@,
{
    out.append(text);
    let d = decimal_string(value);
    out.append(d.as_str());
    out.append("\n");
}

impl BrokerMetrics {
    pub closed spec fn wf(&self) -> bool {
        self.latency_buckets@.len() == 10
    }

    pub fn new() -> (m: BrokerMetrics)
        ensures
            m.wf(),
            m@ == (MetricsView {
                produce_total: 0,
                produce_bytes: 0,
                fetch_total: 0,
                fetch_bytes: 0,
                fetch_records: 0,
                commit_total: 0,
                request_errors: 0,
                request_latency_sum_ms: 0,
                request_latency_count: 0,
                latency_buckets: Seq::new(10, |i: int| 0u64),
            }),
    {
        let m = BrokerMetrics {
            produce_total: 0,
            produce_bytes: 0,
            fetch_total: 0,
            fetch_bytes: 0,
            fetch_records: 0,
            commit_total: 0,
            request_errors: 0,
            request_latency_sum_ms: 0,
            request_latency_count: 0,
            latency_buckets: vec![0u64; 10],
        };
        assert(m.latency_buckets@ =~= Seq::new(10, |i: int| 0u64));
        m
    }

    pub fn record_produce(&mut self, bytes: usize)
        ensures
            final(self)@ == (MetricsView {
                produce_total: old(self)@.produce_total.wrapping_add(1),
                produce_bytes: old(self)@.produce_bytes.wrapping_add(bytes as u64),
                ..old(self)@
            }),
            final(self).wf() == old(self).wf(),
    {
        self.produce_total = self.produce_total.wrapping_add(1);
        self.produce_bytes = self.produce_bytes.wrapping_add(bytes as u64);
    }

    pub fn record_fetch(&mut self, bytes: usize, records: usize)
        ensures
            final(self)@ == (MetricsView {
                fetch_total: old(self)@.fetch_total.wrapping_add(1),
                fetch_bytes: old(self)@.fetch_bytes.wrapping_add(bytes as u64),
                fetch_records: old(self)@.fetch_records.wrapping_add(records as u64),
                ..old(self)@
            }),
            final(self).wf() == old(self).wf(),
    {
        self.fetch_total = self.fetch_total.wrapping_add(1);
        self.fetch_bytes = self.fetch_bytes.wrapping_add(bytes as u64);
        self.fetch_records = self.fetch_records.wrapping_add(records as u64);
    }

    pub fn record_commit(&mut self)
        ensures
            final(self)@ == (MetricsView { commit_total: old(self)@.commit_total.wrapping_add(1), ..old(self)@ }),
            final(self).wf() == old(self).wf(),
    {
        self.commit_total = self.commit_total.wrapping_add(1);
    }

    pub fn record_error(&mut self)
        ensures
            final(self)@ == (MetricsView { request_errors: old(self)@.request_errors.wrapping_add(1), ..old(self)@ }),
            final(self).wf() == old(self).wf(),
    {
        self.request_errors = self.request_errors.wrapping_add(1);
    }

    /// Adds a request's latency to the sum, the count, and every bucket whose
    /// bound it does not exceed.
    pub fn record_request_latency(&mut self, latency_ms: u64)
        requires
            old(self).wf(),
        ensures
            final(self).wf(),
            final(self)@ == (MetricsView {
                request_latency_sum_ms: old(self)@.request_latency_sum_ms.wrapping_add(latency_ms),
                request_latency_count: old(self)@.request_latency_count.wrapping_add(1),
                latency_buckets: Seq::new(
                    10,
                    |i: int|
                        if latency_ms <= latency_bounds()[i] {
                            old(self)@.latency_buckets[i].wrapping_add(1)
                        } else {
                            old(self)@.latency_buckets[i]
                        },
                ),
                ..old(self)@
            }),
    {
        self.request_latency_sum_ms = self.request_latency_sum_ms.wrapping_add(latency_ms);
        self.request_latency_count = self.request_latency_count.wrapping_add(1);
        let ghost before = self.latency_buckets@;
        let mut idx: usize = 0;
        while idx < 10
            invariant
                idx <= 10,
                self.latency_buckets@.len() == 10,
                before.len() == 10,
                forall|i: int| 0 <= i < idx ==> #[trigger] self.latency_buckets@[i] == if latency_ms <= latency_bounds()[i] {
                    before[i].wrapping_add(1)
                } else {
                    before[i]
                },
                forall|i: int| idx <= i < 10 ==> #[trigger] self.latency_buckets@[i] == before[i],
                self.produce_total == old(self).produce_total,
                self.produce_bytes == old(self).produce_bytes,
                self.fetch_total == old(self).fetch_total,
                self.fetch_bytes == old(self).fetch_bytes,
                self.fetch_records == old(self).fetch_records,
                self.commit_total == old(self).commit_total,
                self.request_errors == old(self).request_errors,
                self.request_latency_sum_ms == old(self).request_latency_sum_ms.wrapping_add(latency_ms),
                self.request_latency_count == old(self).request_latency_count.wrapping_add(1),
                before == old(self)@.latency_buckets,
            decreases 10 - idx,
        {
            if latency_ms <= latency_bound(idx) {
                let c = self.latency_buckets[idx];
                self.latency_buckets.set(idx, c.wrapping_add(1));
            }
            idx = idx + 1;
        }
        assert(self.latency_buckets@ =~= Seq::new(
            10,
            |i: int|
                if latency_ms <= latency_bounds()[i] {
                    before[i].wrapping_add(1)
                } else {
                    before[i]
                },
        ));
    }

    /// The metrics in the Prometheus text format (see `rendered`).
    pub fn render_prometheus(&self) -> (out: String)
        requires
            self.wf(),
        ensures
            out@ == rendered(self@),
    {
        let mut out = String::new();
        push_line(&mut out, "# HELP dmq_produce_total Total produce requests\n# TYPE dmq_produce_total counter\ndmq_produce_total ", self.produce_total);
        push_line(&mut out, "# HELP dmq_produce_bytes Total bytes produced\n# TYPE dmq_produce_bytes counter\ndmq_produce_bytes ", self.produce_bytes);
        push_line(&mut out, "# HELP dmq_fetch_total Total fetch requests\n# TYPE dmq_fetch_total counter\ndmq_fetch_total ", self.fetch_total);
        push_line(&mut out, "# HELP dmq_fetch_bytes Total bytes fetched\n# TYPE dmq_fetch_bytes counter\ndmq_fetch_bytes ", self.fetch_bytes);
        push_line(&mut out, "# HELP dmq_fetch_records Total records returned by fetch\n# TYPE dmq_fetch_records counter\ndmq_fetch_records ", self.fetch_records);
        push_line(&mut out, "# HELP dmq_commit_total Total offset commits\n# TYPE dmq_commit_total counter\ndmq_commit_total ", self.commit_total);
        push_line(&mut out, "# HELP dmq_request_errors Total request errors\n# TYPE dmq_request_errors counter\ndmq_request_errors ", self.request_errors);
        push_line(&mut out, "# HELP dmq_request_latency_ms Request latency sum in milliseconds\n# TYPE dmq_request_latency_ms counter\ndmq_request_latency_ms_sum ", self.request_latency_sum_ms);
        push_line(&mut out, "dmq_request_latency_ms_count ", self.request_latency_count);
        out.append("# HELP dmq_request_latency_ms_bucket Request latency histogram buckets\n");
        out.append("# TYPE dmq_request_latency_ms_bucket counter\n");
        let ghost head = out@;
        let mut idx: usize = 0;
        while idx < 10
            invariant
                idx <= 10,
                self.latency_buckets@.len() == 10,
                out@ == head + bucket_lines(self@.latency_buckets, idx as nat),
            decreases 10 - idx,
        {
            out.append("dmq_request_latency_ms_bucket{le=\"");
            let b = decimal_string(latency_bound(idx));
            out.append(b.as_str());
            push_line(&mut out, "\"} ", self.latency_buckets[idx]);
            idx = idx + 1;
        }
        push_line(&mut out, "dmq_request_latency_ms_bucket{le=\"+Inf\"} ", self.request_latency_count);
        out
    }
}

impl Default for BrokerMetrics {
    fn default() -> (m: BrokerMetrics)
        ensures
            m.wf(),
    {
        BrokerMetrics::new()
    }
}

} // verus!
