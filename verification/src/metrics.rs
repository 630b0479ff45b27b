//! Counters and latencies, and how they are shown to a monitoring system.
use crate::name_map::NameMap;
use crate::partition::{lemma_wrapped_sum, wrapped};
use crate::text::{
    chars_of, concat3, concat5, decimal, decimal_text, find_text, has_text, owned,
    text_from_utf8_lossy, text_in,
};
use vstd::prelude::*;
use vstd::string::*;
use vstd::utf8::*;

verus! {

/// The upper bounds of the latency buckets, in milliseconds.
pub open spec fn bounds() -> Seq<u64> {
    seq![1, 5, 10, 25, 50, 100, 250, 500, 1000, 2500, 5000]
}

fn bound_at(i: usize) -> (r: u64)
    requires
        i < 11,
    ensures
        r == bounds()[i as int],
{
    if i == 0 {
        1
    } else if i == 1 {
        5
    } else if i == 2 {
        10
    } else if i == 3 {
        25
    } else if i == 4 {
        50
    } else if i == 5 {
        100
    } else if i == 6 {
        250
    } else if i == 7 {
        500
    } else if i == 8 {
        1000
    } else if i == 9 {
        2500
    } else {
        5000
    }
}

/// How often requests took how long. Each sample is counted in the first bucket whose bound it
/// does not exceed, and in none if it exceeds them all.
#[derive(Debug)]
pub struct LatencyHistogram {
    pub buckets: Vec<u64>,
    pub sum_ms: u64,
    pub count: u64,
}

/// A histogram, as values.
#[verifier::ext_equal]
pub struct HistogramView {
    pub buckets: Seq<u64>,
    pub sum_ms: u64,
    pub count: u64,
}

/// A histogram without samples.
pub open spec fn no_samples() -> HistogramView {
    HistogramView { buckets: Seq::new(11, |i: int| 0u64), sum_ms: 0, count: 0 }
}

/// Whether bucket `i` is the first whose bound the sample does not exceed.
pub open spec fn falls_in(ms: u64, i: int) -> bool {
    ms <= bounds()[i] && (i > 0 ==> ms > bounds()[i - 1])
}

/// A histogram with one more sample.
pub open spec fn sampled(h: HistogramView, ms: u64) -> HistogramView {
    HistogramView {
        buckets: Seq::new(
            h.buckets.len(),
            |i: int|
                if falls_in(ms, i) {
                    wrapped(h.buckets[i] + 1)
                } else {
                    h.buckets[i]
                },
        ),
        sum_ms: wrapped(h.sum_ms + ms),
        count: wrapped(h.count + 1),
    }
}

/// A histogram of these samples.
pub open spec fn of_samples(samples: Seq<u64>) -> HistogramView
    decreases samples.len(),
{
    if samples.len() == 0 {
        no_samples()
    } else {
        sampled(of_samples(samples.drop_last()), samples.last())
    }
}

/// The first `n` buckets together.
pub open spec fn total(buckets: Seq<u64>, n: int) -> int
    decreases n,
{
    if n <= 0 {
        0
    } else {
        total(buckets, n - 1) + buckets[n - 1]
    }
}

/// How many of the samples do not exceed a bound.
pub open spec fn at_most(samples: Seq<u64>, bound: u64) -> nat
    decreases samples.len(),
{
    if samples.len() == 0 {
        0
    } else {
        at_most(samples.drop_last(), bound) + (if samples.last() <= bound {
            1nat
        } else {
            0nat
        })
    }
}

/// One line of a histogram.
pub open spec fn bucket_line(name: Seq<char>, prefix: Seq<char>, bound: Seq<char>, n: u64) -> Seq<
    char,
> {
    name + "_bucket{"@ + prefix + "le=\""@ + bound + "\"} "@ + decimal(n as nat) + "\n"@
}

/// The lines of the first `n` buckets. Each counts all samples up to its bound.
pub open spec fn bucket_lines(
    name: Seq<char>,
    prefix: Seq<char>,
    buckets: Seq<u64>,
    n: int,
) -> Seq<char>
    decreases n,
{
    if n <= 0 {
        Seq::empty()
    } else {
        bucket_lines(name, prefix, buckets, n - 1) + bucket_line(
            name,
            prefix,
            decimal(bounds()[n - 1] as nat),
            wrapped(total(buckets, n)),
        )
    }
}

/// What stands in front of the bound in a line.
pub open spec fn label_prefix(labels: Seq<char>) -> Seq<char> {
    if labels.len() == 0 {
        Seq::empty()
    } else {
        labels + ","@
    }
}

/// A histogram as it is shown.
pub open spec fn shown_histogram(h: HistogramView, name: Seq<char>, labels: Seq<char>) -> Seq<char> {
    bucket_lines(name, label_prefix(labels), h.buckets, 11) + bucket_line(
        name,
        label_prefix(labels),
        "+Inf"@,
        h.count,
    ) + (name + "_sum{"@ + labels + "} "@ + decimal(h.sum_ms as nat) + "\n"@) + (name + "_count{"@
        + labels + "} "@ + decimal(h.count as nat) + "\n"@)
}

fn push_bucket_line(out: &mut String, name: &str, prefix: &str, bound: &str, n: u64)
    ensures
        final(out)@ == old(out)@ + bucket_line(name@, prefix@, bound@, n),
{
    let number: String = decimal_text(n);
    let head: String = concat5(name, "_bucket{", prefix, "le=\"", bound);
    let line: String = concat5(head.as_str(), "\"} ", number.as_str(), "\n", "");
    assert(line@ =~= bucket_line(name@, prefix@, bound@, n)) by {
        reveal_strlit("");
    }
    out.append(line.as_str());
}

fn push_total_line(out: &mut String, name: &str, what: &str, labels: &str, n: u64)
    ensures
        final(out)@ == old(out)@ + (name@ + what@ + labels@ + "} "@ + decimal(n as nat) + "\n"@),
{
    let number: String = decimal_text(n);
    let mut line: String = concat5(name, what, labels, "} ", number.as_str());
    line.append("\n");
    out.append(line.as_str());
}

impl LatencyHistogram {
    pub open spec fn view(self) -> HistogramView {
        HistogramView { buckets: self.buckets@, sum_ms: self.sum_ms, count: self.count }
    }

    pub open spec fn wf(self) -> bool {
        self.buckets@.len() == 11
    }

    /// Counts a request that took `elapsed_ms` milliseconds.
    pub fn record(&mut self, elapsed_ms: u64)
        requires
            old(self).wf(),
        ensures
            final(self).wf(),
            final(self)@ == sampled(old(self)@, elapsed_ms),
    {
        let mut i: usize = 0;
        while i < 11 && elapsed_ms > bound_at(i)
            invariant
                i <= 11,
                forall|j: int| 0 <= j < i ==> elapsed_ms > #[trigger] bounds()[j],
                *self == *old(self),
                self.wf(),
            decreases 11 - i,
        {
            i = i + 1;
        }
        proof {
            assert forall|j: int| 0 <= j < 11 implies (#[trigger] falls_in(elapsed_ms, j) <==> j
                == i) by {
                if j < i {
                    assert(elapsed_ms > bounds()[j]);
                } else if j > i {
                    let all = bounds();
                    assert(all[i as int] <= all[j - 1]) by {
                        lemma_bounds_rise(i as int, j - 1);
                    }
                } else if i > 0 {
                    assert(elapsed_ms > bounds()[i - 1]);
                }
            }
        }
        if i < 11 {
            let n: u64 = self.buckets[i].wrapping_add(1);
            self.buckets.set(i, n);
        }
        self.sum_ms = self.sum_ms.wrapping_add(elapsed_ms);
        self.count = self.count.wrapping_add(1);
        proof {
            let want = sampled(old(self)@, elapsed_ms);
            assert forall|j: int| 0 <= j < 11 implies self.buckets@[j] == want.buckets[j] by {
                assert(falls_in(elapsed_ms, j) <==> j == i);
            }
            assert(self.buckets@ =~= want.buckets);
        }
    }

    /// Shows the histogram under a name, with more labels in each line if there are any.
    pub fn render(&self, name: &str, extra_labels: &str, out: &mut String)
        requires
            self.wf(),
        ensures
            final(out)@ == old(out)@ + shown_histogram(self@, name@, extra_labels@),
    {
        let mut prefix: String = owned(extra_labels);
        if !extra_labels.is_empty() {
            prefix.append(",");
        }
        assert(prefix@ =~= label_prefix(extra_labels@));
        let ghost start = out@;
        let mut cumulative: u64 = 0;
        let mut i: usize = 0;
        assert(out@ =~= start + bucket_lines(name@, prefix@, self.buckets@, 0));
        while i < 11
            invariant
                i <= 11,
                self.wf(),
                cumulative == wrapped(total(self.buckets@, i as int)),
                out@ == start + bucket_lines(name@, prefix@, self.buckets@, i as int),
            decreases 11 - i,
        {
            proof {
                lemma_wrapped_sum(total(self.buckets@, i as int), self.buckets@[i as int] as int);
            }
            cumulative = cumulative.wrapping_add(self.buckets[i]);
            let bound: String = decimal_text(bound_at(i));
            push_bucket_line(out, name, prefix.as_str(), bound.as_str(), cumulative);
            proof {
                assert(out@ =~= start + bucket_lines(name@, prefix@, self.buckets@, i + 1));
            }
            i = i + 1;
        }
        push_bucket_line(out, name, prefix.as_str(), "+Inf", self.count);
        push_total_line(out, name, "_sum{", extra_labels, self.sum_ms);
        push_total_line(out, name, "_count{", extra_labels, self.count);
        assert(out@ =~= start + shown_histogram(self@, name@, extra_labels@));
    }
}

impl Default for LatencyHistogram {
    fn default() -> (r: Self)
        ensures
            r.wf(),
            r@ == no_samples(),
    {
        let mut buckets: Vec<u64> = Vec::new();
        let mut i: usize = 0;
        while i < 11
            invariant
                i <= 11,
                buckets@.len() == i,
                forall|j: int| 0 <= j < i ==> buckets@[j] == 0,
            decreases 11 - i,
        {
            buckets.push(0);
            i = i + 1;
        }
        let r = LatencyHistogram { buckets, sum_ms: 0, count: 0 };
        assert(r@ =~= no_samples());
        r
    }
}

proof fn lemma_bounds_rise(i: int, j: int)
    requires
        0 <= i <= j < 11,
    ensures
        bounds()[i] <= bounds()[j],
    decreases j - i,
{
    if i < j {
        lemma_bounds_rise(i, j - 1);
    }
}

/// The counters of one topic.
#[derive(Debug, Clone, Copy, PartialEq, Eq, Structural)]
pub struct TopicMetrics {
    pub produce_bytes_total: u64,
    pub produce_records_total: u64,
    pub fetch_bytes_total: u64,
}

/// The counters of a topic that nothing was counted for.
pub open spec fn no_traffic() -> TopicMetrics {
    TopicMetrics { produce_bytes_total: 0, produce_records_total: 0, fetch_bytes_total: 0 }
}

/// All counters of a broker. They start over when they overflow.
pub struct MetricsCollector {
    pub produce_bytes_total: u64,
    pub fetch_bytes_total: u64,
    pub produce_records_total: u64,
    pub active_connections: u64,
    pub quota_throttled_clients_total: u64,
    pub acl_denied_requests_total: u64,
    pub per_topic: NameMap<TopicMetrics>,
    pub produce_latency_ms: LatencyHistogram,
    pub fetch_latency_ms: LatencyHistogram,
}

/// The counters of a topic.
pub open spec fn traffic(m: Map<Seq<char>, TopicMetrics>, topic: Seq<char>) -> TopicMetrics {
    if m.contains_key(topic) {
        m[topic]
    } else {
        no_traffic()
    }
}

/// One counter as it is shown.
pub open spec fn shown_metric(
    name: Seq<char>,
    help: Seq<char>,
    kind: Seq<char>,
    value: u64,
) -> Seq<char> {
    "# HELP "@ + name + " "@ + help + "\n# TYPE "@ + name + " "@ + kind + "\n"@ + name + " "@
        + decimal(value as nat) + "\n\n"@
}

/// What stands above counters by topic, or above a histogram.
pub open spec fn shown_header(name: Seq<char>, help: Seq<char>, kind: Seq<char>) -> Seq<char> {
    "# HELP "@ + name + " "@ + help + "\n# TYPE "@ + name + " "@ + kind + "\n"@
}

/// Which of a topic's counters is meant.
#[derive(Debug, Clone, Copy, PartialEq, Eq, Structural)]
pub enum TopicCounter {
    ProduceBytes,
    ProduceRecords,
    FetchBytes,
}

impl TopicCounter {
    pub open spec fn spec_of(self, m: TopicMetrics) -> u64 {
        match self {
            TopicCounter::ProduceBytes => m.produce_bytes_total,
            TopicCounter::ProduceRecords => m.produce_records_total,
            TopicCounter::FetchBytes => m.fetch_bytes_total,
        }
    }

    fn of(self, m: &TopicMetrics) -> (r: u64)
        ensures
            r == self.spec_of(*m),
    {
        match self {
            TopicCounter::ProduceBytes => m.produce_bytes_total,
            TopicCounter::ProduceRecords => m.produce_records_total,
            TopicCounter::FetchBytes => m.fetch_bytes_total,
        }
    }
}

/// The line of a topic.
pub open spec fn topic_line(name: Seq<char>, topic: Seq<char>, value: u64) -> Seq<char> {
    name + "{topic=\""@ + topic + "\"} "@ + decimal(value as nat) + "\n"@
}

/// The lines of the first `n` topics.
pub open spec fn topic_lines(
    name: Seq<char>,
    topics: Seq<Seq<char>>,
    values: Seq<TopicMetrics>,
    which: TopicCounter,
    n: int,
) -> Seq<char>
    decreases n,
{
    if n <= 0 {
        Seq::empty()
    } else {
        topic_lines(name, topics, values, which, n - 1) + topic_line(
            name,
            topics[n - 1],
            which.spec_of(values[n - 1]),
        )
    }
}

fn push_metric(out: &mut String, name: &str, help: &str, kind: &str, value: u64)
    ensures
        final(out)@ == old(out)@ + shown_metric(name@, help@, kind@, value),
{
    let number: String = decimal_text(value);
    let head: String = concat5("# HELP ", name, " ", help, "\n# TYPE ");
    let middle: String = concat5(head.as_str(), name, " ", kind, "\n");
    let line: String = concat5(middle.as_str(), name, " ", number.as_str(), "\n\n");
    out.append(line.as_str());
}

fn push_header(out: &mut String, name: &str, help: &str, kind: &str)
    ensures
        final(out)@ == old(out)@ + shown_header(name@, help@, kind@),
{
    let head: String = concat5("# HELP ", name, " ", help, "\n# TYPE ");
    let line: String = concat5(head.as_str(), name, " ", kind, "\n");
    out.append(line.as_str());
}

impl MetricsCollector {
    pub open spec fn wf(self) -> bool {
        &&& self.per_topic.wf()
        &&& self.produce_latency_ms.wf()
        &&& self.fetch_latency_ms.wf()
    }

    /// The counters of the topics.
    pub open spec fn topics(self) -> Map<Seq<char>, TopicMetrics> {
        self.per_topic@
    }

    pub fn new() -> (r: Self)
        ensures
            r.wf(),
            r.produce_bytes_total == 0,
            r.fetch_bytes_total == 0,
            r.produce_records_total == 0,
            r.active_connections == 0,
            r.quota_throttled_clients_total == 0,
            r.acl_denied_requests_total == 0,
            r.topics() == Map::<Seq<char>, TopicMetrics>::empty(),
            r.produce_latency_ms@ == no_samples(),
            r.fetch_latency_ms@ == no_samples(),
    {
        MetricsCollector {
            produce_bytes_total: 0,
            fetch_bytes_total: 0,
            produce_records_total: 0,
            active_connections: 0,
            quota_throttled_clients_total: 0,
            acl_denied_requests_total: 0,
            per_topic: NameMap::new(),
            produce_latency_ms: LatencyHistogram::default(),
            fetch_latency_ms: LatencyHistogram::default(),
        }
    }

    pub fn record_produce(&mut self, bytes: u64, records_count: u64)
        ensures
            *final(self) == (MetricsCollector {
                produce_bytes_total: wrapped(old(self).produce_bytes_total + bytes),
                produce_records_total: wrapped(old(self).produce_records_total + records_count),
                ..*old(self)
            }),
    {
        self.produce_bytes_total = self.produce_bytes_total.wrapping_add(bytes);
        self.produce_records_total = self.produce_records_total.wrapping_add(records_count);
    }

    pub fn record_fetch(&mut self, bytes: u64)
        ensures
            *final(self) == (MetricsCollector {
                fetch_bytes_total: wrapped(old(self).fetch_bytes_total + bytes),
                ..*old(self)
            }),
    {
        self.fetch_bytes_total = self.fetch_bytes_total.wrapping_add(bytes);
    }

    fn topic_counters(&self, topic: &str) -> (r: TopicMetrics)
        requires
            self.per_topic.wf(),
        ensures
            r == traffic(self.topics(), topic@),
    {
        match self.per_topic.get(topic) {
            Some(t) => *t,
            None => TopicMetrics {
                produce_bytes_total: 0,
                produce_records_total: 0,
                fetch_bytes_total: 0,
            },
        }
    }

    /// Counts what was produced to a topic, for the topic and in all.
    pub fn record_produce_topic(&mut self, topic: &str, bytes: u64, records_count: u64)
        requires
            old(self).wf(),
        ensures
            final(self).wf(),
            ({
                let t = traffic(old(self).topics(), topic@);
                &&& final(self).topics() == old(self).topics().insert(
                    topic@,
                    TopicMetrics {
                        produce_bytes_total: wrapped(t.produce_bytes_total + bytes),
                        produce_records_total: wrapped(t.produce_records_total + records_count),
                        ..t
                    },
                )
                &&& *final(self) == (MetricsCollector {
                    produce_bytes_total: wrapped(old(self).produce_bytes_total + bytes),
                    produce_records_total: wrapped(
                        old(self).produce_records_total + records_count,
                    ),
                    per_topic: final(self).per_topic,
                    ..*old(self)
                })
            }),
    {
        self.record_produce(bytes, records_count);
        let mut t: TopicMetrics = self.topic_counters(topic);
        t.produce_bytes_total = t.produce_bytes_total.wrapping_add(bytes);
        t.produce_records_total = t.produce_records_total.wrapping_add(records_count);
        self.per_topic.insert(owned(topic), t);
    }

    /// Counts what was fetched from a topic, for the topic and in all.
    pub fn record_fetch_topic(&mut self, topic: &str, bytes: u64)
        requires
            old(self).wf(),
        ensures
            final(self).wf(),
            ({
                let t = traffic(old(self).topics(), topic@);
                &&& final(self).topics() == old(self).topics().insert(
                    topic@,
                    TopicMetrics { fetch_bytes_total: wrapped(t.fetch_bytes_total + bytes), ..t },
                )
                &&& *final(self) == (MetricsCollector {
                    fetch_bytes_total: wrapped(old(self).fetch_bytes_total + bytes),
                    per_topic: final(self).per_topic,
                    ..*old(self)
                })
            }),
    {
        self.record_fetch(bytes);
        let mut t: TopicMetrics = self.topic_counters(topic);
        t.fetch_bytes_total = t.fetch_bytes_total.wrapping_add(bytes);
        self.per_topic.insert(owned(topic), t);
    }

    pub fn record_connection_open(&mut self)
        ensures
            *final(self) == (MetricsCollector {
                active_connections: wrapped(old(self).active_connections + 1),
                ..*old(self)
            }),
    {
        self.active_connections = self.active_connections.wrapping_add(1);
    }

    pub fn record_connection_close(&mut self)
        ensures
            *final(self) == (MetricsCollector {
                active_connections: wrapped(old(self).active_connections - 1),
                ..*old(self)
            }),
    {
        self.active_connections = self.active_connections.wrapping_sub(1);
    }

    pub fn record_quota_throttle(&mut self)
        ensures
            *final(self) == (MetricsCollector {
                quota_throttled_clients_total: wrapped(old(self).quota_throttled_clients_total + 1),
                ..*old(self)
            }),
    {
        self.quota_throttled_clients_total = self.quota_throttled_clients_total.wrapping_add(1);
    }

    pub fn record_acl_deny(&mut self)
        ensures
            *final(self) == (MetricsCollector {
                acl_denied_requests_total: wrapped(old(self).acl_denied_requests_total + 1),
                ..*old(self)
            }),
    {
        self.acl_denied_requests_total = self.acl_denied_requests_total.wrapping_add(1);
    }

    fn push_topics(&self, out: &mut String, name: &str, which: TopicCounter)
        requires
            self.wf(),
        ensures
            final(out)@ == old(out)@ + topic_lines(
                name@,
                self.per_topic.names(),
                self.per_topic.values(),
                which,
                self.per_topic.names().len() as int,
            ),
    {
        let n: usize = self.per_topic.len();
        let ghost start = out@;
        let ghost names = self.per_topic.names();
        let ghost values = self.per_topic.values();
        let mut i: usize = 0;
        assert(out@ =~= start + topic_lines(name@, names, values, which, 0));
        while i < n
            invariant
                self.wf(),
                i <= n == names.len(),
                names == self.per_topic.names(),
                values == self.per_topic.values(),
                out@ == start + topic_lines(name@, names, values, which, i as int),
            decreases n - i,
        {
            let number: String = decimal_text(which.of(self.per_topic.value_at(i)));
            let mut line: String = concat5(
                name,
                "{topic=\"",
                self.per_topic.name_at(i).as_str(),
                "\"} ",
                number.as_str(),
            );
            line.append("\n");
            out.append(line.as_str());
            proof {
                assert(out@ =~= start + topic_lines(name@, names, values, which, i + 1));
            }
            i = i + 1;
        }
    }

    /// The plain counters as they are shown.
    pub open spec fn shown_counters(self, active_topics: u64, active_brokers: u64) -> Seq<char> {
        shown_metric(
            "bifrox_produce_bytes_total"@,
            "Total bytes produced to Bifrox brokers."@,
            "counter"@,
            self.produce_bytes_total,
        ) + shown_metric(
            "bifrox_fetch_bytes_total"@,
            "Total bytes fetched from Bifrox brokers."@,
            "counter"@,
            self.fetch_bytes_total,
        ) + shown_metric(
            "bifrox_produce_records_total"@,
            "Total record count produced."@,
            "counter"@,
            self.produce_records_total,
        ) + shown_metric(
            "bifrox_active_connections"@,
            "Current active TCP client connections."@,
            "gauge"@,
            self.active_connections,
        ) + shown_metric(
            "bifrox_topics_count"@,
            "Current active topic count in storage catalog."@,
            "gauge"@,
            active_topics,
        ) + shown_metric(
            "bifrox_active_brokers_count"@,
            "Current active registered broker count."@,
            "gauge"@,
            active_brokers,
        ) + shown_metric(
            "bifrox_quota_throttled_clients_total"@,
            "Count of requests throttled by byte-rate quotas."@,
            "counter"@,
            self.quota_throttled_clients_total,
        ) + shown_metric(
            "bifrox_acl_denied_requests_total"@,
            "Count of requests denied by ACL authorization rules."@,
            "counter"@,
            self.acl_denied_requests_total,
        )
    }

    /// The counters of the topics as they are shown.
    pub open spec fn shown_topics(self) -> Seq<char> {
        let names = self.per_topic.names();
        let values = self.per_topic.values();
        let n = names.len() as int;
        shown_header(
            "bifrox_topic_produce_bytes_total"@,
            "Bytes produced, broken down by topic."@,
            "counter"@,
        ) + topic_lines(
            "bifrox_topic_produce_bytes_total"@,
            names,
            values,
            TopicCounter::ProduceBytes,
            n,
        ) + "\n"@ + shown_header(
            "bifrox_topic_produce_records_total"@,
            "Records produced, broken down by topic."@,
            "counter"@,
        ) + topic_lines(
            "bifrox_topic_produce_records_total"@,
            names,
            values,
            TopicCounter::ProduceRecords,
            n,
        ) + "\n"@ + shown_header(
            "bifrox_topic_fetch_bytes_total"@,
            "Bytes fetched, broken down by topic."@,
            "counter"@,
        ) + topic_lines(
            "bifrox_topic_fetch_bytes_total"@,
            names,
            values,
            TopicCounter::FetchBytes,
            n,
        )
    }

    /// The latencies as they are shown.
    pub open spec fn shown_latencies(self) -> Seq<char> {
        "\n"@ + shown_header(
            "bifrox_produce_latency_ms"@,
            "Produce request latency in milliseconds."@,
            "histogram"@,
        ) + shown_histogram(
            self.produce_latency_ms@,
            "bifrox_produce_latency_ms"@,
            Seq::empty(),
        ) + "\n"@ + shown_header(
            "bifrox_fetch_latency_ms"@,
            "Fetch request latency in milliseconds."@,
            "histogram"@,
        ) + shown_histogram(
            self.fetch_latency_ms@,
            "bifrox_fetch_latency_ms"@,
            Seq::empty(),
        )
    }

    fn render_counters(&self, active_topics: u64, active_brokers: u64) -> (out: String)
        ensures
            out@ == self.shown_counters(active_topics, active_brokers),
    {
        let mut out = String::new();
        push_metric(
            &mut out,
            "bifrox_produce_bytes_total",
            "Total bytes produced to Bifrox brokers.",
            "counter",
            self.produce_bytes_total,
        );
        push_metric(
            &mut out,
            "bifrox_fetch_bytes_total",
            "Total bytes fetched from Bifrox brokers.",
            "counter",
            self.fetch_bytes_total,
        );
        push_metric(
            &mut out,
            "bifrox_produce_records_total",
            "Total record count produced.",
            "counter",
            self.produce_records_total,
        );
        push_metric(
            &mut out,
            "bifrox_active_connections",
            "Current active TCP client connections.",
            "gauge",
            self.active_connections,
        );
        push_metric(
            &mut out,
            "bifrox_topics_count",
            "Current active topic count in storage catalog.",
            "gauge",
            active_topics,
        );
        push_metric(
            &mut out,
            "bifrox_active_brokers_count",
            "Current active registered broker count.",
            "gauge",
            active_brokers,
        );
        push_metric(
            &mut out,
            "bifrox_quota_throttled_clients_total",
            "Count of requests throttled by byte-rate quotas.",
            "counter",
            self.quota_throttled_clients_total,
        );
        push_metric(
            &mut out,
            "bifrox_acl_denied_requests_total",
            "Count of requests denied by ACL authorization rules.",
            "counter",
            self.acl_denied_requests_total,
        );
        assert(out@ =~= self.shown_counters(active_topics, active_brokers));
        out
    }

    fn render_topics(&self) -> (out: String)
        requires
            self.wf(),
        ensures
            out@ == self.shown_topics(),
    {
        let mut out = String::new();
        push_header(
            &mut out,
            "bifrox_topic_produce_bytes_total",
            "Bytes produced, broken down by topic.",
            "counter",
        );
        self.push_topics(
            &mut out,
            "bifrox_topic_produce_bytes_total",
            TopicCounter::ProduceBytes,
        );
        out.append("\n");
        push_header(
            &mut out,
            "bifrox_topic_produce_records_total",
            "Records produced, broken down by topic.",
            "counter",
        );
        self.push_topics(
            &mut out,
            "bifrox_topic_produce_records_total",
            TopicCounter::ProduceRecords,
        );
        out.append("\n");
        push_header(
            &mut out,
            "bifrox_topic_fetch_bytes_total",
            "Bytes fetched, broken down by topic.",
            "counter",
        );
        self.push_topics(&mut out, "bifrox_topic_fetch_bytes_total", TopicCounter::FetchBytes);
        assert(out@ =~= self.shown_topics());
        out
    }

    fn render_latencies(&self) -> (out: String)
        requires
            self.wf(),
        ensures
            out@ == self.shown_latencies(),
    {
        proof {
            reveal_strlit("");
        }
        let mut out = owned("\n");
        push_header(
            &mut out,
            "bifrox_produce_latency_ms",
            "Produce request latency in milliseconds.",
            "histogram",
        );
        assert(""@ =~= Seq::<char>::empty());
        self.produce_latency_ms.render("bifrox_produce_latency_ms", "", &mut out);
        out.append("\n");
        push_header(
            &mut out,
            "bifrox_fetch_latency_ms",
            "Fetch request latency in milliseconds.",
            "histogram",
        );
        self.fetch_latency_ms.render("bifrox_fetch_latency_ms", "", &mut out);
        assert(out@ =~= self.shown_latencies());
        out
    }

    /// Shows all counters in the text format of Prometheus.
    pub fn render_prometheus(&self, active_topics: usize, active_brokers: usize) -> (r: String)
        requires
            self.wf(),
        ensures
            r@ == self.shown_counters(active_topics as u64, active_brokers as u64)
                + self.shown_topics() + self.shown_latencies(),
    {
        let a: String = self.render_counters(active_topics as u64, active_brokers as u64);
        let b: String = self.render_topics();
        let c: String = self.render_latencies();
        concat3(a.as_str(), b.as_str(), c.as_str())
    }
}

proof fn lemma_of_samples(samples: Seq<u64>, n: int)
    requires
        0 <= n <= 11,
        samples.len() < 0x1_0000_0000_0000_0000,
    ensures
        of_samples(samples).buckets.len() == 11,
        of_samples(samples).count == samples.len(),
        total(of_samples(samples).buckets, n) == (if n == 0 {
            0
        } else {
            at_most(samples, bounds()[n - 1]) as int
        }),
        forall|i: int| 0 <= i < 11 ==> #[trigger] of_samples(samples).buckets[i] <= samples.len(),
    decreases samples.len(), n,
{
    let h = of_samples(samples);
    if samples.len() == 0 {
        if n > 0 {
            lemma_of_samples(samples, n - 1);
            if n > 1 {
                assert(at_most(samples, bounds()[n - 2]) == 0);
            }
        }
    } else {
        let init = samples.drop_last();
        let x = samples.last();
        let before = of_samples(init);
        lemma_of_samples(init, n);
        assert forall|i: int| 0 <= i < 11 implies #[trigger] h.buckets[i] <= samples.len() by {
            assert(before.buckets[i] <= init.len());
        }
        if n > 0 {
            lemma_of_samples(init, n - 1);
            lemma_of_samples(samples, n - 1);
            assert(before.buckets[n - 1] <= init.len());
            if n > 1 {
                lemma_bounds_rise(n - 2, n - 1);
            }
        }
    }
}

/// A bucket's line counts the samples up to its bound, however the samples came in.
pub proof fn buckets_are_cumulative(samples: Seq<u64>, n: int)
    requires
        0 < n <= 11,
        samples.len() < 0x1_0000_0000_0000_0000,
    ensures
        total(of_samples(samples).buckets, n) == at_most(samples, bounds()[n - 1]),
        total(of_samples(samples).buckets, n) <= of_samples(samples).count,
        of_samples(samples).count == samples.len(),
{
    lemma_of_samples(samples, n);
    lemma_at_most(samples, bounds()[n - 1]);
}

proof fn lemma_at_most(samples: Seq<u64>, bound: u64)
    ensures
        at_most(samples, bound) <= samples.len(),
    decreases samples.len(),
{
    if samples.len() > 0 {
        lemma_at_most(samples.drop_last(), bound);
    }
}

/// What a peer that may not read the metrics is told.
pub open spec fn forbidden() -> Seq<char> {
    "HTTP/1.1 403 Forbidden\r\nContent-Length: 15\r\nConnection: close\r\n\r\n403 Forbidden\n"@
}

/// What a peer without the right token is told.
pub open spec fn unauthorized() -> Seq<char> {
    "HTTP/1.1 401 Unauthorized\r\nWWW-Authenticate: Bearer\r\nContent-Length: 18\r\nConnection: close\r\n\r\n401 Unauthorized\n"@
}

/// The metrics as they are sent.
pub open spec fn served(body: Seq<char>) -> Seq<char> {
    "HTTP/1.1 200 OK\r\nContent-Type: text/plain; version=0.0.4\r\nContent-Length: "@ + decimal(
        encode_utf8(body).len(),
    ) + "\r\nConnection: close\r\n\r\n"@ + body
}

/// Whether a request brings the token, if one is asked for.
pub open spec fn has_token(request: Seq<u8>, token: Option<Seq<char>>) -> bool {
    match token {
        Some(t) => has_text(text_in(request), "Authorization: Bearer "@ + t),
        None => true,
    }
}

/// What a peer that may not read the metrics is told.
pub fn forbidden_reply() -> (r: String)
    ensures
        r@ == forbidden(),
{
    owned(
        "HTTP/1.1 403 Forbidden\r\nContent-Length: 15\r\nConnection: close\r\n\r\n403 Forbidden\n",
    )
}

/// The reply to a request for the metrics by a peer that may read them.
pub fn metrics_reply(request: &[u8], token: Option<&str>, body: &str) -> (r: String)
    ensures
        r@ == (if has_token(
            request@,
            match token {
                Some(t) => Some(t@),
                None => None,
            },
        ) {
            served(body@)
        } else {
            unauthorized()
        }),
{
    match token {
        Some(t) => {
            let text: String = text_from_utf8_lossy(request);
            let mut header: String = owned("Authorization: Bearer ");
            header.append(t);
            let a: Vec<char> = chars_of(text.as_str());
            let b: Vec<char> = chars_of(header.as_str());
            if find_text(a.as_slice(), b.as_slice()).is_none() {
                return owned(
                    "HTTP/1.1 401 Unauthorized\r\nWWW-Authenticate: Bearer\r\nContent-Length: 18\r\nConnection: close\r\n\r\n401 Unauthorized\n",
                );
            }
        },
        None => {},
    }
    let length: String = decimal_text(body.as_bytes().len() as u64);
    let head: String = concat3(
        "HTTP/1.1 200 OK\r\nContent-Type: text/plain; version=0.0.4\r\nContent-Length: ",
        length.as_str(),
        "\r\nConnection: close\r\n\r\n",
    );
    let mut reply: String = head;
    reply.append(body);
    reply
}

} // verus!
