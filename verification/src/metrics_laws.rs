//! What the metrics count, and how they are shown.
use crate::metrics::{
    bounds, has_token, sampled, topic_line, topic_lines, traffic, HistogramView, TopicCounter,
    TopicMetrics,
};
use crate::text::{decimal, has_text, stands_at, text_in};
use vstd::prelude::*;

verus! {

/// A sample counts in the first bucket whose bound it does not exceed, and in no other; beyond the
/// last bound it counts in none. It counts once in all, and its length is added up.
pub proof fn a_sample_counts_in_one_bucket(h: HistogramView, ms: u64, i: int)
    requires
        h.buckets.len() == 11,
        0 <= i < 11,
        h.buckets[i] < u64::MAX,
        h.count < u64::MAX,
        h.sum_ms + ms <= u64::MAX,
    ensures
        sampled(h, ms).buckets.len() == 11,
        sampled(h, ms).count == h.count + 1,
        sampled(h, ms).sum_ms == h.sum_ms + ms,
        ms <= bounds()[i] && (i == 0 || ms > bounds()[i - 1]) ==> sampled(h, ms).buckets[i]
            == h.buckets[i] + 1,
        ms > bounds()[i] || (i > 0 && ms <= bounds()[i - 1]) ==> sampled(h, ms).buckets[i]
            == h.buckets[i],
        bounds().len() == 11,
        i > 0 ==> bounds()[i - 1] < bounds()[i],
{
}

/// What was counted for a topic is found under its name, and nothing under a name for which
/// nothing was counted.
pub proof fn traffic_is_counted_by_topic(
    m: Map<Seq<char>, TopicMetrics>,
    topic: Seq<char>,
    other: Seq<char>,
    x: TopicMetrics,
)
    ensures
        traffic(m.insert(topic, x), topic) == x,
        other != topic ==> traffic(m.insert(topic, x), other) == traffic(m, other),
        !m.contains_key(topic) ==> traffic(m, topic).produce_bytes_total == 0 && traffic(
            m,
            topic,
        ).produce_records_total == 0 && traffic(m, topic).fetch_bytes_total == 0,
{
}

/// Every topic has its line, with the value of the counter that is shown.
pub proof fn every_topic_has_its_line(
    name: Seq<char>,
    topics: Seq<Seq<char>>,
    values: Seq<TopicMetrics>,
    which: TopicCounter,
    n: int,
    i: int,
)
    requires
        0 <= i < n,
    ensures
        has_text(
            topic_lines(name, topics, values, which, n),
            topic_line(
                name,
                topics[i],
                match which {
                    TopicCounter::ProduceBytes => values[i].produce_bytes_total,
                    TopicCounter::ProduceRecords => values[i].produce_records_total,
                    TopicCounter::FetchBytes => values[i].fetch_bytes_total,
                },
            ),
        ),
    decreases n,
{
    let all = topic_lines(name, topics, values, which, n);
    let before = topic_lines(name, topics, values, which, n - 1);
    let line = topic_line(
        name,
        topics[i],
        match which {
            TopicCounter::ProduceBytes => values[i].produce_bytes_total,
            TopicCounter::ProduceRecords => values[i].produce_records_total,
            TopicCounter::FetchBytes => values[i].fetch_bytes_total,
        },
    );
    if i == n - 1 {
        let k = before.len() as int;
        assert(all.subrange(k, k + line.len()) =~= line);
        assert(stands_at(all, line, k));
    } else {
        every_topic_has_its_line(name, topics, values, which, n - 1, i);
        let k = choose|k: int| stands_at(before, line, k);
        assert(all.subrange(k, k + line.len()) =~= before.subrange(k, k + line.len()));
        assert(stands_at(all, line, k));
    }
}

/// A line gives the value of its topic in digits, behind the name of the counter.
pub proof fn a_line_gives_the_value(name: Seq<char>, topic: Seq<char>, value: u64)
    ensures
        has_text(topic_line(name, topic, value), decimal(value as nat)),
        has_text(topic_line(name, topic, value), topic),
        stands_at(topic_line(name, topic, value), name, 0),
{
    reveal_strlit("{topic=\"");
    reveal_strlit("\"} ");
    reveal_strlit("\n");
    let line = topic_line(name, topic, value);
    let d = decimal(value as nat);
    let a = name.len() as int + "{topic=\""@.len() as int;
    let b = a + topic.len() as int + "\"} "@.len() as int;
    assert(line.subrange(a, a + topic.len()) =~= topic);
    assert(stands_at(line, topic, a));
    assert(line.subrange(b, b + d.len()) =~= d);
    assert(stands_at(line, d, b));
    assert(line.subrange(0, name.len() as int) =~= name);
}

/// Where no token is asked for every request has it; where one is, only a request in which it
/// stands behind the word for it.
pub proof fn metrics_are_shown_for_the_token(request: Seq<u8>, token: Seq<char>)
    ensures
        has_token(request, None),
        has_token(request, Some(token)) <==> has_text(
            text_in(request),
            "Authorization: Bearer "@ + token,
        ),
{
}

/// Without topics there are no lines, and each topic adds one behind those before it.
pub proof fn lines_come_in_turn(
    name: Seq<char>,
    topics: Seq<Seq<char>>,
    values: Seq<TopicMetrics>,
    which: TopicCounter,
    n: int,
)
    requires
        n >= 0,
    ensures
        topic_lines(name, topics, values, which, 0).len() == 0,
        topic_lines(name, topics, values, which, n + 1).len() == topic_lines(
            name,
            topics,
            values,
            which,
            n,
        ).len() + topic_line(name, topics[n], which.spec_of(values[n])).len(),
{
}

} // verus!
