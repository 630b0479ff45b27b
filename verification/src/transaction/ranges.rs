//! The partitions that a transaction touches, and the offsets that it covers there.
use crate::text::same_text;
use vstd::prelude::*;
use vstd::string::*;

verus! {

/// Topic, partition, first offset and end offset. An offset that is not known yet is `u64::MAX`.
pub type PartitionRangeList = Vec<(String, u32, u64, u64)>;

/// What a transaction covers of a partition.
pub struct RangeView {
    pub topic: Seq<char>,
    pub partition: u32,
    pub start: u64,
    pub end: u64,
}

pub open spec fn range_view(r: (String, u32, u64, u64)) -> RangeView {
    RangeView { topic: r.0@, partition: r.1, start: r.2, end: r.3 }
}

pub open spec fn range_views(s: Seq<(String, u32, u64, u64)>) -> Seq<RangeView> {
    s.map_values(|r: (String, u32, u64, u64)| range_view(r))
}

pub open spec fn is_of(r: RangeView, topic: Seq<char>, partition: u32) -> bool {
    r.topic == topic && r.partition == partition
}

/// Whether a range of the partition is there.
pub open spec fn has_partition(rs: Seq<RangeView>, topic: Seq<char>, partition: u32) -> bool {
    exists|i: int| 0 <= i < rs.len() && is_of(#[trigger] rs[i], topic, partition)
}

/// Where the first range of the partition stands.
pub open spec fn first_of(rs: Seq<RangeView>, topic: Seq<char>, partition: u32) -> int {
    choose|i: int|
        0 <= i < rs.len() && is_of(#[trigger] rs[i], topic, partition) && forall|j: int|
            0 <= j < i ==> !is_of(#[trigger] rs[j], topic, partition)
}

/// The ranges after the partition joined the transaction.
pub open spec fn added(rs: Seq<RangeView>, topic: Seq<char>, partition: u32) -> Seq<RangeView> {
    if has_partition(rs, topic, partition) {
        rs
    } else {
        rs.push(RangeView { topic, partition, start: u64::MAX, end: u64::MAX })
    }
}

/// The ranges after partitions of a topic joined, in order.
pub open spec fn added_parts(rs: Seq<RangeView>, topic: Seq<char>, parts: Seq<u32>) -> Seq<RangeView>
    decreases parts.len(),
{
    if parts.len() == 0 {
        rs
    } else {
        added(added_parts(rs, topic, parts.drop_last()), topic, parts.last())
    }
}

/// The ranges after partitions of several topics joined, in order.
pub open spec fn added_topics(rs: Seq<RangeView>, topics: Seq<(String, Vec<u32>)>) -> Seq<RangeView>
    decreases topics.len(),
{
    if topics.len() == 0 {
        rs
    } else {
        added_parts(added_topics(rs, topics.drop_last()), topics.last().0@, topics.last().1@)
    }
}

/// The ranges after a record at `start` was produced to the partition: the first one counts.
pub open spec fn registered(rs: Seq<RangeView>, topic: Seq<char>, partition: u32, start: u64) -> Seq<
    RangeView,
> {
    if has_partition(rs, topic, partition) {
        let i = first_of(rs, topic, partition);
        if rs[i].start == u64::MAX {
            rs.update(i, RangeView { start, ..rs[i] })
        } else {
            rs
        }
    } else {
        rs.push(RangeView { topic, partition, start, end: u64::MAX })
    }
}

/// The ranges with the end of the partition's set.
pub open spec fn ended_at(rs: Seq<RangeView>, topic: Seq<char>, partition: u32, end: u64) -> Seq<
    RangeView,
> {
    rs.map_values(
        |r: RangeView|
            if is_of(r, topic, partition) {
                RangeView { end, ..r }
            } else {
                r
            },
    )
}

/// The ranges with the ends of several partitions set, in order.
pub open spec fn ended_all(rs: Seq<RangeView>, ends: Seq<(String, u32, u64)>) -> Seq<RangeView>
    decreases ends.len(),
{
    if ends.len() == 0 {
        rs
    } else {
        ended_at(ended_all(rs, ends.drop_last()), ends.last().0@, ends.last().1, ends.last().2)
    }
}

/// Where the first range of the partition stands.
pub fn find_range(rs: &PartitionRangeList, topic: &str, partition: u32) -> (r: Option<usize>)
    ensures
        match r {
            Some(i) => i < rs@.len() && has_partition(range_views(rs@), topic@, partition)
                && first_of(range_views(rs@), topic@, partition) == i && is_of(
                range_views(rs@)[i as int],
                topic@,
                partition,
            ),
            None => !has_partition(range_views(rs@), topic@, partition),
        },
{
    let ghost v = range_views(rs@);
    let mut i: usize = 0;
    while i < rs.len()
        invariant
            i <= rs@.len(),
            v == range_views(rs@),
            forall|j: int| 0 <= j < i ==> !is_of(#[trigger] v[j], topic@, partition),
        decreases rs@.len() - i,
    {
        if rs[i].1 == partition && same_text(rs[i].0.as_str(), topic) {
            proof {
                assert(is_of(v[i as int], topic@, partition));
                let f = first_of(v, topic@, partition);
                assert(is_of(v[f], topic@, partition) && forall|j: int|
                    0 <= j < f ==> !is_of(#[trigger] v[j], topic@, partition));
                assert(f == i);
            }
            return Some(i);
        }
        assert(!is_of(v[i as int], topic@, partition));
        i = i + 1;
    }
    None
}

/// Lets a partition join.
pub fn add_range(rs: &mut PartitionRangeList, topic: &str, partition: u32)
    ensures
        range_views(final(rs)@) == added(range_views(old(rs)@), topic@, partition),
{
    if find_range(rs, topic, partition).is_none() {
        rs.push((crate::text::owned(topic), partition, u64::MAX, u64::MAX));
        assert(range_views(rs@) =~= added(range_views(old(rs)@), topic@, partition));
    }
}

/// Lets partitions of several topics join.
pub fn add_ranges(rs: &mut PartitionRangeList, topics: &[(String, Vec<u32>)])
    ensures
        range_views(final(rs)@) == added_topics(range_views(old(rs)@), topics@),
{
    let ghost start = range_views(rs@);
    let mut i: usize = 0;
    assert(topics@.take(0) =~= Seq::empty());
    while i < topics.len()
        invariant
            i <= topics@.len(),
            start == range_views(old(rs)@),
            range_views(rs@) == added_topics(start, topics@.take(i as int)),
        decreases topics@.len() - i,
    {
        let topic: &String = &topics[i].0;
        let parts: &Vec<u32> = &topics[i].1;
        let ghost before = range_views(rs@);
        let mut j: usize = 0;
        assert(parts@.take(0) =~= Seq::empty());
        while j < parts.len()
            invariant
                j <= parts@.len(),
                range_views(rs@) == added_parts(before, topic@, parts@.take(j as int)),
            decreases parts@.len() - j,
        {
            assert(parts@.take(j + 1).drop_last() =~= parts@.take(j as int));
            add_range(rs, topic.as_str(), parts[j]);
            j = j + 1;
        }
        proof {
            assert(parts@.take(j as int) =~= parts@);
            assert(topics@.take(i + 1).drop_last() =~= topics@.take(i as int));
        }
        i = i + 1;
    }
    assert(topics@.take(i as int) =~= topics@);
}

/// Notes the first offset of a partition.
pub fn register_start(rs: &mut PartitionRangeList, topic: &str, partition: u32, start: u64)
    ensures
        range_views(final(rs)@) == registered(range_views(old(rs)@), topic@, partition, start),
{
    let ghost v = range_views(rs@);
    match find_range(rs, topic, partition) {
        Some(i) => {
            if rs[i].2 == u64::MAX {
                let entry = &mut rs[i];
                entry.2 = start;
                assert(range_views(rs@) =~= registered(v, topic@, partition, start));
            }
        },
        None => {
            rs.push((crate::text::owned(topic), partition, start, u64::MAX));
            assert(range_views(rs@) =~= registered(v, topic@, partition, start));
        },
    }
}

/// Sets the end of a partition.
fn set_end(rs: &mut PartitionRangeList, topic: &str, partition: u32, end: u64)
    ensures
        range_views(final(rs)@) == ended_at(range_views(old(rs)@), topic@, partition, end),
{
    let ghost v = range_views(rs@);
    let ghost want = ended_at(v, topic@, partition, end);
    let mut i: usize = 0;
    while i < rs.len()
        invariant
            i <= rs@.len(),
            rs@.len() == v.len(),
            v == range_views(old(rs)@),
            want == ended_at(v, topic@, partition, end),
            forall|j: int| 0 <= j < i ==> #[trigger] range_views(rs@)[j] == want[j],
            forall|j: int| i <= j < rs@.len() ==> #[trigger] range_views(rs@)[j] == v[j],
        decreases rs@.len() - i,
    {
        let ghost before = range_views(rs@);
        assert(before[i as int] == v[i as int]);
        if rs[i].1 == partition && same_text(rs[i].0.as_str(), topic) {
            let entry = &mut rs[i];
            entry.3 = end;
        }
        proof {
            assert forall|j: int| 0 <= j < rs@.len() && j != i implies #[trigger] range_views(
                rs@,
            )[j] == before[j] by {}
        }
        i = i + 1;
    }
    assert(range_views(rs@) =~= want);
}

/// Sets the ends of several partitions.
pub fn set_ends(rs: &mut PartitionRangeList, ends: &[(String, u32, u64)])
    ensures
        range_views(final(rs)@) == ended_all(range_views(old(rs)@), ends@),
{
    let ghost start = range_views(rs@);
    let mut i: usize = 0;
    assert(ends@.take(0) =~= Seq::empty());
    while i < ends.len()
        invariant
            i <= ends@.len(),
            start == range_views(old(rs)@),
            range_views(rs@) == ended_all(start, ends@.take(i as int)),
        decreases ends@.len() - i,
    {
        assert(ends@.take(i + 1).drop_last() =~= ends@.take(i as int));
        set_end(rs, ends[i].0.as_str(), ends[i].1, ends[i].2);
        i = i + 1;
    }
    assert(ends@.take(i as int) =~= ends@);
}

/// A copy of a list of ranges.
pub fn copy_ranges(rs: &PartitionRangeList) -> (r: PartitionRangeList)
    ensures
        range_views(r@) == range_views(rs@),
{
    let mut out: PartitionRangeList = Vec::new();
    let ghost v = range_views(rs@);
    let mut i: usize = 0;
    assert(range_views(out@) =~= v.take(0));
    while i < rs.len()
        invariant
            i <= rs@.len(),
            v == range_views(rs@),
            range_views(out@) == v.take(i as int),
        decreases rs@.len() - i,
    {
        let ghost before = range_views(out@);
        out.push((rs[i].0.clone(), rs[i].1, rs[i].2, rs[i].3));
        proof {
            assert(range_views(out@) =~= before.push(v[i as int]));
            assert(v.take(i + 1) =~= v.take(i as int).push(v[i as int]));
        }
        i = i + 1;
    }
    assert(v.take(i as int) =~= v);
    out
}

} // verus!
