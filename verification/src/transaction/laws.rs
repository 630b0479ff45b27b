//! What transactions promise.
use crate::transaction::manager::{can_abort, undecided, TransactionState, TxStatus, TxView};
use crate::transaction::queries::{
    aborted_bounds, bounds_of, is_expired, is_stable_up_to, is_stale, opens_at,
};
use crate::transaction::ranges::{
    added, added_parts, added_topics, ended_all, first_of, has_partition, is_of, registered,
    RangeView,
};
use crate::codec::{lemma_number_range, number};
use crate::transaction::record::{ranges_in, record_of};
use vstd::prelude::*;

verus! {

/// There is one last stable offset.
pub proof fn last_stable_offset_is_unique(
    txs: Map<Seq<char>, TxView>,
    topic: Seq<char>,
    partition: u32,
    a: u64,
    b: u64,
)
    requires
        is_stable_up_to(txs, topic, partition, a),
        is_stable_up_to(txs, topic, partition, b),
    ensures
        a == b,
{
    if a != u64::MAX {
        let (k, i) = choose|k: Seq<char>, i: int|
            opens_at(txs, k, i, topic, partition) && (#[trigger] txs[k].partitions[i]).start == a;
        assert(b <= txs[k].partitions[i].start);
    }
    if b != u64::MAX {
        let (k, i) = choose|k: Seq<char>, i: int|
            opens_at(txs, k, i, topic, partition) && (#[trigger] txs[k].partitions[i]).start == b;
        assert(a <= txs[k].partitions[i].start);
    }
}

/// Deciding a transaction never takes the last stable offset of a partition back.
pub proof fn deciding_moves_the_stable_offset_forward(
    txs: Map<Seq<char>, TxView>,
    k: Seq<char>,
    decided: TxView,
    topic: Seq<char>,
    partition: u32,
    before: u64,
    after: u64,
)
    requires
        txs.contains_key(k),
        !undecided(decided.status),
        is_stable_up_to(txs, topic, partition, before),
        is_stable_up_to(txs.insert(k, decided), topic, partition, after),
    ensures
        before <= after,
{
    let txs2 = txs.insert(k, decided);
    if after != u64::MAX {
        let (x, i) = choose|x: Seq<char>, i: int|
            opens_at(txs2, x, i, topic, partition) && (#[trigger] txs2[x].partitions[i]).start
                == after;
        assert(x != k);
        assert(opens_at(txs, x, i, topic, partition));
        assert(before <= txs[x].partitions[i].start);
    }
}

/// However far a transaction has come without being decided, once it has taken too long and is
/// given up, it can be aborted. Until then it holds the stable offsets back as before.
pub proof fn what_takes_too_long_can_be_aborted(
    txs: Map<Seq<char>, TxView>,
    k: Seq<char>,
    now_ms: u64,
    max_age_ms: u64,
    topic: Seq<char>,
    partition: u32,
    stable: u64,
)
    requires
        txs.contains_key(k),
        is_expired(txs[k], now_ms, max_age_ms),
        is_stable_up_to(txs, topic, partition, stable),
    ensures
        ({
            let given_up = txs.insert(k, TxView { status: TxStatus::PrepareAbort, ..txs[k] });
            can_abort(given_up[k].status) && is_stable_up_to(given_up, topic, partition, stable)
        }),
{
    let given_up = txs.insert(k, TxView { status: TxStatus::PrepareAbort, ..txs[k] });
    assert forall|x: Seq<char>, i: int|
        opens_at(given_up, x, i, topic, partition) == opens_at(txs, x, i, topic, partition) by {}
    if stable != u64::MAX {
        let (x, i) = choose|x: Seq<char>, i: int|
            opens_at(txs, x, i, topic, partition) && (#[trigger] txs[x].partitions[i]).start
                == stable;
        assert(opens_at(given_up, x, i, topic, partition));
        assert(given_up[x].partitions[i].start == stable);
    }
}

/// Some range is that of the partition.
pub open spec fn stands_among(rs: Seq<RangeView>, topic: Seq<char>, partition: u32) -> bool {
    exists|k: int|
        0 <= k < rs.len() && (#[trigger] rs[k]).topic == topic && rs[k].partition == partition
}

/// What becomes of the ranges of a transaction when partitions of one topic join it.
proof fn lemma_parts_join(rs: Seq<RangeView>, topic: Seq<char>, parts: Seq<u32>)
    ensures
        ({
            let after = added_parts(rs, topic, parts);
            &&& rs.len() <= after.len()
            &&& forall|k: int| 0 <= k < rs.len() ==> #[trigger] after[k] == rs[k]
            &&& forall|j: int|
                0 <= j < parts.len() ==> stands_among(after, topic, #[trigger] parts[j])
            &&& forall|k: int|
                rs.len() <= k < after.len() ==> (#[trigger] after[k]).topic == topic
                    && parts.contains(after[k].partition) && after[k].start == u64::MAX
                    && after[k].end == u64::MAX
            &&& forall|k: int, l: int|
                rs.len() <= k < after.len() && 0 <= l < k ==> (#[trigger] after[l]).topic
                    != (#[trigger] after[k]).topic || after[l].partition != after[k].partition
        }),
    decreases parts.len(),
{
    if parts.len() > 0 {
        let less = parts.drop_last();
        lemma_parts_join(rs, topic, less);
        let before = added_parts(rs, topic, less);
        let after = added_parts(rs, topic, parts);
        assert forall|p: u32| #[trigger] less.contains(p) implies parts.contains(p) by {
            let j = choose|j: int| 0 <= j < less.len() && less[j] == p;
            assert(parts[j] == p);
        }
        assert(parts.contains(parts.last())) by {
            assert(parts[parts.len() - 1] == parts.last());
        }
        assert forall|k: int| 0 <= k < before.len() implies after[k] == before[k] by {}
        if !has_partition(before, topic, parts.last()) {
            let n = before.len() as int;
            assert(after[n].topic == topic && after[n].partition == parts.last());
            assert forall|l: int| 0 <= l < n implies (#[trigger] after[l]).topic != topic
                || after[l].partition != parts.last() by {
                assert(!is_of(before[l], topic, parts.last()));
            }
        } else {
            let w = choose|w: int|
                0 <= w < before.len() && is_of(#[trigger] before[w], topic, parts.last());
            assert(after[w].topic == topic && after[w].partition == parts.last());
        }
        assert forall|j: int| 0 <= j < parts.len() implies stands_among(
            after,
            topic,
            #[trigger] parts[j],
        ) by {
            if j < less.len() {
                assert(less[j] == parts[j]);
                assert(stands_among(before, topic, less[j]));
                let k = choose|k: int|
                    0 <= k < before.len() && (#[trigger] before[k]).topic == topic
                        && before[k].partition == less[j];
                assert(after[k].topic == topic);
            }
        }
    }
}

/// Whether a request names a partition.
pub open spec fn named(topics: Seq<(String, Vec<u32>)>, topic: Seq<char>, partition: u32) -> bool {
    exists|i: int, j: int|
        0 <= i < topics.len() && 0 <= j < topics[i].1@.len() && topics[i].0@ == topic
            && #[trigger] topics[i].1@[j] == partition
}

/// When partitions of topics join a transaction, every one that the request names is among its
/// partitions; those that were there stay with their offsets; no other comes in, and none comes in
/// twice.
pub proof fn what_is_named_joins(rs: Seq<RangeView>, topics: Seq<(String, Vec<u32>)>)
    ensures
        ({
            let after = added_topics(rs, topics);
            &&& rs.len() <= after.len()
            &&& forall|k: int| 0 <= k < rs.len() ==> #[trigger] after[k] == rs[k]
            &&& forall|i: int, j: int|
                0 <= i < topics.len() && 0 <= j < topics[i].1@.len() ==> stands_among(
                    after,
                    topics[i].0@,
                    #[trigger] topics[i].1@[j],
                )
            &&& forall|k: int|
                rs.len() <= k < after.len() ==> named(
                    topics,
                    (#[trigger] after[k]).topic,
                    after[k].partition,
                ) && after[k].start == u64::MAX && after[k].end == u64::MAX
            &&& forall|k: int, l: int|
                rs.len() <= k < after.len() && 0 <= l < k ==> (#[trigger] after[l]).topic
                    != (#[trigger] after[k]).topic || after[l].partition != after[k].partition
        }),
    decreases topics.len(),
{
    if topics.len() > 0 {
        let less = topics.drop_last();
        let n = topics.len() - 1;
        what_is_named_joins(rs, less);
        let before = added_topics(rs, less);
        let after = added_topics(rs, topics);
        lemma_parts_join(before, topics[n].0@, topics[n].1@);
        assert forall|k: int| 0 <= k < rs.len() implies #[trigger] after[k] == rs[k] by {
            assert(after[k] == before[k]);
        }
        assert forall|k: int| rs.len() <= k < after.len() implies named(
            topics,
            (#[trigger] after[k]).topic,
            after[k].partition,
        ) && after[k].start == u64::MAX && after[k].end == u64::MAX by {
            if k < before.len() {
                assert(after[k] == before[k]);
                let (i, j) = choose|i: int, j: int|
                    0 <= i < less.len() && 0 <= j < less[i].1@.len() && less[i].0@
                        == before[k].topic && #[trigger] less[i].1@[j] == before[k].partition;
                assert(topics[i].1@[j] == after[k].partition);
            } else {
                let j = choose|j: int|
                    0 <= j < topics[n].1@.len() && topics[n].1@[j] == after[k].partition;
                assert(topics[n].1@[j] == after[k].partition);
            }
        }
        assert forall|i: int, j: int|
            0 <= i < topics.len() && 0 <= j < topics[i].1@.len() implies stands_among(
            after,
            topics[i].0@,
            #[trigger] topics[i].1@[j],
        ) by {
            if i < n {
                assert(less[i].1@[j] == topics[i].1@[j]);
                assert(stands_among(before, less[i].0@, less[i].1@[j]));
                let k = choose|k: int|
                    0 <= k < before.len() && (#[trigger] before[k]).topic == less[i].0@
                        && before[k].partition == less[i].1@[j];
                assert(after[k] == before[k]);
            }
        }
        assert forall|k: int, l: int| rs.len() <= k < after.len() && 0 <= l < k implies (
        #[trigger] after[l]).topic != (#[trigger] after[k]).topic || after[l].partition
            != after[k].partition by {
            if k < before.len() {
                assert(after[k] == before[k] && after[l] == before[l]);
            }
        }
    }
}

/// No partition stands twice among some ranges.
pub open spec fn once_each(rs: Seq<RangeView>) -> bool {
    forall|k: int, l: int|
        0 <= l < k < rs.len() ==> (#[trigger] rs[l]).topic != (#[trigger] rs[k]).topic
            || rs[l].partition != rs[k].partition
}

/// A record that a transaction produces to a partition: the partition is then among those of the
/// transaction, and begins at that record if it had no beginning. Nothing else changes.
pub proof fn a_record_marks_its_partition(
    rs: Seq<RangeView>,
    topic: Seq<char>,
    partition: u32,
    start: u64,
)
    requires
        once_each(rs),
    ensures
        ({
            let after = registered(rs, topic, partition, start);
            &&& once_each(after)
            &&& rs.len() <= after.len() <= rs.len() + 1
            &&& forall|k: int|
                0 <= k < rs.len() && !(rs[k].topic == topic && rs[k].partition == partition)
                    ==> #[trigger] after[k] == rs[k]
            &&& forall|k: int|
                0 <= k < rs.len() && rs[k].topic == topic && rs[k].partition == partition ==> (
                #[trigger] after[k]).topic == topic && after[k].partition == partition
                    && after[k].end == rs[k].end && after[k].start == (if rs[k].start
                    == u64::MAX {
                    start
                } else {
                    rs[k].start
                })
            &&& after.len() > rs.len() ==> after.last().topic == topic
                && after.last().partition == partition && after.last().start == start
                && after.last().end == u64::MAX
            &&& stands_among(after, topic, partition)
        }),
{
    let after = registered(rs, topic, partition, start);
    if has_partition(rs, topic, partition) {
        let w = choose|i: int| 0 <= i < rs.len() && is_of(#[trigger] rs[i], topic, partition);
        lemma_first(rs, topic, partition, w);
        let i = first_of(rs, topic, partition);
        assert(after[i].topic == topic && after[i].partition == partition);
        assert forall|k: int|
            0 <= k < rs.len() && rs[k].topic == topic && rs[k].partition == partition implies k
            == i by {
            if k < i {
                assert(rs[k].topic != rs[i].topic || rs[k].partition != rs[i].partition);
            } else if i < k {
                assert(rs[i].topic != rs[k].topic || rs[i].partition != rs[k].partition);
            }
        }
        assert forall|k: int, l: int| 0 <= l < k < after.len() implies (#[trigger] after[l]).topic
            != (#[trigger] after[k]).topic || after[l].partition != after[k].partition by {
            assert(rs[l].topic != rs[k].topic || rs[l].partition != rs[k].partition);
        }
    } else {
        assert(after[rs.len() as int].topic == topic);
        assert forall|l: int| 0 <= l < rs.len() implies (#[trigger] rs[l]).topic != topic
            || rs[l].partition != partition by {
            assert(!is_of(rs[l], topic, partition));
        }
        assert forall|k: int, l: int| 0 <= l < k < after.len() implies (#[trigger] after[l]).topic
            != (#[trigger] after[k]).topic || after[l].partition != after[k].partition by {
            if k < rs.len() {
                assert(rs[l].topic != rs[k].topic || rs[l].partition != rs[k].partition);
            } else {
                assert(rs[l].topic != topic || rs[l].partition != partition);
            }
        }
    }
}

/// Whether some ends name a partition from the `n`-th on.
pub open spec fn ends_from(
    ends: Seq<(String, u32, u64)>,
    n: int,
    topic: Seq<char>,
    partition: u32,
) -> bool {
    exists|j: int| n <= j < ends.len() && (#[trigger] ends[j]).0@ == topic && ends[j].1 == partition
}

/// Setting the ends of partitions changes nothing but the ends of those that are named: each gets
/// the last one that is given for it.
pub proof fn every_named_partition_ends(rs: Seq<RangeView>, ends: Seq<(String, u32, u64)>)
    ensures
        ({
            let after = ended_all(rs, ends);
            &&& after.len() == rs.len()
            &&& forall|k: int|
                0 <= k < rs.len() ==> (#[trigger] after[k]).topic == rs[k].topic
                    && after[k].partition == rs[k].partition && after[k].start == rs[k].start
            &&& forall|k: int|
                0 <= k < rs.len() && !ends_from(ends, 0, rs[k].topic, rs[k].partition) ==> (
                #[trigger] after[k]).end == rs[k].end
            &&& forall|k: int, j: int|
                0 <= k < rs.len() && 0 <= j < ends.len() && ends[j].0@ == rs[k].topic
                    && ends[j].1 == rs[k].partition && !ends_from(
                    ends,
                    j + 1,
                    rs[k].topic,
                    rs[k].partition,
                ) ==> (#[trigger] after[k]).end == (#[trigger] ends[j]).2
        }),
    decreases ends.len(),
{
    if ends.len() > 0 {
        let less = ends.drop_last();
        let n = ends.len() - 1;
        every_named_partition_ends(rs, less);
        let before = ended_all(rs, less);
        let after = ended_all(rs, ends);
        assert forall|k: int| 0 <= k < rs.len() implies (#[trigger] after[k]).topic == rs[k].topic
            && after[k].partition == rs[k].partition && after[k].start == rs[k].start
            && after[k].end == (if rs[k].topic == ends[n].0@ && rs[k].partition == ends[n].1 {
            ends[n].2
        } else {
            before[k].end
        }) by {
            assert(before[k].topic == rs[k].topic);
        }
        assert forall|k: int|
            0 <= k < rs.len() && !ends_from(ends, 0, rs[k].topic, rs[k].partition) implies (
        #[trigger] after[k]).end == rs[k].end by {
            if ends_from(less, 0, rs[k].topic, rs[k].partition) {
                let j = choose|j: int|
                    0 <= j < less.len() && (#[trigger] less[j]).0@ == rs[k].topic && less[j].1
                        == rs[k].partition;
                assert(ends[j].0@ == rs[k].topic);
            }
            assert(!(ends[n].0@ == rs[k].topic && ends[n].1 == rs[k].partition));
            assert(before[k].end == rs[k].end);
        }
        assert forall|k: int, j: int|
            0 <= k < rs.len() && 0 <= j < ends.len() && ends[j].0@ == rs[k].topic && ends[j].1
                == rs[k].partition && !ends_from(
                ends,
                j + 1,
                rs[k].topic,
                rs[k].partition,
            ) implies (#[trigger] after[k]).end == (#[trigger] ends[j]).2 by {
            if j < n {
                assert(!(ends[n].0@ == rs[k].topic && ends[n].1 == rs[k].partition));
                if ends_from(less, j + 1, rs[k].topic, rs[k].partition) {
                    let q = choose|q: int|
                        j + 1 <= q < less.len() && (#[trigger] less[q]).0@ == rs[k].topic
                            && less[q].1 == rs[k].partition;
                    assert(ends[q].0@ == rs[k].topic);
                }
                assert(before[k].end == less[j].2);
            }
        }
    }
}

/// Letting a partition join twice is letting it join once.
pub proof fn joining_twice_is_joining_once(rs: Seq<RangeView>, topic: Seq<char>, partition: u32)
    ensures
        added(added(rs, topic, partition), topic, partition) == added(rs, topic, partition),
        has_partition(added(rs, topic, partition), topic, partition),
{
    let once = added(rs, topic, partition);
    if !has_partition(rs, topic, partition) {
        assert(is_of(once[rs.len() as int], topic, partition));
    }
}

/// The first record that a transaction produces to a partition fixes where it begins there; later
/// ones do not move it.
pub proof fn the_first_offset_counts(
    rs: Seq<RangeView>,
    topic: Seq<char>,
    partition: u32,
    first: u64,
    later: u64,
)
    requires
        first < u64::MAX,
    ensures
        registered(registered(rs, topic, partition, first), topic, partition, later) == registered(
            rs,
            topic,
            partition,
            first,
        ),
{
    let once = registered(rs, topic, partition, first);
    if has_partition(rs, topic, partition) {
        let w = choose|i: int| 0 <= i < rs.len() && is_of(#[trigger] rs[i], topic, partition);
        lemma_first(rs, topic, partition, w);
        let i = first_of(rs, topic, partition);
        assert(is_of(once[i], topic, partition));
        lemma_first(once, topic, partition, i);
        let j = first_of(once, topic, partition);
        if j < i {
            assert(is_of(rs[j], topic, partition));
        }
        if i < j {
            assert(!is_of(once[i], topic, partition));
        }
    } else {
        let n = rs.len() as int;
        assert(is_of(once[n], topic, partition));
        lemma_first(once, topic, partition, n);
        let j = first_of(once, topic, partition);
        if j < n {
            assert(is_of(rs[j], topic, partition));
        }
    }
}

proof fn lemma_first(rs: Seq<RangeView>, topic: Seq<char>, partition: u32, w: int)
    requires
        0 <= w < rs.len(),
        is_of(rs[w], topic, partition),
    ensures
        0 <= first_of(rs, topic, partition) <= w,
        is_of(rs[first_of(rs, topic, partition)], topic, partition),
        forall|j: int|
            0 <= j < first_of(rs, topic, partition) ==> !is_of(#[trigger] rs[j], topic, partition),
    decreases w,
{
    if exists|j: int| 0 <= j < w && is_of(#[trigger] rs[j], topic, partition) {
        let j = choose|j: int| 0 <= j < w && is_of(#[trigger] rs[j], topic, partition);
        lemma_first(rs, topic, partition, j);
    } else {
        assert(is_of(rs[w], topic, partition) && forall|j: int|
            0 <= j < w ==> !is_of(#[trigger] rs[j], topic, partition));
        let f = first_of(rs, topic, partition);
        assert(is_of(rs[f], topic, partition));
        if f > w {
            assert(!is_of(rs[w], topic, partition));
        }
    }
}

/// No reader of decided records gets past the beginning of a transaction that is not decided,
/// whether it is open or about to end, and nothing else holds it back.
pub proof fn undecided_records_are_held_back(
    txs: Map<Seq<char>, TxView>,
    topic: Seq<char>,
    partition: u32,
    stable: u64,
)
    requires
        is_stable_up_to(txs, topic, partition, stable),
    ensures
        forall|k: Seq<char>, i: int|
            txs.contains_key(k) && !(txs[k].status is Committed) && !(txs[k].status is Aborted) && 0
                <= i < txs[k].partitions.len() && txs[k].partitions[i].topic == topic
                && txs[k].partitions[i].partition == partition ==> stable <= (
            #[trigger] txs[k].partitions[i]).start,
        stable < u64::MAX ==> exists|k: Seq<char>, i: int|
            txs.contains_key(k) && !(txs[k].status is Committed) && !(txs[k].status is Aborted) && 0
                <= i < txs[k].partitions.len() && txs[k].partitions[i].topic == topic
                && txs[k].partitions[i].partition == partition && (
            #[trigger] txs[k].partitions[i]).start == stable,
{
    assert forall|k: Seq<char>, i: int|
        txs.contains_key(k) && !(txs[k].status is Committed) && !(txs[k].status is Aborted) && 0 <= i
            < txs[k].partitions.len() && txs[k].partitions[i].topic == topic
            && txs[k].partitions[i].partition == partition implies stable <= (
    #[trigger] txs[k].partitions[i]).start by {
        assert(opens_at(txs, k, i, topic, partition));
    }
    if stable < u64::MAX {
        let (k, i) = choose|k: Seq<char>, i: int|
            opens_at(txs, k, i, topic, partition) && (#[trigger] txs[k].partitions[i]).start
                == stable;
        assert(txs[k].partitions[i].start == stable);
    }
}

proof fn lemma_bounds(rs: Seq<RangeView>, topic: Seq<char>, partition: u32)
    ensures
        forall|i: int|
            0 <= i < rs.len() && rs[i].topic == topic && rs[i].partition == partition ==> bounds_of(
                rs,
                topic,
                partition,
            ).contains(((#[trigger] rs[i]).start, rs[i].end)),
        forall|j: int|
            0 <= j < bounds_of(rs, topic, partition).len() ==> covers_bounds(
                rs,
                topic,
                partition,
                #[trigger] bounds_of(rs, topic, partition)[j],
            ),
    decreases rs.len(),
{
    if rs.len() > 0 {
        let less = rs.drop_last();
        let n = rs.len() - 1;
        lemma_bounds(less, topic, partition);
        let before = bounds_of(less, topic, partition);
        let after = bounds_of(rs, topic, partition);
        assert forall|i: int|
            0 <= i < rs.len() && rs[i].topic == topic && rs[i].partition
                == partition implies after.contains(((#[trigger] rs[i]).start, rs[i].end)) by {
            if i < n {
                assert(before.contains((less[i].start, less[i].end)));
                let q = choose|q: int|
                    0 <= q < before.len() && before[q] == (less[i].start, less[i].end);
                assert(after[q] == (rs[i].start, rs[i].end));
            } else {
                assert(after[after.len() - 1] == (rs[i].start, rs[i].end));
            }
        }
        assert forall|j: int| 0 <= j < after.len() implies covers_bounds(
            rs,
            topic,
            partition,
            #[trigger] after[j],
        ) by {
            if j < before.len() {
                assert(covers_bounds(less, topic, partition, before[j]));
                let i = choose|i: int|
                    0 <= i < less.len() && (#[trigger] less[i]).topic == topic && less[i].partition
                        == partition && (less[i].start, less[i].end) == before[j];
                assert(rs[i] == less[i]);
            } else {
                assert(rs[n].topic == topic);
            }
        }
    }
}

/// Some range of the partition has these bounds.
pub open spec fn covers_bounds(
    rs: Seq<RangeView>,
    topic: Seq<char>,
    partition: u32,
    b: (u64, u64),
) -> bool {
    exists|i: int|
        0 <= i < rs.len() && (#[trigger] rs[i]).topic == topic && rs[i].partition == partition && (
        rs[i].start,
        rs[i].end,
    ) == b
}

/// Every range that an aborted transaction covers of a partition is kept from readers, and no
/// other one.
pub proof fn every_aborted_range_counts(
    txs: Seq<TransactionState>,
    topic: Seq<char>,
    partition: u32,
)
    ensures
        forall|k: int, i: int|
            0 <= k < txs.len() && txs[k].status is Aborted && 0 <= i < txs[k].partitions@.len()
                && txs[k].partitions@[i].0@ == topic && txs[k].partitions@[i].1 == partition
                ==> aborted_bounds(txs, topic, partition).contains(
                ((#[trigger] txs[k].partitions@[i]).2, txs[k].partitions@[i].3),
            ),
        forall|j: int|
            0 <= j < aborted_bounds(txs, topic, partition).len() ==> aborted_over(
                txs,
                topic,
                partition,
                #[trigger] aborted_bounds(txs, topic, partition)[j],
            ),
    decreases txs.len(),
{
    if txs.len() > 0 {
        let less = txs.drop_last();
        let n = txs.len() - 1;
        every_aborted_range_counts(less, topic, partition);
        let before = aborted_bounds(less, topic, partition);
        let after = aborted_bounds(txs, topic, partition);
        let rs = txs[n]@.partitions;
        let own = bounds_of(rs, topic, partition);
        lemma_bounds(rs, topic, partition);
        assert forall|k: int, i: int|
            0 <= k < txs.len() && txs[k].status is Aborted && 0 <= i < txs[k].partitions@.len()
                && txs[k].partitions@[i].0@ == topic && txs[k].partitions@[i].1
                == partition implies after.contains(
            ((#[trigger] txs[k].partitions@[i]).2, txs[k].partitions@[i].3),
        ) by {
            let b = (txs[k].partitions@[i].2, txs[k].partitions@[i].3);
            if k < n {
                assert(less[k].partitions@[i] == txs[k].partitions@[i]);
                assert(before.contains(b));
                let q = choose|q: int| 0 <= q < before.len() && before[q] == b;
                assert(after[q] == b);
            } else {
                assert(rs[i].topic == topic && rs[i].partition == partition);
                assert(own.contains((rs[i].start, rs[i].end)));
                let q = choose|q: int| 0 <= q < own.len() && own[q] == b;
                assert(after[before.len() + q] == b);
            }
        }
        assert forall|j: int| 0 <= j < after.len() implies aborted_over(
            txs,
            topic,
            partition,
            #[trigger] after[j],
        ) by {
            if j < before.len() {
                assert(after[j] == before[j]);
                assert(aborted_over(less, topic, partition, before[j]));
                let (k, i) = choose|k: int, i: int|
                    0 <= k < less.len() && less[k].status is Aborted && 0 <= i
                        < less[k].partitions@.len() && (#[trigger] less[k].partitions@[i]).0@
                        == topic && less[k].partitions@[i].1 == partition && (
                    less[k].partitions@[i].2,
                    less[k].partitions@[i].3,
                ) == before[j];
                assert(txs[k].partitions@[i] == less[k].partitions@[i]);
            } else {
                assert(after[j] == own[j - before.len()]);
                assert(covers_bounds(rs, topic, partition, own[j - before.len()]));
                let i = choose|i: int|
                    0 <= i < rs.len() && (#[trigger] rs[i]).topic == topic && rs[i].partition
                        == partition && (rs[i].start, rs[i].end) == after[j];
                assert(txs[n].partitions@[i].0@ == topic);
            }
        }
    }
}

/// Some aborted transaction covers the partition over these bounds.
pub open spec fn aborted_over(
    txs: Seq<TransactionState>,
    topic: Seq<char>,
    partition: u32,
    b: (u64, u64),
) -> bool {
    exists|k: int, i: int|
        0 <= k < txs.len() && txs[k].status is Aborted && 0 <= i < txs[k].partitions@.len() && (
        #[trigger] txs[k].partitions@[i]).0@ == topic && txs[k].partitions@[i].1 == partition && (
        txs[k].partitions@[i].2,
        txs[k].partitions@[i].3,
    ) == b
}

/// A transaction takes too long once it has been undecided for more than the time that it is
/// given, counted from when it began; a clock that stands before that counts as no time. One that
/// is decided never does.
pub proof fn time_runs_from_the_beginning(tx: TxView, now_ms: u64, max_age_ms: u64)
    ensures
        is_expired(tx, now_ms, max_age_ms) <==> !(tx.status is Committed) && !(
        tx.status is Aborted) && now_ms > tx.created_at_ms + max_age_ms,
        is_stale(tx, now_ms, max_age_ms) <==> now_ms > tx.created_at_ms + max_age_ms || (max_age_ms
            == 0 && (tx.status is Committed || tx.status is Aborted)),
{
}

/// Bytes that break off before the status, the producer or the whole id are no record, and neither
/// are bytes with a status that there is not.
pub proof fn what_breaks_off_early_is_no_record(s: Seq<u8>)
    ensures
        s.len() < 11 ==> record_of(s) is None,
        s.len() >= 11 && s.len() - 11 < number(s.subrange(9, 11)) ==> record_of(s) is None,
        s.len() > 0 && !(1 <= s[0] <= 5) ==> record_of(s) is None,
{
}

/// A list of ranges has no more than were counted, and one that breaks off is read as far as it
/// goes.
pub proof fn ranges_are_read_as_far_as_they_go(s: Seq<u8>, count: int)
    ensures
        count <= 0 ==> ranges_in(s, count).len() == 0,
        s.len() < 22 ==> ranges_in(s, count).len() == 0,
        count >= 0 ==> ranges_in(s, count).len() <= count,
        22 * ranges_in(s, count).len() <= s.len(),
    decreases count,
{
    if s.len() >= 2 {
        lemma_number_range(s.take(2));
    }
    if !(count <= 0 || s.len() < 2 || s.len() - 2 < number(s.take(2)) + 20) {
        let at = 2 + number(s.take(2));
        ranges_are_read_as_far_as_they_go(s.skip(at + 20), count - 1);
    }
}

} // verus!
