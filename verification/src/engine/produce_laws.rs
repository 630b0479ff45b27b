//! What producers are promised: what becomes of a batch, and when it counts.
use crate::checksum::crc32_of;
use crate::engine::commit::{ack_status, acked_count, committed, needed_isr, pending, AckStatus};
use crate::engine::flow::{stepped, ProduceAction, ProduceEvent, ProducePhase};
use crate::engine::produce::{
    batch_fault, batch_judged, batch_noted, committed_to, end_told, keys_checked, marker_noted,
    routed, target_partition, Appending, ProduceBatchParams,
};
use crate::engine::state::{
    open_fault, system_topic, Access, EngineConfig, EngineView, StorageEngine,
};
use crate::partition::{
    appended_run, last_sequence, sync_due, total_size, BatchHeader, FlushPolicy, PartitionView,
    VerbatimAppendResult,
};
use crate::text::text_views;
use vstd::prelude::*;
use vstd::string::*;
use vstd::utf8::*;

verus! {

/// Nothing is different of any partition but the given one.
pub open spec fn other_partitions_untouched(
    before: StorageEngine,
    after: StorageEngine,
    key: (Seq<char>, u32),
) -> bool {
    forall|x: (Seq<char>, u32)|
        x != key ==> (#[trigger] after@.partitions.contains_key(x)
            <==> before@.partitions.contains_key(x)) && (before@.partitions.contains_key(x)
            ==> after@.partitions[x] == before@.partitions[x])
}

/// A batch numbers its records one by one, and its numbers do not run over.
pub open spec fn plainly_numbered(b: BatchHeader) -> bool {
    &&& b.record_count >= 1
    &&& b.record_count == b.last_offset_delta + 1
    &&& b.base_sequence + b.record_count - 1 <= i32::MAX
}

/// Once a batch is in the log, its producer may send it again: it is answered with the very
/// offsets that it got. What follows it without a gap is appended; what leaves a gap, or comes
/// under an older epoch, is refused.
pub proof fn a_retry_is_answered_as_before(
    before: StorageEngine,
    after: StorageEngine,
    topic: Seq<char>,
    partition: u32,
    batch: BatchHeader,
    due: bool,
    other: BatchHeader,
    r: Result<Appending, String>,
)
    requires
        batch_noted(before, after, topic, partition, batch, due),
        batch.wf(),
        batch.producer_id != 0,
        plainly_numbered(batch),
        other.producer_id == batch.producer_id,
        batch_judged(after, topic, partition, other, r),
    ensures
        other.base_sequence == batch.base_sequence && other.record_count == batch.record_count
            && other.producer_epoch == batch.producer_epoch ==> (r matches Ok(
            Appending::Duplicate { first_offset, last_offset },
        ) && first_offset == batch.base_offset && last_offset == batch.base_offset
            + batch.record_count - 1),
        other.producer_epoch == batch.producer_epoch && other.base_sequence == batch.base_sequence
            + batch.record_count ==> r matches Ok(Appending::Append),
        other.producer_epoch == batch.producer_epoch && other.base_sequence > batch.base_sequence
            + batch.record_count ==> r is Err,
        other.producer_epoch < batch.producer_epoch ==> r is Err,
        other.producer_epoch > batch.producer_epoch ==> r matches Ok(Appending::Append),
{
}

/// A batch without a producer is appended as it comes.
pub proof fn plain_batches_are_appended(
    e: StorageEngine,
    topic: Seq<char>,
    partition: u32,
    batch: BatchHeader,
    r: Result<Appending, String>,
)
    requires
        batch_judged(e, topic, partition, batch, r),
        batch.producer_id == 0,
    ensures
        r matches Ok(Appending::Append),
{
}

/// When the log has appended a batch, it ends behind the batch's last record. Nothing of it is
/// committed yet, and no other partition is touched.
pub proof fn appending_moves_the_end_only(
    before: StorageEngine,
    after: StorageEngine,
    topic: Seq<char>,
    partition: u32,
    batch: BatchHeader,
    due: bool,
)
    requires
        before@.partitions.contains_key((topic, partition)),
        batch.wf(),
        batch_noted(before, after, topic, partition, batch, due),
    ensures
        ({
            let p = before@.partitions[(topic, partition)];
            let q = after@.partitions[(topic, partition)];
            &&& q.log_end_offset == batch.base_offset + batch.last_offset_delta + 1
            &&& q.committed_hw == p.committed_hw
            &&& q.leader_id == p.leader_id && q.leader_epoch == p.leader_epoch
            &&& q.replicas == p.replicas && q.isr == p.isr
            &&& forall|x: u64|
                x != batch.producer_id ==> (#[trigger] q.producers.contains_key(x)
                    <==> p.producers.contains_key(x)) && (p.producers.contains_key(x)
                    ==> q.producers[x] == p.producers[x])
            &&& due <==> (p.flush_policy matches FlushPolicy::AsyncPeriodic { max_bytes, .. }
                && max_bytes > 0 && p.unsynced_bytes + batch.encoded_size >= max_bytes)
            &&& other_partitions_untouched(before, after, (topic, partition))
        }),
{
}

/// Committing up to an offset takes the committed offset behind it, unless it is there already,
/// and never back. Nothing else changes.
pub proof fn the_committed_offset_never_moves_back(
    before: StorageEngine,
    after: StorageEngine,
    topic: Seq<char>,
    partition: u32,
    last_offset: u64,
    moved: bool,
)
    requires
        before@.partitions.contains_key((topic, partition)),
        last_offset < u64::MAX,
        committed_to(before, after, topic, partition, last_offset, moved),
    ensures
        ({
            let p = before@.partitions[(topic, partition)];
            let q = after@.partitions[(topic, partition)];
            &&& q.committed_hw > last_offset
            &&& q.committed_hw >= p.committed_hw
            &&& q.committed_hw == p.committed_hw || q.committed_hw == last_offset + 1
            &&& moved <==> q.committed_hw > p.committed_hw
            &&& q == (PartitionView { committed_hw: q.committed_hw, ..p })
            &&& other_partitions_untouched(before, after, (topic, partition))
        }),
{
}

/// A marker is in the log, and committed, as soon as it is written.
pub proof fn a_marker_counts_at_once(
    before: StorageEngine,
    after: StorageEngine,
    topic: Seq<char>,
    partition: u32,
    offset: u64,
)
    requires
        before@.partitions.contains_key((topic, partition)),
        offset < u64::MAX,
        marker_noted(before, after, topic, partition, offset),
    ensures
        ({
            let p = before@.partitions[(topic, partition)];
            let q = after@.partitions[(topic, partition)];
            &&& q.log_end_offset == offset + 1
            &&& q.committed_hw > offset
            &&& q.committed_hw >= p.committed_hw
            &&& q.committed_hw == p.committed_hw || q.committed_hw == offset + 1
            &&& q.producers == p.producers
            &&& other_partitions_untouched(before, after, (topic, partition))
        }),
{
}

/// The number of a batch's last record is its first one and as many more as it has records behind
/// the first.
pub proof fn sequences_count_records(b: BatchHeader)
    requires
        plainly_numbered(b),
    ensures
        last_sequence(b) - b.base_sequence + 1 == b.record_count,
{
}

/// Of the entries that a leader sent, a follower has appended those before the first that its log
/// did not append, and no other.
pub proof fn the_run_ends_at_the_first_refusal(s: Seq<(BatchHeader, VerbatimAppendResult)>)
    ensures
        appended_run(s) <= s.len(),
        forall|i: int| 0 <= i < appended_run(s) ==> (#[trigger] s[i]).1 is Appended,
        appended_run(s) < s.len() ==> !(s[appended_run(s) as int].1 is Appended),
    decreases s.len(),
{
    if s.len() > 0 && s[0].1 is Appended {
        let rest = s.skip(1);
        the_run_ends_at_the_first_refusal(rest);
        assert forall|i: int| 0 <= i < appended_run(s) implies (#[trigger] s[i]).1 is Appended by {
            if i > 0 {
                assert(rest[i - 1] == s[i]);
            }
        }
        if appended_run(s) < s.len() {
            assert(rest[appended_run(rest) as int] == s[appended_run(s) as int]);
        }
    }
}

/// The length of entries is the sum of their lengths.
pub proof fn lengths_add_up(s: Seq<(BatchHeader, VerbatimAppendResult)>, n: int)
    requires
        0 <= n <= s.len(),
    ensures
        total_size(s) == total_size(s.take(n)) + total_size(s.skip(n)),
        s.len() == 1 ==> total_size(s) == s[0].0.encoded_size,
        s.len() == 0 ==> total_size(s) == 0,
    decreases s.len(),
{
    if s.len() == 1 {
        assert(s.drop_last() =~= Seq::empty());
        assert(total_size(s.drop_last()) == 0);
    }
    if n == s.len() {
        assert(s.take(n) =~= s);
        assert(s.skip(n) =~= Seq::empty());
    } else {
        lengths_add_up(s.drop_last(), n);
        assert(s.drop_last().take(n) =~= s.take(n));
        assert(s.drop_last().skip(n) =~= s.skip(n).drop_last());
        assert(s.skip(n).last() == s.last());
    }
}

/// The peers that have everything up to the offset are counted, each as often as it is listed.
pub proof fn every_acknowledgement_counts(
    peers: Seq<Seq<char>>,
    acked: Map<Seq<char>, u64>,
    target: u64,
)
    ensures
        acked_count(peers, acked, target) == peers.filter(
            |p: Seq<char>| acked.contains_key(p) && acked[p] >= target,
        ).len(),
        acked_count(peers, acked, target) <= peers.len(),
    decreases peers.len(),
{
    reveal(Seq::filter);
    if peers.len() > 0 {
        every_acknowledgement_counts(peers.drop_last(), acked, target);
    }
}

/// A metadata record is committed once more than half of the controllers have it, this one
/// included.
pub proof fn more_than_half_commit(c: EngineConfig, acked: Map<Seq<char>, u64>, offset: u64)
    ensures
        committed(c, acked, offset) <==> 2 * (text_views(c.controller_peer_addrs@).filter(
            |p: Seq<char>| acked.contains_key(p) && acked[p] >= offset,
        ).len() + 1) > c.controller_peer_addrs@.len() + 1,
{
    every_acknowledgement_counts(text_views(c.controller_peer_addrs@), acked, offset);
}

/// Whether the `i`-th of some nodes has everything up to the offset: it is this one, or its
/// address is known and has acknowledged it.
pub open spec fn node_has(
    v: EngineView,
    c: EngineConfig,
    isr: Seq<u32>,
    acked: Map<Seq<char>, u64>,
    target: u64,
    i: int,
) -> bool {
    isr[i] == c.node_id || (v.brokers.contains_key(isr[i]) && (v.brokers[isr[i]].addr matches Some(
        a,
    ) && acked.contains_key(a) && acked[a] >= target))
}

proof fn lemma_nothing_pending(
    v: EngineView,
    c: EngineConfig,
    isr: Seq<u32>,
    acked: Map<Seq<char>, u64>,
    target: u64,
)
    ensures
        pending(v, c, isr, acked, target).len() == 0 <==> (forall|i: int|
            0 <= i < isr.len() ==> #[trigger] node_has(v, c, isr, acked, target, i)),
    decreases isr.len(),
{
    if isr.len() > 0 {
        let less = isr.drop_last();
        let n = isr.len() - 1;
        lemma_nothing_pending(v, c, less, acked, target);
        assert forall|i: int| 0 <= i < n implies node_has(v, c, less, acked, target, i) == node_has(
            v,
            c,
            isr,
            acked,
            target,
            i,
        ) by {}
        if pending(v, c, isr, acked, target).len() == 0 {
            assert(pending(v, c, less, acked, target).len() == 0);
            assert forall|i: int| 0 <= i < isr.len() implies #[trigger] node_has(
                v,
                c,
                isr,
                acked,
                target,
                i,
            ) by {
                if i < n {
                    assert(node_has(v, c, less, acked, target, i));
                }
            }
        }
        if forall|i: int| 0 <= i < isr.len() ==> #[trigger] node_has(v, c, isr, acked, target, i) {
            assert(node_has(v, c, isr, acked, target, n));
            assert forall|i: int| 0 <= i < less.len() implies #[trigger] node_has(
                v,
                c,
                less,
                acked,
                target,
                i,
            ) by {
                assert(node_has(v, c, isr, acked, target, i));
            }
        }
    }
}

/// Where nodes are in sync, a write is done if and only if enough of them are, and every one has
/// it. It is given up only when its time is over, or when too few are in sync.
pub proof fn a_write_waits_for_every_node_in_sync(
    v: EngineView,
    c: EngineConfig,
    topic: Seq<char>,
    partition: u32,
    isr: Seq<u32>,
    acked: Map<Seq<char>, u64>,
    target: u64,
    timed_out: bool,
    timeout: Seq<char>,
    r: AckStatus,
)
    requires
        ack_status(v, c, topic, partition, isr, acked, target, timed_out, timeout, r),
        isr.len() > 0,
    ensures
        r is Done <==> isr.len() >= needed_isr(v, c, topic) && forall|i: int|
            0 <= i < isr.len() ==> #[trigger] node_has(v, c, isr, acked, target, i),
        r is Refused ==> timed_out || isr.len() < needed_isr(v, c, topic),
        isr.len() < needed_isr(v, c, topic) ==> r is Refused,
        r is Wait ==> !timed_out,
{
    lemma_nothing_pending(v, c, isr, acked, target);
}

/// Where it is not known who is in sync, a write is done if and only if as many nodes have it as
/// have to be in sync, this one included.
pub proof fn a_write_waits_for_enough_nodes(
    v: EngineView,
    c: EngineConfig,
    topic: Seq<char>,
    partition: u32,
    acked: Map<Seq<char>, u64>,
    target: u64,
    timed_out: bool,
    timeout: Seq<char>,
    r: AckStatus,
)
    requires
        ack_status(v, c, topic, partition, Seq::empty(), acked, target, timed_out, timeout, r),
    ensures
        r is Done <==> text_views(c.peer_addrs@).filter(
            |p: Seq<char>| acked.contains_key(p) && acked[p] >= target,
        ).len() + 1 >= needed_isr(v, c, topic),
        r is Refused ==> timed_out,
        r is Wait ==> !timed_out,
{
    every_acknowledgement_counts(text_views(c.peer_addrs@), acked, target);
}

/// Records with one key go to one partition, which is there; records without a key go to the
/// first. The partition of a key is what its checksum leaves when divided by their number.
pub proof fn a_key_has_one_partition(key: Seq<char>, num_partitions: u32)
    requires
        num_partitions > 0,
    ensures
        target_partition(key, num_partitions) < num_partitions,
        key.len() == 0 ==> target_partition(key, num_partitions) == 0,
        key.len() > 0 ==> exists|q: int|
            crc32_of(encode_utf8(key)) == #[trigger] (q * num_partitions) + target_partition(
                key,
                num_partitions,
            ),
{
    if key.len() > 0 {
        let h = crc32_of(encode_utf8(key)) as int;
        let n = num_partitions as int;
        vstd::arithmetic::div_mod::lemma_fundamental_div_mod(h, n);
        vstd::arithmetic::div_mod::lemma_mod_bound(h, n);
        assert(h == (h / n) * num_partitions + target_partition(key, num_partitions)) by (
            nonlinear_arith)
            requires
                h == n * (h / n) + h % n,
                n == num_partitions,
                target_partition(key, num_partitions) == h % n,
        ;
    }
}

/// A batch is too large, or asks for too many partitions, exactly beyond the limits that are set.
pub proof fn limits_are_kept(
    e: StorageEngine,
    topic: Seq<char>,
    num_partitions: u32,
    batch: BatchHeader,
)
    ensures
        batch_fault(e, topic, None, num_partitions, batch) is None <==> (
        e.config.message_max_bytes matches Some(max) ==> batch.encoded_size <= max)
            && num_partitions <= e.config.max_partitions_per_topic,
{
}

/// A batch of a transaction is refused wherever its transaction refuses it, and otherwise like any
/// other.
pub proof fn a_transaction_adds_to_the_limits(
    e: StorageEngine,
    topic: Seq<char>,
    k: Seq<char>,
    num_partitions: u32,
    batch: BatchHeader,
)
    ensures
        batch_fault(e, topic, Some(k), num_partitions, batch) is None <==> batch_fault(
            e,
            topic,
            None,
            num_partitions,
            batch,
        ) is None && crate::engine::produce::transaction_fault(
            e.transactions.producers(),
            e.transactions.txs(),
            k,
            batch.producer_id,
            batch.producer_epoch,
        ) is None,
{
}

/// A batch that goes somewhere has no fault, and goes to the partition of its key.
pub proof fn what_is_routed_is_sound(
    e: StorageEngine,
    topic: Seq<char>,
    key: Seq<char>,
    tx: Option<Seq<char>>,
    num_partitions: u32,
    batch: BatchHeader,
    r: Result<(u32, Access), String>,
)
    requires
        routed(e, topic, key, tx, num_partitions, batch, r),
    ensures
        batch_fault(e, topic, tx, num_partitions, batch) is Some ==> r is Err,
        r matches Ok(x) ==> x.0 == target_partition(key, num_partitions) && (x.1 is Ready
            <==> e@.partitions.contains_key((topic, x.0))),
        e@.partitions.contains_key((topic, target_partition(key, num_partitions))) && batch_fault(
            e,
            topic,
            tx,
            num_partitions,
            batch,
        ) is None ==> r is Ok,
{
}

/// Where records are kept by key, a batch with a record that has none is refused, and only then.
pub proof fn compacted_records_need_keys(
    e: StorageEngine,
    topic: Seq<char>,
    partition: u32,
    has_key: Seq<bool>,
    r: Result<(), String>,
)
    requires
        keys_checked(e, topic, partition, has_key, r),
    ensures
        r is Err <==> !(e@.partitions[(topic, partition)].cleanup_policy is Delete) && exists|
            i: int,
        |
            0 <= i < has_key.len() && !(#[trigger] has_key[i]),
{
}

/// The batch is new to its partition: it is of no producer, or goes on where its producer ended.
pub open spec fn goes_on(p: PartitionView, b: BatchHeader) -> bool {
    b.producer_id == 0 || (p.producers.contains_key(b.producer_id) ==> ({
        let last = p.producers[b.producer_id];
        b.producer_epoch > last.epoch || (b.producer_epoch == last.epoch && b.base_sequence
            == last.last_sequence + 1)
    }))
}

/// Only a batch that goes on where its producer ended is handed to the log.
pub proof fn what_is_appended_goes_on(
    before: StorageEngine,
    after: StorageEngine,
    params: ProduceBatchParams<'_>,
    at: ProducePhase,
    event: ProduceEvent,
    r: (ProducePhase, ProduceAction),
)
    requires
        stepped(before, after, params, at, event, r),
        r.1 is Append,
    ensures
        goes_on(
            before@.partitions[(params.topic@, r.1->Append_partition)],
            params.batch,
        ),
        r.0 == (ProducePhase::Storing { partition: r.1->Append_partition }),
        after == before,
{
}

/// What is answered for, or waited for, after the log has taken a batch, are the offsets that the
/// log gave it; and where every batch is synced, the log is synced first.
pub proof fn a_stored_batch_is_told_its_offsets(
    before: StorageEngine,
    after: StorageEngine,
    params: ProduceBatchParams<'_>,
    partition: u32,
    batch: BatchHeader,
    r: (ProducePhase, ProduceAction),
)
    requires
        before@.partitions.contains_key((params.topic@, partition)),
        batch.wf(),
        stepped(
            before,
            after,
            params,
            ProducePhase::Storing { partition },
            ProduceEvent::Stored { batch },
            r,
        ),
    ensures
        r.1 matches ProduceAction::Answer { partition: p, first, last, .. } ==> p == partition
            && first == batch.base_offset && last == batch.base_offset + batch.last_offset_delta,
        r.1 matches ProduceAction::Await { partition: p, last, .. } ==> p == partition && last
            == batch.base_offset + batch.last_offset_delta,
        r.1 is Answer || r.1 is Await || r.1 is Sync,
        !(before@.partitions[(params.topic@, partition)].flush_policy is AsyncPeriodic) ==> r.1
            is Sync,
{
}

/// Each step of a batch goes on with the partition that it began with, and ends with the offsets
/// that the log gave.
pub proof fn a_batch_keeps_its_offsets(
    before: StorageEngine,
    after: StorageEngine,
    params: ProduceBatchParams<'_>,
    partition: u32,
    first: u64,
    last: u64,
    synced: bool,
    r: (ProducePhase, ProduceAction),
)
    requires
        synced ==> stepped(
            before,
            after,
            params,
            ProducePhase::Syncing { partition, first, last },
            ProduceEvent::Synced,
            r,
        ),
        !synced ==> stepped(
            before,
            after,
            params,
            ProducePhase::Replicating { partition, first, last },
            ProduceEvent::Replicated,
            r,
        ),
    ensures
        r.1 matches ProduceAction::Answer { partition: p, first: f, last: l, .. } ==> p == partition
            && f == first && l == last,
        r.1 matches ProduceAction::Await { partition: p, last: l, .. } ==> p == partition && l
            == last,
        r.1 is Answer || r.1 is Await,
        !synced ==> r.1 is Answer,
{
}

/// The end of an open log is told as it is; the log of a topic that nobody created ends at zero.
pub proof fn the_end_of_a_log_is_told(
    e: StorageEngine,
    topic: Seq<char>,
    partition: u32,
    r: Result<Option<u64>, String>,
)
    requires
        end_told(e, topic, partition, r),
    ensures
        e@.partitions.contains_key((topic, partition)) ==> r == Ok::<Option<u64>, String>(
            Some(e@.partitions[(topic, partition)].log_end_offset),
        ),
        !e@.partitions.contains_key((topic, partition)) && !e@.topics.contains_key(topic)
            && !system_topic(topic) ==> r == Ok::<Option<u64>, String>(Some(0)),
        !e@.partitions.contains_key((topic, partition)) && e@.topics.contains_key(topic) && open_fault(
            e@,
            e.config,
            topic,
            partition,
        ) is None ==> r == Ok::<Option<u64>, String>(None),
{
}

/// A batch of so many records that ends at an offset begins that many before it.
pub proof fn a_batch_begins_where_its_records_do(last: u64, count: u32)
    requires
        count > 0,
        last >= count - 1,
    ensures
        last - crate::engine::produce::first_of(last, count) + 1 == count,
{
}

/// Waiting bytes are synced at once when there are as many as the policy lets wait, and never by
/// their number where it sets none.
pub proof fn enough_waiting_bytes_are_synced(policy: FlushPolicy, waiting: int)
    ensures
        policy matches FlushPolicy::AsyncPeriodic { max_bytes, .. } ==> (max_bytes > 0 ==> (sync_due(
            policy,
            waiting,
        ) <==> waiting >= max_bytes)),
        policy matches FlushPolicy::AsyncPeriodic { max_bytes, .. } ==> (max_bytes == 0
            ==> !sync_due(policy, waiting)),
        !(policy is AsyncPeriodic) ==> !sync_due(policy, waiting),
{
}

/// Ranges that rise are in order of where they begin, then of where they end, and none comes twice.
pub proof fn rising_ranges_come_once(s: Seq<(u64, u64)>, i: int, j: int)
    requires
        crate::engine::produce::rising_pairs(s),
        0 <= i < j < s.len(),
    ensures
        s[i].0 <= s[j].0,
        s[i].0 == s[j].0 ==> s[i].1 < s[j].1,
        s[i] != s[j],
{
    assert(crate::engine::produce::pair_before(s[i], s[j]));
}

/// A sum of sizes is told as it is, as far as it can be written down.
pub proof fn sums_are_told_as_they_are(x: int)
    ensures
        0 <= x <= u64::MAX ==> crate::partition::capped(x) == x && crate::partition::wrapped(x)
            == x,
        x > u64::MAX ==> crate::partition::capped(x) == u64::MAX,
{
}

} // verus!
