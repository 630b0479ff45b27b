//! Taking batches in, and giving records out.
use crate::checksum::{hash_key, partition_of_key};
use crate::engine::commit::needed_isr;
use crate::engine::state::{
    access, leads, open_fault, system_topic, unknown_topic, Access, EngineView, StorageEngine,
};
use crate::engine::table::partition_name;
use crate::partition::{last_sequence, sync_due, wrapped, BatchHeader, CleanupPolicy, PartitionView};
use crate::producer::{judged, ProducerStateEntry};
use crate::text::{concat3, concat5, decimal, decimal_text, owned, signed_decimal};
use crate::transaction::manager::{TransactionalProducerState, TxView};
use crate::transaction::queries::{aborted_bounds, is_stable_up_to};
use vstd::prelude::*;
use vstd::string::*;
use vstd::utf8::*;

verus! {

/// Why a producer may not write under a transactional id, if it may not.
pub open spec fn producer_fault(
    ps: Map<Seq<char>, TransactionalProducerState>,
    k: Seq<char>,
    producer_id: u64,
    producer_epoch: i16,
) -> Option<Seq<char>> {
    if !ps.contains_key(k) {
        Some("TransactionalId '"@ + k + "' is not initialized"@)
    } else if ps[k].producer_id != producer_id {
        Some("Producer ID mismatch for transactional.id '"@ + k + "'"@)
    } else if ps[k].producer_epoch != producer_epoch {
        Some(
            "Producer fenced for transactional.id '"@ + k + "' (expected epoch "@ + signed_decimal(
                ps[k].producer_epoch as int,
            ) + ", got "@ + signed_decimal(producer_epoch as int) + ")"@,
        )
    } else {
        None
    }
}

/// Why a batch of a transaction is refused, if it is.
pub open spec fn transaction_fault(
    ps: Map<Seq<char>, TransactionalProducerState>,
    txs: Map<Seq<char>, TxView>,
    k: Seq<char>,
    producer_id: u64,
    producer_epoch: i16,
) -> Option<Seq<char>> {
    if ps.contains_key(k) && producer_id == 0 {
        Some("Transactional produce requires a non-zero producer_id"@)
    } else if ps.contains_key(k) && producer_fault(ps, k, producer_id, producer_epoch) is Some {
        producer_fault(ps, k, producer_id, producer_epoch)
    } else if !(txs.contains_key(k) && txs[k].status is Ongoing) {
        Some("Transaction '"@ + k + "' is not active"@)
    } else {
        None
    }
}

/// The partition that a record goes to: that of its key, if it has one.
pub open spec fn target_partition(key: Seq<char>, num_partitions: u32) -> u32 {
    if key.len() > 0 && num_partitions > 0 {
        partition_of_key(encode_utf8(key), num_partitions as int) as u32
    } else {
        0
    }
}

/// Chooses the partition that a record goes to.
pub fn choose_partition(key: &str, num_partitions: u32) -> (r: u32)
    ensures
        r == target_partition(key@, num_partitions),
        num_partitions > 0 ==> r < num_partitions,
{
    if !key.is_empty() && num_partitions > 0 {
        hash_key(key.as_bytes(), num_partitions as usize)
    } else {
        0
    }
}

/// Why a batch is refused before its partition is looked at, if it is.
pub open spec fn batch_fault(
    e: StorageEngine,
    topic: Seq<char>,
    transaction_id: Option<Seq<char>>,
    num_partitions: u32,
    batch: BatchHeader,
) -> Option<Seq<char>> {
    let tx = match transaction_id {
        Some(k) => transaction_fault(
            e.transactions.producers(),
            e.transactions.txs(),
            k,
            batch.producer_id,
            batch.producer_epoch,
        ),
        None => None,
    };
    if tx is Some {
        tx
    } else if e.config.message_max_bytes is Some && batch.encoded_size
        > e.config.message_max_bytes->0 {
        Some(
            "Batch of "@ + decimal(batch.encoded_size as nat)
                + " bytes exceeds message.max.bytes ("@ + decimal(
                e.config.message_max_bytes->0 as nat,
            ) + ")"@,
        )
    } else if num_partitions > e.config.max_partitions_per_topic {
        Some(
            "Requested "@ + decimal(num_partitions as nat) + " partitions for topic '"@ + topic
                + "' exceeds max.partitions.per.topic ("@ + decimal(
                e.config.max_partitions_per_topic as nat,
            ) + ")"@,
        )
    } else {
        None
    }
}

/// Whether records of this policy are kept by key.
pub open spec fn compacts(policy: CleanupPolicy) -> bool {
    policy is Compact || policy is CompactDelete
}

/// A batch that a client wants appended.
pub struct ProduceBatchParams<'a> {
    pub topic: &'a str,
    pub key: &'a str,
    pub transaction_id: Option<&'a str>,
    pub num_partitions: u32,
    pub batch: BatchHeader,
}

impl ProduceBatchParams<'_> {
    /// The transaction that the batch belongs to, if it belongs to one.
    pub open spec fn tx(self) -> Option<Seq<char>> {
        match self.transaction_id {
            Some(k) => Some(k@),
            None => None,
        }
    }
}

/// What the log has to do with a batch.
pub enum Appending {
    /// Append it.
    Append,
    /// Nothing: it was appended before, at these offsets.
    Duplicate { first_offset: u64, last_offset: u64 },
}

/// A stored record, as far as readers are told apart by it.
pub struct LogFrame {
    pub offset: u64,
    pub is_control: bool,
    pub value: Vec<u8>,
}

/// Whether an offset lies in one of the ranges, ends included.
pub open spec fn in_ranges(ranges: Seq<(u64, u64)>, offset: u64) -> bool {
    exists|i: int| 0 <= i < ranges.len() && (#[trigger] ranges[i]).0 <= offset <= ranges[i].1
}

/// Whether a reader of committed records is shown a frame.
pub open spec fn shows(
    frame: LogFrame,
    lso: u64,
    aborted: Seq<(u64, u64)>,
    index: Seq<(u64, u64)>,
) -> bool {
    !frame.is_control && frame.offset < lso && !in_ranges(index, frame.offset) && !in_ranges(
        aborted,
        frame.offset,
    )
}

/// Whether pairs rise, the first number first.
pub open spec fn rising_pairs(s: Seq<(u64, u64)>) -> bool {
    forall|i: int, j: int| 0 <= i < j < s.len() ==> pair_before(#[trigger] s[i], #[trigger] s[j])
}

pub open spec fn pair_before(a: (u64, u64), b: (u64, u64)) -> bool {
    a.0 < b.0 || (a.0 == b.0 && a.1 < b.1)
}

fn check_ranges(ranges: &[(u64, u64)], offset: u64) -> (r: bool)
    ensures
        r == in_ranges(ranges@, offset),
{
    let mut i: usize = 0;
    while i < ranges.len()
        invariant
            i <= ranges.len(),
            forall|j: int|
                0 <= j < i ==> !((#[trigger] ranges@[j]).0 <= offset <= ranges@[j].1),
        decreases ranges.len() - i,
    {
        if ranges[i].0 <= offset && offset <= ranges[i].1 {
            assert(ranges@[i as int].0 <= offset <= ranges@[i as int].1);
            return true;
        }
        i = i + 1;
    }
    false
}

fn insert_pair(v: &mut Vec<(u64, u64)>, x: (u64, u64))
    requires
        rising_pairs(old(v)@),
    ensures
        rising_pairs(final(v)@),
        forall|y: (u64, u64)| #[trigger] final(v)@.contains(y) <==> old(v)@.contains(y) || y == x,
{
    let mut i: usize = 0;
    while i < v.len() && (v[i].0 < x.0 || (v[i].0 == x.0 && v[i].1 < x.1))
        invariant
            i <= v.len(),
            rising_pairs(v@),
            v@ == old(v)@,
            forall|j: int| 0 <= j < i ==> pair_before(#[trigger] v@[j], x),
        decreases v.len() - i,
    {
        i = i + 1;
    }
    let ghost before = v@;
    if i < v.len() && v[i].0 == x.0 && v[i].1 == x.1 {
        assert(before[i as int] == x);
        return ;
    }
    v.insert(i, x);
    proof {
        let after = v@;
        assert(i < before.len() ==> pair_before(x, before[i as int]));
        assert forall|a: int, b: int| 0 <= a < b < after.len() implies pair_before(
            #[trigger] after[a],
            #[trigger] after[b],
        ) by {
            if b < i {
                assert(pair_before(before[a], before[b]));
            } else if b == i {
                assert(pair_before(before[a], x));
            } else if a < i {
                assert(pair_before(before[a], before[b - 1]));
            } else if a == i {
                if b - 1 > i {
                    assert(pair_before(before[i as int], before[b - 1]));
                }
                assert(pair_before(x, before[i as int]));
            } else {
                assert(pair_before(before[a - 1], before[b - 1]));
            }
        }
        assert forall|y: (u64, u64)| #[trigger] after.contains(y) <==> before.contains(y) || y
            == x by {
            if before.contains(y) {
                let k = choose|k: int| 0 <= k < before.len() && before[k] == y;
                if k < i {
                    assert(after[k] == y);
                } else {
                    assert(after[k + 1] == y);
                }
            }
            if y == x {
                assert(after[i as int] == y);
            }
            if after.contains(y) {
                let k = choose|k: int| 0 <= k < after.len() && after[k] == y;
                if k < i {
                    assert(before[k] == y);
                } else if k > i {
                    assert(before[k - 1] == y);
                }
            }
        }
    }
}

fn insert_pairs(v: &mut Vec<(u64, u64)>, xs: &[(u64, u64)])
    requires
        rising_pairs(old(v)@),
    ensures
        rising_pairs(final(v)@),
        forall|y: (u64, u64)| #[trigger]
            final(v)@.contains(y) <==> old(v)@.contains(y) || xs@.contains(y),
{
    let mut i: usize = 0;
    while i < xs.len()
        invariant
            i <= xs.len(),
            rising_pairs(v@),
            forall|y: (u64, u64)| #[trigger]
                v@.contains(y) ==> old(v)@.contains(y) || xs@.contains(y),
            forall|y: (u64, u64)| #[trigger] old(v)@.contains(y) ==> v@.contains(y),
            forall|j: int| 0 <= j < i ==> v@.contains(#[trigger] xs@[j]),
        decreases xs.len() - i,
    {
        assert(xs@.contains(xs@[i as int]));
        insert_pair(v, xs[i]);
        i = i + 1;
    }
    assert forall|y: (u64, u64)| xs@.contains(y) implies v@.contains(y) by {
        let j = choose|j: int| 0 <= j < xs@.len() && xs@[j] == y;
        assert(v@.contains(xs@[j]));
    }
}

/// The frames of a sequence that pass.
pub open spec fn passing(
    frames: Seq<LogFrame>,
    lso: u64,
    aborted: Seq<(u64, u64)>,
    index: Seq<(u64, u64)>,
) -> Seq<LogFrame>
    decreases frames.len(),
{
    if frames.len() == 0 {
        Seq::empty()
    } else {
        let before = passing(frames.drop_last(), lso, aborted, index);
        if shows(frames.last(), lso, aborted, index) {
            before.push(frames.last())
        } else {
            before
        }
    }
}

/// The frames that are committed.
pub open spec fn below(frames: Seq<LogFrame>, hw: u64) -> Seq<LogFrame>
    decreases frames.len(),
{
    if frames.len() == 0 {
        Seq::empty()
    } else {
        let before = below(frames.drop_last(), hw);
        if frames.last().offset < hw {
            before.push(frames.last())
        } else {
            before
        }
    }
}

/// The offset below which a partition may be read: the committed one, if the partition is open.
pub open spec fn read_limit(v: EngineView, topic: Seq<char>, partition: u32) -> u64 {
    if v.partitions.contains_key((topic, partition)) {
        v.partitions[(topic, partition)].committed_hw
    } else {
        0
    }
}

/// Drops the frames that are not committed yet.
pub fn clamp_to_watermark(frames: Vec<LogFrame>, hw: u64) -> (r: Vec<LogFrame>)
    ensures
        r@ == below(frames@, hw),
{
    let mut out: Vec<LogFrame> = Vec::new();
    let ghost all = frames@;
    for f in it: frames
        invariant
            it.seq() == all,
            out@ == below(all.take(it.index() as int), hw),
    {
        let ghost i = it.index() as int;
        proof {
            assert(all.take(i + 1).drop_last() =~= all.take(i));
            assert(all.take(i + 1).last() == f);
        }
        if f.offset < hw {
            out.push(f);
        }
    }
    assert(all.take(all.len() as int) =~= all);
    out
}

/// How a batch is judged by the keys of its records.
pub open spec fn keys_checked(
    e: StorageEngine,
    topic: Seq<char>,
    partition: u32,
    has_key: Seq<bool>,
    r: Result<(), String>,
) -> bool {
    let keyed = compacts(e@.partitions[(topic, partition)].cleanup_policy);
    match r {
        Ok(()) => !keyed || forall|i: int|
            0 <= i < has_key.len() ==> #[trigger] has_key[i],
        Err(m) => keyed && exists|bad: int|
            {
                &&& 0 <= bad < has_key.len()
                &&& !(#[trigger] has_key[bad])
                &&& forall|i: int| 0 <= i < bad ==> has_key[i]
                &&& m@ == "Compacted topic '"@ + topic
                    + "' cannot accept a record without a key (record "@ + decimal(
                    bad as nat,
                ) + " of "@ + decimal(has_key.len()) + " in this batch)"@
            },
    }
}

/// The offset of the first of so many records that end at `last`. An empty batch begins where it
/// ends.
pub open spec fn first_of(last: u64, count: u32) -> u64 {
    if count <= 1 {
        last
    } else if last >= count - 1 {
        (last - (count - 1)) as u64
    } else {
        0
    }
}

/// How a batch is judged by what its producer has sent before.
pub open spec fn batch_judged(
    e: StorageEngine,
    topic: Seq<char>,
    partition: u32,
    batch: BatchHeader,
    r: Result<Appending, String>,
) -> bool {
    let j = judged(
        e@.partitions[(topic, partition)].producers,
        batch.producer_id,
        batch.producer_epoch,
        batch.base_sequence,
    );
    if batch.producer_id == 0 || j is Ok {
        r matches Ok(Appending::Append)
    } else if j->Err_0.0 {
        r matches Ok(Appending::Duplicate { first_offset, last_offset }) && last_offset
            == j->Err_0.1 && first_offset == first_of(last_offset, batch.record_count)
    } else {
        r matches Err(m) && m@ == "Out of order sequence"@
    }
}

/// What becomes of the broker when its log has appended a batch.
pub open spec fn batch_noted(
    before: StorageEngine,
    after: StorageEngine,
    topic: Seq<char>,
    partition: u32,
    batch: BatchHeader,
    due: bool,
) -> bool {
    let p = before@.partitions[(topic, partition)];
    let waiting = p.unsynced_bytes + batch.encoded_size;
    &&& due == sync_due(p.flush_policy, waiting)
    &&& after@ == (EngineView {
        partitions: before@.partitions.insert(
            (topic, partition),
            PartitionView {
                log_end_offset: (batch.last_offset() + 1) as u64,
                unsynced_bytes: wrapped(waiting),
                producers: if batch.producer_id == 0 {
                    p.producers
                } else {
                    p.producers.insert(
                        batch.producer_id,
                        ProducerStateEntry {
                            epoch: batch.producer_epoch,
                            last_sequence: last_sequence(batch),
                            last_offset: batch.last_offset() as u64,
                        },
                    )
                },
                ..p
            },
        ),
        ..before@
    })
}

/// What becomes of the broker when a partition is committed up to and with an offset.
pub open spec fn committed_to(
    before: StorageEngine,
    after: StorageEngine,
    topic: Seq<char>,
    partition: u32,
    last_offset: u64,
    moved: bool,
) -> bool {
    let p = before@.partitions[(topic, partition)];
    &&& moved == (last_offset >= p.committed_hw)
    &&& after@ == (EngineView {
        partitions: before@.partitions.insert(
            (topic, partition),
            PartitionView {
                committed_hw: if last_offset >= p.committed_hw {
                    (last_offset + 1) as u64
                } else {
                    p.committed_hw
                },
                ..p
            },
        ),
        ..before@
    })
}

/// Where a batch goes, or why it goes nowhere.
pub open spec fn routed(
    e: StorageEngine,
    topic: Seq<char>,
    key: Seq<char>,
    tx: Option<Seq<char>>,
    num_partitions: u32,
    batch: BatchHeader,
    r: Result<(u32, Access), String>,
) -> bool {
    let fault = batch_fault(e, topic, tx, num_partitions, batch);
    let p = target_partition(key, num_partitions);
    let known = system_topic(topic) || e@.topics.contains_key(topic);
    match r {
        Ok((partition, a)) => {
            &&& fault is None
            &&& partition == p
            &&& a == access(e@, topic, p)
            &&& a is Ready || ((known || e.config.auto_create_topics_enable)
                && open_fault(e@, e.config, topic, p) is None)
        },
        Err(m) => if fault is Some {
            fault == Some(m@)
        } else {
            access(e@, topic, p) is Open && (if !known
                && !e.config.auto_create_topics_enable {
                m@ == unknown_topic(topic)
            } else {
                open_fault(e@, e.config, topic, p) == Some(m@)
            })
        },
    }
}

/// What becomes of the broker when its log has appended a marker.
pub open spec fn marker_noted(
    before: StorageEngine,
    after: StorageEngine,
    topic: Seq<char>,
    partition: u32,
    offset: u64,
) -> bool {
    let p = before@.partitions[(topic, partition)];
    after@ == (EngineView {
        partitions: before@.partitions.insert(
            (topic, partition),
            PartitionView {
                log_end_offset: (offset + 1) as u64,
                committed_hw: if offset >= p.committed_hw {
                    (offset + 1) as u64
                } else {
                    p.committed_hw
                },
                ..p
            },
        ),
        ..before@
    })
}

impl StorageEngine {
    fn check_transaction(&self, transaction_id: &str, producer_id: u64, producer_epoch: i16) -> (r:
        Result<(), String>)
        requires
            self.wf(),
        ensures
            match r {
                Ok(()) => transaction_fault(
                    self.transactions.producers(),
                    self.transactions.txs(),
                    transaction_id@,
                    producer_id,
                    producer_epoch,
                ) is None,
                Err(e) => transaction_fault(
                    self.transactions.producers(),
                    self.transactions.txs(),
                    transaction_id@,
                    producer_id,
                    producer_epoch,
                ) == Some(e@),
            },
    {
        if self.transactions.has_transactional_producer(transaction_id) {
            if producer_id == 0 {
                return Err(owned("Transactional produce requires a non-zero producer_id"));
            }
            match self.transactions.validate_transactional_producer(
                transaction_id,
                producer_id,
                producer_epoch,
            ) {
                Ok(()) => {},
                Err(e) => {
                    return Err(e);
                },
            }
        }
        if !self.transactions.is_ongoing(transaction_id) {
            return Err(concat3("Transaction '", transaction_id, "' is not active"));
        }
        Ok(())
    }

    /// Checks a batch, and says which partition it goes to and whether that has to be opened.
    pub fn route_batch(&self, params: &ProduceBatchParams) -> (r: Result<(u32, Access), String>)
        requires
            self.wf(),
        ensures
            routed(*self, params.topic@, params.key@, params.tx(), params.num_partitions, params.batch, r),
    {
        let topic: &str = params.topic;
        let batch: &BatchHeader = &params.batch;
        match params.transaction_id {
            Some(tx) => match self.check_transaction(tx, batch.producer_id, batch.producer_epoch) {
                Ok(()) => {},
                Err(e) => {
                    return Err(e);
                },
            },
            None => {},
        }
        match self.config.message_max_bytes {
            Some(max) => if batch.encoded_size > max {
                let have: String = decimal_text(batch.encoded_size);
                let limit: String = decimal_text(max);
                return Err(
                    concat5(
                        "Batch of ",
                        have.as_str(),
                        " bytes exceeds message.max.bytes (",
                        limit.as_str(),
                        ")",
                    ),
                );
            },
            None => {},
        }
        if params.num_partitions > self.config.max_partitions_per_topic {
            let have: String = decimal_text(params.num_partitions as u64);
            let limit: String = decimal_text(self.config.max_partitions_per_topic as u64);
            let head: String = concat5(
                "Requested ",
                have.as_str(),
                " partitions for topic '",
                topic,
                "' exceeds max.partitions.per.topic (",
            );
            return Err(concat3(head.as_str(), limit.as_str(), ")"));
        }
        let partition: u32 = choose_partition(params.key, params.num_partitions);
        match self.get_or_create_partition_for_client(topic, partition) {
            Ok(a) => Ok((partition, a)),
            Err(e) => Err(e),
        }
    }

    /// Whether a partition keeps its records by key, so that each needs one.
    pub fn needs_keys(&self, topic: &str, partition: u32) -> (r: bool)
        requires
            self.wf(),
        ensures
            r == (self@.partitions.contains_key((topic@, partition)) && compacts(
                self@.partitions[(topic@, partition)].cleanup_policy,
            )),
    {
        match self.partitions.get(topic, partition) {
            Some(p) => match p.cleanup_policy {
                CleanupPolicy::Delete => false,
                _ => true,
            },
            None => false,
        }
    }

    /// Refuses a batch with a record without a key, if the partition keeps its records by key.
    /// `has_key` says of each record whether it has one.
    pub fn check_keys(&self, topic: &str, partition: u32, has_key: &[bool]) -> (r: Result<
        (),
        String,
    >)
        requires
            self.wf(),
            self@.partitions.contains_key((topic@, partition)),
        ensures
            keys_checked(*self, topic@, partition, has_key@, r),
    {
        if !self.needs_keys(topic, partition) {
            return Ok(());
        }
        let mut i: usize = 0;
        while i < has_key.len()
            invariant
                i <= has_key.len(),
                compacts(self@.partitions[(topic@, partition)].cleanup_policy),
                forall|j: int| 0 <= j < i ==> #[trigger] has_key@[j],
            decreases has_key.len() - i,
        {
            if !has_key[i] {
                let bad: String = decimal_text(i as u64);
                let all: String = decimal_text(has_key.len() as u64);
                let head: String = concat5(
                    "Compacted topic '",
                    topic,
                    "' cannot accept a record without a key (record ",
                    bad.as_str(),
                    " of ",
                );
                assert(!has_key@[i as int]);
                return Err(concat3(head.as_str(), all.as_str(), " in this batch)"));
            }
            i = i + 1;
        }
        Ok(())
    }

    /// Whether the log has to append a batch. A batch that was appended before is answered as
    /// it was then, and one out of turn is refused.
    pub fn produce_batch(&self, topic: &str, partition: u32, batch: &BatchHeader) -> (r: Result<
        Appending,
        String,
    >)
        requires
            self.wf(),
            self@.partitions.contains_key((topic@, partition)),
        ensures
            batch_judged(*self, topic@, partition, *batch, r),
    {
        match self.partitions.get(topic, partition) {
            None => Ok(Appending::Append),
            Some(p) => match p.check_sequence(
                batch.producer_id,
                batch.producer_epoch,
                batch.base_sequence,
            ) {
                Ok(Ok(())) => Ok(Appending::Append),
                Ok(Err(last_offset)) => {
                    let before: u64 = (batch.record_count as u64).saturating_sub(1);
                    let first_offset: u64 = last_offset.saturating_sub(before);
                    Ok(Appending::Duplicate { first_offset, last_offset })
                },
                Err(e) => Err(e),
            },
        }
    }

    /// Notes that a batch was appended to a partition. Returns whether a sync is due because so
    /// many bytes are waiting.
    pub fn batch_appended(&mut self, topic: &str, partition: u32, batch: &BatchHeader) -> (due: bool)
        requires
            old(self).wf(),
            old(self)@.partitions.contains_key((topic@, partition)),
            batch.wf(),
        ensures
            final(self).wf(),
            final(self).same_node(*old(self)),
            batch_noted(*old(self), *final(self), topic@, partition, *batch, due),
    {
        match self.partitions.find(topic, partition) {
            Some(i) => {
                let ghost before = self.partitions;
                let p = self.partitions.partitions.value_mut(i);
                let due: bool = p.produce_batch_eos(batch);
                proof {
                    let q = self.partitions.partitions@[partition_name((topic@, partition))];
                    before.lemma_replaced(self.partitions, (topic@, partition), q);
                }
                due
            },
            None => false,
        }
    }

    /// Whether a write to a partition has to wait for the other replicas.
    pub fn must_await_replicas(&self, topic: &str, partition: u32) -> (r: bool)
        requires
            self.wf(),
        ensures
            r == (leads(self@, self.config, self.role.is_leader, topic@, partition)
                && self.config.peer_addrs@.len() > 0 && needed_isr(self@, self.config, topic@) > 1),
    {
        self.is_partition_leader(topic, partition) && self.config.peer_addrs.len() > 0
            && self.effective_min_insync_replicas(topic) > 1
    }

    /// Commits a partition up to and with `last_offset`. Returns whether that was news.
    pub fn commit_produced(&mut self, topic: &str, partition: u32, last_offset: u64) -> (moved: bool)
        requires
            old(self).wf(),
            old(self)@.partitions.contains_key((topic@, partition)),
            last_offset < u64::MAX,
        ensures
            final(self).wf(),
            final(self).same_node(*old(self)),
            committed_to(*old(self), *final(self), topic@, partition, last_offset, moved),
    {
        match self.partitions.find(topic, partition) {
            Some(i) => {
                let ghost before = self.partitions;
                let p = self.partitions.partitions.value_mut(i);
                let moved: bool = p.advance_committed_hw(last_offset + 1);
                proof {
                    let q = self.partitions.partitions@[partition_name((topic@, partition))];
                    before.lemma_replaced(self.partitions, (topic@, partition), q);
                }
                moved
            },
            None => false,
        }
    }

    /// Notes that a commit or abort marker was appended to a partition.
    pub fn marker_appended(&mut self, topic: &str, partition: u32, offset: u64)
        requires
            old(self).wf(),
            old(self)@.partitions.contains_key((topic@, partition)),
            offset < u64::MAX,
        ensures
            final(self).wf(),
            final(self).same_node(*old(self)),
            marker_noted(*old(self), *final(self), topic@, partition, offset),
    {
        match self.partitions.find(topic, partition) {
            Some(i) => {
                let ghost before = self.partitions;
                let p = self.partitions.partitions.value_mut(i);
                p.produce_control_marker(offset);
                proof {
                    let q = self.partitions.partitions@[partition_name((topic@, partition))];
                    before.lemma_replaced(self.partitions, (topic@, partition), q);
                }
            },
            None => {},
        }
    }

    /// What a reader needs to drop records of aborted transactions: the last stable offset, and
    /// the aborted ranges, each once and in order. `index` holds the ranges that the
    /// partition's log remembers. A reader who takes uncommitted records drops nothing.
    pub fn read_committed_filter(
        &self,
        topic: &str,
        partition: u32,
        read_committed: bool,
        index: &[(u64, u64)],
    ) -> (r: (u64, Vec<(u64, u64)>))
        requires
            self.wf(),
        ensures
            !read_committed ==> r.0 == u64::MAX && r.1@.len() == 0,
            read_committed ==> {
                &&& is_stable_up_to(self.transactions.txs(), topic@, partition, r.0)
                &&& rising_pairs(r.1@)
                &&& forall|x: (u64, u64)| #[trigger]
                    r.1@.contains(x) <==> aborted_bounds(
                        self.transactions.transactions.values(),
                        topic@,
                        partition,
                    ).contains(x) || index@.contains(x)
            },
    {
        let mut out: Vec<(u64, u64)> = Vec::new();
        if !read_committed {
            return (u64::MAX, out);
        }
        let lso: u64 = self.transactions.last_stable_offset(topic, partition);
        let aborted: Vec<(u64, u64)> = self.transactions.aborted_ranges(topic, partition);
        insert_pairs(&mut out, aborted.as_slice());
        insert_pairs(&mut out, index);
        (lso, out)
    }

    /// The offset below which a partition may be read. Nothing may be read of one that is not
    /// open.
    pub fn read_bound(&self, topic: &str, partition: u32) -> (r: u64)
        requires
            self.wf(),
        ensures
            r == read_limit(self@, topic@, partition),
    {
        match self.partitions.get(topic, partition) {
            Some(p) => p.high_watermark(),
            None => 0,
        }
    }

    /// The frames that a reader is shown: those that are committed.
    pub fn fetch(&self, topic: &str, partition: u32, frames: Vec<LogFrame>) -> (r: Vec<LogFrame>)
        requires
            self.wf(),
        ensures
            r@ == below(frames@, read_limit(self@, topic@, partition)),
    {
        clamp_to_watermark(frames, self.read_bound(topic, partition))
    }

    /// The frames that a reader of decided records is shown: those that are committed, and whose
    /// transaction is.
    pub fn fetch_committed(
        &self,
        topic: &str,
        partition: u32,
        frames: Vec<LogFrame>,
        index: &[(u64, u64)],
    ) -> (r: Vec<LogFrame>)
        requires
            self.wf(),
        ensures
            exists|lso: u64|
                {
                    &&& #[trigger] is_stable_up_to(
                        self.transactions.txs(),
                        topic@,
                        partition,
                        lso,
                    )
                    &&& r@ == passing(
                        below(frames@, read_limit(self@, topic@, partition)),
                        lso,
                        aborted_bounds(self.transactions.transactions.values(), topic@, partition),
                        index@,
                    )
                },
    {
        let lso: u64 = self.transactions.last_stable_offset(topic, partition);
        let aborted: Vec<(u64, u64)> = self.transactions.aborted_ranges(topic, partition);
        let committed: Vec<LogFrame> = self.fetch(topic, partition, frames);
        let mut out: Vec<LogFrame> = Vec::new();
        let ghost all = committed@;
        for f in it: committed
            invariant
                it.seq() == all,
                out@ == passing(all.take(it.index() as int), lso, aborted@, index@),
        {
            let ghost i = it.index() as int;
            proof {
                assert(all.take(i + 1).drop_last() =~= all.take(i));
                assert(all.take(i + 1).last() == f);
            }
            if !f.is_control && f.offset < lso && !check_ranges(index, f.offset) && !check_ranges(
                aborted.as_slice(),
                f.offset,
            ) {
                out.push(f);
            }
        }
        assert(all.take(all.len() as int) =~= all);
        out
    }

    /// Whether a partition holds records whose visibility hangs on a transaction.
    /// `index_empty` says that its log remembers no aborted range.
    pub fn partition_has_transactional_data(
        &self,
        topic: &str,
        partition: u32,
        index_empty: bool,
    ) -> (r: bool)
        requires
            self.wf(),
        ensures
            r == (!is_stable_up_to(self.transactions.txs(), topic@, partition, u64::MAX)
                || aborted_bounds(
                self.transactions.transactions.values(),
                topic@,
                partition,
            ).len() > 0 || !index_empty),
    {
        let lso: u64 = self.transactions.last_stable_offset(topic, partition);
        proof {
            if is_stable_up_to(self.transactions.txs(), topic@, partition, u64::MAX) && lso
                != u64::MAX {
                crate::transaction::laws::last_stable_offset_is_unique(
                    self.transactions.txs(),
                    topic@,
                    partition,
                    u64::MAX,
                    lso,
                );
            }
        }
        if lso != u64::MAX {
            return true;
        }
        if self.transactions.aborted_ranges(topic, partition).len() > 0 {
            return true;
        }
        !index_empty
    }
}

/// A reader of committed records sees no control record, none that belongs to an open
/// transaction or comes after one, and none in an aborted range.
pub proof fn readers_see_only_decided_records(
    frames: Seq<LogFrame>,
    lso: u64,
    aborted: Seq<(u64, u64)>,
    index: Seq<(u64, u64)>,
    f: LogFrame,
)
    requires
        passing(frames, lso, aborted, index).contains(f),
    ensures
        shows(f, lso, aborted, index),
        frames.contains(f),
    decreases frames.len(),
{
    if frames.len() > 0 {
        let before = passing(frames.drop_last(), lso, aborted, index);
        let all = passing(frames, lso, aborted, index);
        let k = choose|k: int| 0 <= k < all.len() && all[k] == f;
        if k < before.len() {
            assert(before[k] == f);
            readers_see_only_decided_records(frames.drop_last(), lso, aborted, index, f);
            let j = choose|j: int| 0 <= j < frames.drop_last().len() && frames.drop_last()[j] == f;
            assert(frames[j] == f);
        } else {
            assert(frames[frames.len() - 1] == f);
        }
    }
}

/// A reader is shown no frame from the committed offset on, and none of a partition that is not
/// open. Whatever is shown was read from the log.
pub proof fn reads_stay_below_the_committed_offset(
    v: EngineView,
    topic: Seq<char>,
    partition: u32,
    frames: Seq<LogFrame>,
    f: LogFrame,
)
    requires
        below(frames, read_limit(v, topic, partition)).contains(f),
    ensures
        v.partitions.contains_key((topic, partition)),
        f.offset < v.partitions[(topic, partition)].committed_hw,
        frames.contains(f),
    decreases frames.len(),
{
    if frames.len() > 0 {
        let hw = read_limit(v, topic, partition);
        let before = below(frames.drop_last(), hw);
        let all = below(frames, hw);
        let k = choose|k: int| 0 <= k < all.len() && all[k] == f;
        if k < before.len() {
            assert(before[k] == f);
            reads_stay_below_the_committed_offset(v, topic, partition, frames.drop_last(), f);
            let j = choose|j: int| 0 <= j < frames.drop_last().len() && frames.drop_last()[j] == f;
            assert(frames[j] == f);
        } else {
            assert(frames[frames.len() - 1] == f);
        }
    }
}

/// A reader of decided records is shown no frame from the committed offset on either, and none
/// that is not decided.
pub proof fn decided_reads_stay_below_the_committed_offset(
    v: EngineView,
    topic: Seq<char>,
    partition: u32,
    frames: Seq<LogFrame>,
    lso: u64,
    aborted: Seq<(u64, u64)>,
    index: Seq<(u64, u64)>,
    f: LogFrame,
)
    requires
        passing(below(frames, read_limit(v, topic, partition)), lso, aborted, index).contains(f),
    ensures
        v.partitions.contains_key((topic, partition)),
        f.offset < v.partitions[(topic, partition)].committed_hw,
        shows(f, lso, aborted, index),
        frames.contains(f),
{
    readers_see_only_decided_records(
        below(frames, read_limit(v, topic, partition)),
        lso,
        aborted,
        index,
        f,
    );
    reads_stay_below_the_committed_offset(v, topic, partition, frames, f);
}

/// What is left of some frames is in the order of the log, holds no frame from `hw` on, and every
/// one below it.
proof fn lemma_below(frames: Seq<LogFrame>, hw: u64)
    ensures
        forall|k: int| #![trigger below(frames, hw)[k]]
            0 <= k < below(frames, hw).len() ==> below(frames, hw)[k].offset < hw
                && frames.contains(below(frames, hw)[k]),
        forall|i: int|
            0 <= i < frames.len() && frames[i].offset < hw ==> below(frames, hw).contains(
                #[trigger] frames[i],
            ),
        rising_frames(frames) ==> rising_frames(below(frames, hw)),
    decreases frames.len(),
{
    if frames.len() > 0 {
        let less = frames.drop_last();
        lemma_below(less, hw);
        let before = below(less, hw);
        let after = below(frames, hw);
        let n = frames.len() - 1;
        assert forall|k: int| #![trigger after[k]]
            0 <= k < after.len() implies after[k].offset < hw && frames.contains(after[k]) by {
            if k < before.len() {
                assert(after[k] == before[k]);
                let j = choose|j: int| 0 <= j < less.len() && less[j] == before[k];
                assert(frames[j] == after[k]);
            } else {
                assert(frames[n] == after[k]);
            }
        }
        assert forall|i: int| 0 <= i < frames.len() && frames[i].offset < hw implies after.contains(
            #[trigger] frames[i],
        ) by {
            if i < n {
                assert(before.contains(less[i]));
                let k = choose|k: int| 0 <= k < before.len() && before[k] == less[i];
                assert(after[k] == frames[i]);
            } else {
                assert(after[after.len() - 1] == frames[i]);
            }
        }
        if rising_frames(frames) {
            assert(rising_frames(less));
            assert forall|a: int, b: int| 0 <= a < b < after.len() implies (
            #[trigger] after[a]).offset < (#[trigger] after[b]).offset by {
                assert(after[a] == before[a]);
                if b < before.len() {
                    assert(before[a].offset < before[b].offset);
                } else {
                    let j = choose|j: int| 0 <= j < less.len() && less[j] == before[a];
                    assert(frames[j].offset < frames[n].offset);
                }
            }
        }
    }
}

/// Frames stand in the order of the log.
pub open spec fn rising_frames(frames: Seq<LogFrame>) -> bool {
    forall|a: int, b: int|
        0 <= a < b < frames.len() ==> (#[trigger] frames[a]).offset < (#[trigger] frames[b]).offset
}

/// No range reaches over the offset.
pub open spec fn outside(ranges: Seq<(u64, u64)>, offset: u64) -> bool {
    forall|j: int|
        0 <= j < ranges.len() ==> offset < (#[trigger] ranges[j]).0 || ranges[j].1 < offset
}

proof fn lemma_passing(
    frames: Seq<LogFrame>,
    lso: u64,
    aborted: Seq<(u64, u64)>,
    index: Seq<(u64, u64)>,
)
    ensures
        ({
            let r = passing(frames, lso, aborted, index);
            &&& forall|k: int|
                0 <= k < r.len() ==> frames.contains(#[trigger] r[k]) && !r[k].is_control
                    && r[k].offset < lso && outside(aborted, r[k].offset) && outside(
                    index,
                    r[k].offset,
                )
            &&& forall|i: int|
                0 <= i < frames.len() && !frames[i].is_control && frames[i].offset < lso && outside(
                    aborted,
                    frames[i].offset,
                ) && outside(index, frames[i].offset) ==> r.contains(#[trigger] frames[i])
            &&& rising_frames(frames) ==> rising_frames(r)
        }),
    decreases frames.len(),
{
    if frames.len() > 0 {
        let less = frames.drop_last();
        lemma_passing(less, lso, aborted, index);
        let before = passing(less, lso, aborted, index);
        let r = passing(frames, lso, aborted, index);
        let n = frames.len() - 1;
        let f = frames[n];
        assert(shows(f, lso, aborted, index) <==> !f.is_control && f.offset < lso && outside(
            aborted,
            f.offset,
        ) && outside(index, f.offset)) by {
            if outside(aborted, f.offset) && in_ranges(aborted, f.offset) {
                let i = choose|i: int|
                    0 <= i < aborted.len() && (#[trigger] aborted[i]).0 <= f.offset
                        <= aborted[i].1;
                assert(false);
            }
            if outside(index, f.offset) && in_ranges(index, f.offset) {
                let i = choose|i: int|
                    0 <= i < index.len() && (#[trigger] index[i]).0 <= f.offset <= index[i].1;
                assert(false);
            }
        }
        assert forall|k: int| 0 <= k < r.len() implies frames.contains(#[trigger] r[k])
            && !r[k].is_control && r[k].offset < lso && outside(aborted, r[k].offset) && outside(
            index,
            r[k].offset,
        ) by {
            if k < before.len() {
                assert(r[k] == before[k]);
                let j = choose|j: int| 0 <= j < less.len() && less[j] == before[k];
                assert(frames[j] == r[k]);
            } else {
                assert(frames[n] == r[k]);
            }
        }
        assert forall|i: int|
            0 <= i < frames.len() && !frames[i].is_control && frames[i].offset < lso && outside(
                aborted,
                frames[i].offset,
            ) && outside(index, frames[i].offset) implies r.contains(#[trigger] frames[i]) by {
            if i < n {
                assert(before.contains(less[i]));
                let k = choose|k: int| 0 <= k < before.len() && before[k] == less[i];
                assert(r[k] == frames[i]);
            } else {
                assert(r[r.len() - 1] == frames[i]);
            }
        }
        if rising_frames(frames) {
            assert(rising_frames(less));
            assert forall|a: int, b: int| 0 <= a < b < r.len() implies (#[trigger] r[a]).offset < (
            #[trigger] r[b]).offset by {
                assert(r[a] == before[a]);
                if b < before.len() {
                    assert(before[a].offset < before[b].offset);
                } else {
                    let j = choose|j: int| 0 <= j < less.len() && less[j] == before[a];
                    assert(frames[j].offset < frames[n].offset);
                }
            }
        }
    }
}

/// A reader is shown, in the order of the log, exactly the frames below the committed offset of
/// the partition.
pub proof fn every_committed_frame_is_shown(
    v: EngineView,
    topic: Seq<char>,
    partition: u32,
    frames: Seq<LogFrame>,
)
    requires
        v.partitions.contains_key((topic, partition)),
    ensures
        ({
            let hw = v.partitions[(topic, partition)].committed_hw;
            let r = below(frames, read_limit(v, topic, partition));
            &&& forall|k: int|
                0 <= k < r.len() ==> (#[trigger] r[k]).offset < hw && frames.contains(r[k])
            &&& forall|i: int|
                0 <= i < frames.len() && frames[i].offset < hw ==> r.contains(#[trigger] frames[i])
            &&& rising_frames(frames) ==> rising_frames(r)
        }),
{
    lemma_below(frames, v.partitions[(topic, partition)].committed_hw);
}

/// A reader of decided records is shown, in the order of the log, exactly the data frames below
/// the committed offset and below `lso` that lie in no aborted range, neither in one that the log
/// remembers nor in one of an aborted transaction.
pub proof fn every_decided_frame_is_shown(
    v: EngineView,
    topic: Seq<char>,
    partition: u32,
    frames: Seq<LogFrame>,
    lso: u64,
    aborted: Seq<(u64, u64)>,
    index: Seq<(u64, u64)>,
)
    requires
        v.partitions.contains_key((topic, partition)),
    ensures
        ({
            let hw = v.partitions[(topic, partition)].committed_hw;
            let r = passing(below(frames, read_limit(v, topic, partition)), lso, aborted, index);
            &&& forall|k: int|
                0 <= k < r.len() ==> (#[trigger] r[k]).offset < hw && frames.contains(r[k])
                    && !r[k].is_control && r[k].offset < lso
            &&& forall|k: int, j: int|
                0 <= k < r.len() && 0 <= j < index.len() ==> !((#[trigger] index[j]).0 <= (
                #[trigger] r[k]).offset <= index[j].1)
            &&& forall|k: int, j: int|
                0 <= k < r.len() && 0 <= j < aborted.len() ==> !((#[trigger] aborted[j]).0 <= (
                #[trigger] r[k]).offset <= aborted[j].1)
            &&& forall|i: int|
                0 <= i < frames.len() && frames[i].offset < hw && !frames[i].is_control
                    && frames[i].offset < lso && outside(aborted, frames[i].offset) && outside(
                    index,
                    frames[i].offset,
                ) ==> r.contains(#[trigger] frames[i])
            &&& rising_frames(frames) ==> rising_frames(r)
        }),
{
    let hw = v.partitions[(topic, partition)].committed_hw;
    let b = below(frames, hw);
    let r = passing(b, lso, aborted, index);
    lemma_below(frames, hw);
    lemma_passing(b, lso, aborted, index);
    assert forall|k: int| 0 <= k < r.len() implies (#[trigger] r[k]).offset < hw
        && frames.contains(r[k]) by {
        let j = choose|j: int| 0 <= j < b.len() && b[j] == r[k];
        assert(b[j].offset < hw);
    }
    assert forall|k: int, j: int| 0 <= k < r.len() && 0 <= j < index.len() implies !((
    #[trigger] index[j]).0 <= (#[trigger] r[k]).offset <= index[j].1) by {
        assert(outside(index, r[k].offset));
    }
    assert forall|k: int, j: int| 0 <= k < r.len() && 0 <= j < aborted.len() implies !((
    #[trigger] aborted[j]).0 <= (#[trigger] r[k]).offset <= aborted[j].1) by {
        assert(outside(aborted, r[k].offset));
    }
    assert forall|i: int|
        0 <= i < frames.len() && frames[i].offset < hw && !frames[i].is_control
            && frames[i].offset < lso && outside(aborted, frames[i].offset) && outside(
            index,
            frames[i].offset,
        ) implies r.contains(#[trigger] frames[i]) by {
        assert(b.contains(frames[i]));
        let j = choose|j: int| 0 <= j < b.len() && b[j] == frames[i];
        assert(r.contains(b[j]));
    }
}

/// Whether a fetch is answered with what there is: the client does not wait, or there is enough.
pub fn answers_now(max_wait_ms: u32, have: usize, min_bytes: u32) -> (r: bool)
    ensures
        r == (max_wait_ms == 0 || have >= min_bytes),
{
    max_wait_ms == 0 || have >= min_bytes as usize
}

/// Whether a fetch that was waiting goes on waiting: there is not enough yet, and it was news
/// that woke it, not the end of its time.
pub fn waits_on(have: usize, min_bytes: u32, woken_by_news: bool) -> (r: bool)
    ensures
        r == (have < min_bytes && woken_by_news),
{
    have < min_bytes as usize && woken_by_news
}

/// How a request for the end of a partition is answered.
pub open spec fn end_told(
    e: StorageEngine,
    topic: Seq<char>,
    partition: u32,
    r: Result<Option<u64>, String>,
) -> bool {
    let known = system_topic(topic) || e@.topics.contains_key(topic);
    let fault = open_fault(e@, e.config, topic, partition);
    if e@.partitions.contains_key((topic, partition)) {
        r matches Ok(Some(n)) && n == e@.partitions[(
            topic,
            partition,
        )].log_end_offset
    } else if !known {
        r matches Ok(Some(n)) && n == 0
    } else if fault is Some {
        r matches Err(m) && fault == Some(m@)
    } else {
        r matches Ok(None)
    }
}

impl StorageEngine {
    /// Where the log of a partition ends. An unknown topic has an empty log. `None` says that
    /// the log has to be opened first.
    pub fn latest_offset(&self, topic: &str, partition: u32) -> (r: Result<Option<u64>, String>)
        requires
            self.wf(),
        ensures
            end_told(*self, topic@, partition, r),
    {
        match self.partition_for_read(topic, partition) {
            Err(e) => Err(e),
            Ok(None) => Ok(Some(0)),
            Ok(Some(Access::Open)) => Ok(None),
            Ok(Some(Access::Ready)) => match self.partitions.get(topic, partition) {
                Some(p) => Ok(Some(p.log_end_offset)),
                None => Ok(None),
            },
        }
    }
}

} // verus!
