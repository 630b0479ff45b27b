//! One partition of a topic: how far its log goes, how far it is committed, who leads it, and
//! what of it still has to reach the disk.
//!
//! The log itself is elsewhere. The functions here say whether a batch may be appended, and what
//! changes once the log has appended, truncated or synced.
use crate::producer::{judged, ProducerStateEntry, ProducerStateManager};
use crate::text::owned;
use vstd::prelude::*;
use vstd::slice::*;
use vstd::string::*;

verus! {

/// When appended bytes are synced to disk.
#[derive(Debug, Clone, Copy, PartialEq, Eq, Structural)]
pub enum FlushPolicy {
    /// From time to time, and as soon as `max_bytes` are waiting, unless that is 0.
    AsyncPeriodic { interval_ms: u64, max_bytes: u64 },
    /// After each batch.
    SyncEveryBatch,
    /// After each write.
    UnbufferedSync,
}

/// What becomes of old records.
#[derive(Debug, Clone, Copy, PartialEq, Eq, Structural)]
pub enum CleanupPolicy {
    Delete,
    Compact,
    CompactDelete,
}

/// How the broker compresses what it writes itself.
#[derive(Debug, Clone, Copy, PartialEq, Eq, Structural)]
pub enum CompressionCodec {
    Uncompressed,
    Lz4,
    Zstd,
}

/// What the broker reads of a batch without decoding its records.
#[derive(Debug, Clone, Copy, PartialEq, Eq, Structural)]
pub struct BatchHeader {
    pub base_offset: u64,
    pub last_offset_delta: u32,
    pub record_count: u32,
    pub producer_id: u64,
    pub producer_epoch: i16,
    pub base_sequence: i32,
    pub encoded_size: u64,
}

impl BatchHeader {
    /// The offset of the last record.
    pub open spec fn last_offset(self) -> int {
        self.base_offset + self.last_offset_delta
    }

    /// The offset behind the batch, and its record count, can be written down.
    pub open spec fn wf(self) -> bool {
        self.last_offset() < u64::MAX && self.record_count <= i32::MAX
    }
}

/// What a follower's log did with an entry of its leader.
#[derive(Debug, Clone, Copy, PartialEq, Eq, Structural)]
pub enum VerbatimAppendResult {
    Appended,
    AlreadyApplied,
    Gap { expected: u64 },
}

/// A partition.
pub struct PartitionManager {
    pub topic: String,
    pub partition: u32,
    /// The offset that the next record gets.
    pub log_end_offset: u64,
    /// Everything before this offset is on all in-sync replicas.
    pub committed_hw: u64,
    /// Bytes that were appended since the last sync.
    pub unsynced_bytes: u64,
    pub producer_states: ProducerStateManager,
    pub leader_id: u32,
    pub leader_epoch: u32,
    pub replicas: Vec<u32>,
    pub isr: Vec<u32>,
    pub compression_codec: CompressionCodec,
    pub cleanup_policy: CleanupPolicy,
    pub retention_millis: Option<u64>,
    pub retention_bytes: Option<u64>,
    pub delete_retention_millis: Option<u64>,
    pub flush_policy: FlushPolicy,
}

/// A partition, as values.
pub struct PartitionView {
    pub topic: Seq<char>,
    pub partition: u32,
    pub log_end_offset: u64,
    pub committed_hw: u64,
    pub unsynced_bytes: u64,
    pub producers: Map<u64, ProducerStateEntry>,
    pub leader_id: u32,
    pub leader_epoch: u32,
    pub replicas: Seq<u32>,
    pub isr: Seq<u32>,
    pub compression_codec: CompressionCodec,
    pub cleanup_policy: CleanupPolicy,
    pub retention_millis: Option<u64>,
    pub retention_bytes: Option<u64>,
    pub delete_retention_millis: Option<u64>,
    pub flush_policy: FlushPolicy,
}

impl PartitionView {
    /// The topic and the number.
    pub open spec fn key(self) -> (Seq<char>, u32) {
        (self.topic, self.partition)
    }
}

impl PartitionManager {
    pub open spec fn view(self) -> PartitionView {
        PartitionView {
            topic: self.topic@,
            partition: self.partition,
            log_end_offset: self.log_end_offset,
            committed_hw: self.committed_hw,
            unsynced_bytes: self.unsynced_bytes,
            producers: self.producer_states.states@,
            leader_id: self.leader_id,
            leader_epoch: self.leader_epoch,
            replicas: self.replicas@,
            isr: self.isr@,
            compression_codec: self.compression_codec,
            cleanup_policy: self.cleanup_policy,
            retention_millis: self.retention_millis,
            retention_bytes: self.retention_bytes,
            delete_retention_millis: self.delete_retention_millis,
            flush_policy: self.flush_policy,
        }
    }
}

/// Whether so many waiting bytes are to be synced now.
pub open spec fn sync_due(policy: FlushPolicy, waiting: int) -> bool {
    policy matches FlushPolicy::AsyncPeriodic { max_bytes, .. } && max_bytes > 0 && waiting
        >= max_bytes
}

/// `x` modulo the number of `u64` values.
pub open spec fn wrapped(x: int) -> u64 {
    (x % 0x1_0000_0000_0000_0000) as u64
}

/// `x`, or the highest `u64` if `x` is higher.
pub open spec fn capped(x: int) -> u64 {
    if x <= u64::MAX {
        x as u64
    } else {
        u64::MAX
    }
}

/// How many entries from the front the log appended.
pub open spec fn appended_run(s: Seq<(BatchHeader, VerbatimAppendResult)>) -> nat
    decreases s.len(),
{
    if s.len() > 0 && s[0].1 is Appended {
        1 + appended_run(s.skip(1))
    } else {
        0
    }
}

/// How long the entries are together.
pub open spec fn total_size(s: Seq<(BatchHeader, VerbatimAppendResult)>) -> int
    decreases s.len(),
{
    if s.len() == 0 {
        0
    } else {
        total_size(s.drop_last()) + s.last().0.encoded_size
    }
}

/// Wrapping part of a sum first changes nothing.
pub proof fn lemma_wrapped_sum(a: int, b: int)
    ensures
        wrapped(a + b) == wrapped(wrapped(a) + b),
{
    let m = 0x1_0000_0000_0000_0000int;
    vstd::arithmetic::div_mod::lemma_add_mod_noop(a, b, m);
    vstd::arithmetic::div_mod::lemma_add_mod_noop(a % m, b, m);
    vstd::arithmetic::div_mod::lemma_mod_twice(a, m);
}

/// The sequence number of the last record of a batch.
pub open spec fn last_sequence(h: BatchHeader) -> i32 {
    let s = h.base_sequence + h.record_count - 1;
    if s > i32::MAX {
        (s - 0x1_0000_0000) as i32
    } else if s < i32::MIN {
        (s + 0x1_0000_0000) as i32
    } else {
        s as i32
    }
}

impl PartitionManager {
    /// Nothing but what an append touches differs.
    pub open spec fn same_settings(self, other: Self) -> bool {
        &&& self.topic == other.topic
        &&& self.partition == other.partition
        &&& self.leader_id == other.leader_id
        &&& self.leader_epoch == other.leader_epoch
        &&& self.replicas == other.replicas
        &&& self.isr == other.isr
        &&& self.compression_codec == other.compression_codec
        &&& self.cleanup_policy == other.cleanup_policy
        &&& self.retention_millis == other.retention_millis
        &&& self.retention_bytes == other.retention_bytes
        &&& self.delete_retention_millis == other.delete_retention_millis
        &&& self.flush_policy == other.flush_policy
    }

    /// What is committed is in the log.
    pub open spec fn hw_in_log(self) -> bool {
        self.committed_hw <= self.log_end_offset
    }

    /// A partition whose log was found to end at `recovered_offset`. All of it counts as
    /// committed, and this node leads it until it is told otherwise.
    pub fn open(
        topic: String,
        partition: u32,
        node_id: u32,
        recovered_offset: u64,
        producer_states: ProducerStateManager,
        compression_codec: CompressionCodec,
        cleanup_policy: CleanupPolicy,
        flush_policy: FlushPolicy,
    ) -> (r: Self)
        ensures
            r.topic == topic,
            r.partition == partition,
            r.log_end_offset == recovered_offset,
            r.committed_hw == recovered_offset,
            r.unsynced_bytes == 0,
            r.producer_states == producer_states,
            r.leader_id == node_id,
            r.leader_epoch == 0,
            r.replicas@ == seq![node_id],
            r.isr@ == seq![node_id],
            r.compression_codec == compression_codec,
            r.cleanup_policy == cleanup_policy,
            r.flush_policy == flush_policy,
            r.retention_millis is None,
            r.retention_bytes is None,
            r.delete_retention_millis is None,
            r.hw_in_log(),
    {
        let mut replicas: Vec<u32> = Vec::new();
        replicas.push(node_id);
        let mut isr: Vec<u32> = Vec::new();
        isr.push(node_id);
        assert(replicas@ =~= seq![node_id]);
        assert(isr@ =~= seq![node_id]);
        PartitionManager {
            topic,
            partition,
            log_end_offset: recovered_offset,
            committed_hw: recovered_offset,
            unsynced_bytes: 0,
            producer_states,
            leader_id: node_id,
            leader_epoch: 0,
            replicas,
            isr,
            compression_codec,
            cleanup_policy,
            retention_millis: None,
            retention_bytes: None,
            delete_retention_millis: None,
            flush_policy,
        }
    }

    /// Whether a batch of a producer may be appended: `Ok(Ok(()))` if so, `Ok(Err(..))` with
    /// the offset that it ended at if it is a retry, and an error if it is out of turn.
    pub fn check_sequence(&self, producer_id: u64, epoch: i16, base_sequence: i32) -> (r: Result<
        Result<(), u64>,
        String,
    >)
        ensures
            ({
                let j = judged(self.producer_states.states@, producer_id, epoch, base_sequence);
                if producer_id == 0 || j is Ok {
                    r matches Ok(x) && x is Ok
                } else if j->Err_0.0 {
                    r matches Ok(x) && x == Err::<(), u64>(j->Err_0.1)
                } else {
                    r matches Err(e) && e@ == "Out of order sequence"@
                }
            }),
    {
        if producer_id != 0 {
            match self.producer_states.validate_sequence(producer_id, epoch, base_sequence) {
                Ok(()) => {},
                Err((is_duplicate, last_offset)) => {
                    if is_duplicate {
                        return Ok(Err(last_offset));
                    }
                    return Err(owned("Out of order sequence"));
                },
            }
        }
        Ok(Ok(()))
    }

    /// Counts appended bytes. Returns whether they are to be synced now.
    fn count_unsynced(&mut self, size: u64) -> (due: bool)
        ensures
            due == sync_due(old(self).flush_policy, old(self).unsynced_bytes + size),
            final(self).unsynced_bytes == wrapped(old(self).unsynced_bytes + size),
            *final(self) == (PartitionManager {
                unsynced_bytes: final(self).unsynced_bytes,
                ..*old(self)
            }),
    {
        let before: u64 = self.unsynced_bytes;
        self.unsynced_bytes = before.wrapping_add(size);
        match self.flush_policy {
            FlushPolicy::AsyncPeriodic { max_bytes, .. } => max_bytes > 0 && before.saturating_add(
                size,
            ) >= max_bytes,
            _ => false,
        }
    }

    /// Notes that the log appended a batch, at the offsets that `batch` says. The committed
    /// offset does not move. Returns whether a sync is due.
    pub fn produce_batch_eos(&mut self, batch: &BatchHeader) -> (due: bool)
        requires
            batch.wf(),
        ensures
            final(self).same_settings(*old(self)),
            final(self).committed_hw == old(self).committed_hw,
            final(self).log_end_offset == batch.last_offset() + 1,
            final(self).producer_states.states@ == (if batch.producer_id == 0 {
                old(self).producer_states.states@
            } else {
                old(self).producer_states.states@.insert(
                    batch.producer_id,
                    ProducerStateEntry {
                        epoch: batch.producer_epoch,
                        last_sequence: last_sequence(*batch),
                        last_offset: batch.last_offset() as u64,
                    },
                )
            }),
            due == sync_due(old(self).flush_policy, old(self).unsynced_bytes + batch.encoded_size),
            final(self).unsynced_bytes == wrapped(old(self).unsynced_bytes + batch.encoded_size),
    {
        let last_offset: u64 = batch.base_offset + batch.last_offset_delta as u64;
        self.log_end_offset = last_offset + 1;
        if batch.producer_id != 0 {
            let last: i32 = batch.base_sequence.wrapping_add(batch.record_count as i32 - 1);
            self.producer_states.update(batch.producer_id, batch.producer_epoch, last, last_offset);
        }
        self.count_unsynced(batch.encoded_size)
    }

    /// Notes that the log appended one record of a producer at `offset`. The committed offset
    /// does not move. Returns whether a sync is due.
    pub fn produce_frame_eos(
        &mut self,
        offset: u64,
        producer_id: u64,
        epoch: i16,
        sequence: i32,
        encoded_size: u64,
    ) -> (due: bool)
        requires
            offset < u64::MAX,
        ensures
            final(self).same_settings(*old(self)),
            final(self).committed_hw == old(self).committed_hw,
            final(self).log_end_offset == offset + 1,
            final(self).producer_states.states@ == (if producer_id == 0 {
                old(self).producer_states.states@
            } else {
                old(self).producer_states.states@.insert(
                    producer_id,
                    ProducerStateEntry { epoch, last_sequence: sequence, last_offset: offset },
                )
            }),
            due == sync_due(old(self).flush_policy, old(self).unsynced_bytes + encoded_size),
            final(self).unsynced_bytes == wrapped(old(self).unsynced_bytes + encoded_size),
    {
        self.log_end_offset = offset + 1;
        if producer_id != 0 {
            self.producer_states.update(producer_id, epoch, sequence, offset);
        }
        self.count_unsynced(encoded_size)
    }

    /// Notes that the log appended a record that the broker wrote itself, which is committed at
    /// once.
    pub fn produce_frame(&mut self, offset: u64, encoded_size: u64) -> (due: bool)
        requires
            offset < u64::MAX,
        ensures
            final(self).same_settings(*old(self)),
            final(self).log_end_offset == offset + 1,
            final(self).committed_hw == (if old(self).committed_hw > offset {
                old(self).committed_hw
            } else {
                (offset + 1) as u64
            }),
            final(self).producer_states.states@ == old(self).producer_states.states@,
            due == sync_due(old(self).flush_policy, old(self).unsynced_bytes + encoded_size),
            final(self).unsynced_bytes == wrapped(old(self).unsynced_bytes + encoded_size),
    {
        let due: bool = self.produce_frame_eos(offset, 0, 0, 0, encoded_size);
        let _ = self.advance_committed_hw(offset + 1);
        due
    }

    /// Notes that the log appended a commit or abort marker, which is committed at once.
    pub fn produce_control_marker(&mut self, offset: u64)
        requires
            offset < u64::MAX,
        ensures
            *final(self) == (PartitionManager {
                log_end_offset: (offset + 1) as u64,
                committed_hw: if old(self).committed_hw > offset {
                    old(self).committed_hw
                } else {
                    (offset + 1) as u64
                },
                ..*old(self)
            }),
    {
        self.log_end_offset = offset + 1;
        let _ = self.advance_committed_hw(offset + 1);
    }

    /// Notes what the log did with an entry of the leader. The committed offset does not move.
    /// Returns whether a sync is due.
    pub fn append_replica_entry_verbatim(
        &mut self,
        result: VerbatimAppendResult,
        entry: &BatchHeader,
    ) -> (due: bool)
        requires
            entry.wf(),
        ensures
            final(self).same_settings(*old(self)),
            final(self).committed_hw == old(self).committed_hw,
            final(self).producer_states == old(self).producer_states,
            if result is Appended {
                &&& final(self).log_end_offset == entry.last_offset() + 1
                &&& due == sync_due(
                    old(self).flush_policy,
                    old(self).unsynced_bytes + entry.encoded_size,
                )
                &&& final(self).unsynced_bytes == wrapped(
                    old(self).unsynced_bytes + entry.encoded_size,
                )
            } else {
                !due && *final(self) == *old(self)
            },
    {
        if result == VerbatimAppendResult::Appended {
            self.log_end_offset = entry.base_offset + entry.last_offset_delta as u64 + 1;
            self.count_unsynced(entry.encoded_size)
        } else {
            false
        }
    }

    /// Notes what the log did with entries of the leader, one after the other, up to the first
    /// that it did not append. Returns how many it appended, what it did last, and whether a sync is
    /// due. The committed offset does not move.
    pub fn append_replica_entries_verbatim(
        &mut self,
        entries: &[(BatchHeader, VerbatimAppendResult)],
    ) -> (r: (usize, VerbatimAppendResult, bool))
        requires
            forall|i: int| 0 <= i < entries@.len() ==> (#[trigger] entries@[i]).0.wf(),
        ensures
            ({
                let n = appended_run(entries@);
                &&& r.0 == n
                &&& r.1 == (if n < entries@.len() {
                    entries@[n as int].1
                } else if n > 0 {
                    VerbatimAppendResult::Appended
                } else {
                    VerbatimAppendResult::AlreadyApplied
                })
                &&& r.2 == (n > 0 && sync_due(
                    old(self).flush_policy,
                    old(self).unsynced_bytes + total_size(entries@.take(n as int)),
                ))
                &&& *final(self) == (PartitionManager {
                    log_end_offset: if n > 0 {
                        (entries@[n - 1].0.last_offset() + 1) as u64
                    } else {
                        old(self).log_end_offset
                    },
                    unsynced_bytes: final(self).unsynced_bytes,
                    ..*old(self)
                })
                &&& final(self).unsynced_bytes == wrapped(
                    old(self).unsynced_bytes + total_size(entries@.take(n as int)),
                )
            }),
    {
        let mut n: usize = 0;
        let mut waiting: u64 = self.unsynced_bytes;
        let mut last: VerbatimAppendResult = VerbatimAppendResult::AlreadyApplied;
        assert(entries@.skip(0) =~= entries@);
        assert(wrapped(self.unsynced_bytes + total_size(entries@.take(0))) == self.unsynced_bytes);
        while n < entries.len() && entries[n].1 == VerbatimAppendResult::Appended
            invariant
                n <= entries.len(),
                forall|i: int| 0 <= i < entries@.len() ==> (#[trigger] entries@[i]).0.wf(),
                appended_run(entries@) == n + appended_run(entries@.skip(n as int)),
                last == (if n > 0 {
                    VerbatimAppendResult::Appended
                } else {
                    VerbatimAppendResult::AlreadyApplied
                }),
                *self == (PartitionManager {
                    log_end_offset: if n > 0 {
                        (entries@[n - 1].0.last_offset() + 1) as u64
                    } else {
                        old(self).log_end_offset
                    },
                    unsynced_bytes: self.unsynced_bytes,
                    ..*old(self)
                }),
                self.unsynced_bytes == wrapped(
                    old(self).unsynced_bytes + total_size(entries@.take(n as int)),
                ),
                waiting == capped(
                    old(self).unsynced_bytes + total_size(entries@.take(n as int)),
                ),
                0 <= total_size(entries@.take(n as int)),
            decreases entries.len() - n,
        {
            let entry: &BatchHeader = &entries[n].0;
            proof {
                assert(entries@[n as int].0.wf());
                assert(entries@.skip(n as int)[0] == entries@[n as int]);
                assert(entries@.skip(n as int).skip(1) =~= entries@.skip(n + 1));
                assert(entries@.take(n + 1).drop_last() =~= entries@.take(n as int));
                lemma_wrapped_sum(
                    old(self).unsynced_bytes + total_size(entries@.take(n as int)),
                    entry.encoded_size as int,
                );
            }
            self.log_end_offset = entry.base_offset + entry.last_offset_delta as u64 + 1;
            self.unsynced_bytes = self.unsynced_bytes.wrapping_add(entry.encoded_size);
            waiting = waiting.saturating_add(entry.encoded_size);
            last = VerbatimAppendResult::Appended;
            n = n + 1;
        }
        proof {
            if n < entries.len() {
                assert(entries@.skip(n as int)[0] == entries@[n as int]);
            }
        }
        if n < entries.len() {
            last = entries[n].1;
        }
        let due: bool = match self.flush_policy {
            FlushPolicy::AsyncPeriodic { max_bytes, .. } => n > 0 && max_bytes > 0 && waiting
                >= max_bytes,
            _ => false,
        };
        (n, last, due)
    }

    /// Notes that the log was synced.
    pub fn note_synced(&mut self)
        ensures
            *final(self) == (PartitionManager { unsynced_bytes: 0, ..*old(self) }),
    {
        self.unsynced_bytes = 0;
    }

    /// Whether each write is to be synced.
    pub fn flush_if_sync_policy(&self) -> (r: bool)
        ensures
            r == (self.flush_policy is SyncEveryBatch || self.flush_policy is UnbufferedSync),
    {
        match self.flush_policy {
            FlushPolicy::SyncEveryBatch => true,
            FlushPolicy::UnbufferedSync => true,
            FlushPolicy::AsyncPeriodic { .. } => false,
        }
    }

    /// Takes the committed offset forward to `candidate`, never back. Returns whether it moved,
    /// which is when waiting readers are to be woken.
    pub fn advance_committed_hw(&mut self, candidate: u64) -> (moved: bool)
        ensures
            moved == (candidate > old(self).committed_hw),
            *final(self) == (PartitionManager {
                committed_hw: if candidate > old(self).committed_hw {
                    candidate
                } else {
                    old(self).committed_hw
                },
                ..*old(self)
            }),
    {
        if candidate > self.committed_hw {
            self.committed_hw = candidate;
            true
        } else {
            false
        }
    }

    /// Takes over the leader's committed offset, as far as this log goes.
    pub fn follow_committed_hw(&mut self, leader_hw: u64) -> (moved: bool)
        ensures
            *final(self) == (PartitionManager { committed_hw: final(self).committed_hw, ..*old(self) }),
            final(self).committed_hw >= old(self).committed_hw,
            old(self).hw_in_log() ==> final(self).hw_in_log(),
            final(self).committed_hw == ({
                let c = if leader_hw < old(self).log_end_offset {
                    leader_hw
                } else {
                    old(self).log_end_offset
                };
                if c > old(self).committed_hw {
                    c
                } else {
                    old(self).committed_hw
                }
            }),
            moved == (final(self).committed_hw != old(self).committed_hw),
    {
        let candidate: u64 = if leader_hw < self.log_end_offset {
            leader_hw
        } else {
            self.log_end_offset
        };
        self.advance_committed_hw(candidate)
    }

    /// Notes that the log was truncated and ends at `effective_offset` now.
    pub fn truncate_after(&mut self, effective_offset: u64)
        ensures
            *final(self) == (PartitionManager {
                log_end_offset: effective_offset,
                committed_hw: if old(self).committed_hw > effective_offset {
                    effective_offset
                } else {
                    old(self).committed_hw
                },
                ..*old(self)
            }),
            final(self).hw_in_log(),
    {
        self.log_end_offset = effective_offset;
        if self.committed_hw > effective_offset {
            self.committed_hw = effective_offset;
        }
    }

    /// Sets who leads the partition, who replicates it, and who is in sync.
    pub fn update_leadership(
        &mut self,
        leader_id: u32,
        leader_epoch: u32,
        replicas: Vec<u32>,
        isr: Vec<u32>,
    )
        ensures
            *final(self) == (PartitionManager { leader_id, leader_epoch, replicas, isr, ..*old(self) }),
    {
        self.leader_id = leader_id;
        self.leader_epoch = leader_epoch;
        self.replicas = replicas;
        self.isr = isr;
    }

    pub fn is_leader(&self, self_node_id: u32) -> (r: bool)
        ensures
            r == (self.leader_id == self_node_id),
    {
        self.leader_id == self_node_id
    }

    pub fn topic(&self) -> (r: &str)
        ensures
            r@ == self.topic@,
    {
        self.topic.as_str()
    }

    pub fn partition(&self) -> (r: u32)
        ensures
            r == self.partition,
    {
        self.partition
    }

    pub fn leader_id(&self) -> (r: u32)
        ensures
            r == self.leader_id,
    {
        self.leader_id
    }

    pub fn leader_epoch(&self) -> (r: u32)
        ensures
            r == self.leader_epoch,
    {
        self.leader_epoch
    }

    pub fn replicas(&self) -> (r: Vec<u32>)
        ensures
            r@ == self.replicas@,
    {
        slice_to_vec(self.replicas.as_slice())
    }

    pub fn isr(&self) -> (r: Vec<u32>)
        ensures
            r@ == self.isr@,
    {
        slice_to_vec(self.isr.as_slice())
    }

    /// The offset that the next record gets. Followers read up to here.
    pub fn latest_offset(&self) -> (r: u64)
        ensures
            r == self.log_end_offset,
    {
        self.log_end_offset
    }

    /// Consumers read up to here.
    pub fn high_watermark(&self) -> (r: u64)
        ensures
            r == self.committed_hw,
    {
        self.committed_hw
    }

    pub fn set_cleanup_policy(&mut self, policy: CleanupPolicy)
        ensures
            *final(self) == (PartitionManager { cleanup_policy: policy, ..*old(self) }),
    {
        self.cleanup_policy = policy;
    }

    pub fn cleanup_policy(&self) -> (r: CleanupPolicy)
        ensures
            r == self.cleanup_policy,
    {
        self.cleanup_policy
    }

    pub fn set_compression_codec(&mut self, codec: CompressionCodec)
        ensures
            *final(self) == (PartitionManager { compression_codec: codec, ..*old(self) }),
    {
        self.compression_codec = codec;
    }

    pub fn set_retention_millis(&mut self, millis: Option<u64>)
        ensures
            *final(self) == (PartitionManager { retention_millis: millis, ..*old(self) }),
    {
        self.retention_millis = millis;
    }

    pub fn set_retention_bytes(&mut self, bytes: Option<u64>)
        ensures
            *final(self) == (PartitionManager { retention_bytes: bytes, ..*old(self) }),
    {
        self.retention_bytes = bytes;
    }

    pub fn set_delete_retention_millis(&mut self, millis: Option<u64>)
        ensures
            *final(self) == (PartitionManager { delete_retention_millis: millis, ..*old(self) }),
    {
        self.delete_retention_millis = millis;
    }
}

/// An append behind the log's end leaves everything that is committed in the log.
pub proof fn appending_keeps_what_is_committed(p: PartitionView, batch: BatchHeader)
    requires
        p.committed_hw <= p.log_end_offset,
        batch.wf(),
        batch.base_offset >= p.log_end_offset,
    ensures
        p.committed_hw <= batch.last_offset() + 1,
{
}

} // verus!
