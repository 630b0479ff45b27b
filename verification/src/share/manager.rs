//! All partitions of all share groups, and who of their members was heard from when.
//!
//! What is kept of a partition goes to a log (see `state_log`). The manager says what to append
//! and when to sync; the caller does the writing and reports back what it wrote.
use crate::keys::{name_pair, name_triple, pair_key, pair_key_is_injective, triple_key};
use crate::name_map::NameMap;
use crate::records::{in_log_order, Record};
use crate::share::acquire::{handed_by, handed_to, lemma_handed_offsets, AcquiredRecordInfo};
use crate::share::batches::{InFlightBatch, Lease, MAX_TIME};
use crate::share::partition::{
    acked_all, cut_all, from_offset, not_before, rejected_all, settled, swept, swept_out, AckBatch,
    SharePartition,
};
use crate::share::snapshot::{check_order, kept, kept_in_order, kept_lease, run_lengths};
use crate::share::state_log::{
    encode_entry, entries_of, entry_bytes, is_corrupt, storable, RecoveredState, StoredState,
};
use crate::share::state_log_laws::{log_of, log_round_trip};
use crate::text::{owned, same_text};
use vstd::prelude::*;
use vstd::string::*;
use vstd::utf8::*;

verus! {

/// How hard a write of share-group state is pushed to disk.
#[derive(Debug, Clone, Copy, PartialEq, Eq, Structural)]
pub enum ShareStateSyncPolicy {
    /// It is left to the operating system.
    Buffered,
    /// Each write is synced.
    EveryWrite,
    /// A write is synced where the last sync lies at least this many nanoseconds back.
    Interval(u64),
}

/// A partition, and the version of it that was last written down.
pub struct ShareEntry {
    pub partition: SharePartition,
    pub persisted_version: u64,
}

/// When a member of a group was last heard from.
pub struct MemberHeartbeat {
    pub group_id: String,
    pub member_id: String,
    pub at: u64,
}

/// All share groups.
pub struct ShareGroupManager {
    pub partitions: NameMap<ShareEntry>,
    pub heartbeats: NameMap<MemberHeartbeat>,
    pub default_lock_timeout: u64,
    pub max_delivery_attempts: u16,
    pub sync_policy: ShareStateSyncPolicy,
    pub last_sync: u64,
    pub sync_count: u64,
}

/// Consecutive records handed out on the same delivery.
#[derive(Debug)]
pub struct AcquiredRecordBatch {
    pub first_offset: u64,
    pub last_offset: u64,
    pub delivery_count: u16,
    pub records: Vec<Record>,
}

/// How many bytes a record counts for.
pub open spec fn record_size(r: Record) -> nat {
    24 + (match r.key {
        Some(k) => k@.len(),
        None => 0,
    }) + (match r.value {
        Some(v) => v@.len(),
        None => 0,
    })
}

/// How many bytes records count for.
pub open spec fn records_size(s: Seq<Record>) -> nat
    decreases s.len(),
{
    if s.len() == 0 {
        0
    } else {
        records_size(s.drop_last()) + record_size(s.last())
    }
}

/// How many bytes runs of records count for.
pub open spec fn runs_size(s: Seq<AcquiredRecordBatch>) -> nat
    decreases s.len(),
{
    if s.len() == 0 {
        0
    } else {
        runs_size(s.drop_last()) + records_size(s.last().records@)
    }
}

/// `n`, or the highest number there is if `n` is higher.
pub open spec fn capped(n: nat) -> u64 {
    if n <= u64::MAX {
        n as u64
    } else {
        u64::MAX
    }
}

fn add_sizes(total: u64, records: &Vec<Record>, Ghost(before): Ghost<nat>) -> (r: u64)
    requires
        total == capped(before),
    ensures
        r == capped(before + records_size(records@)),
{
    let mut sum: u64 = total;
    let mut i: usize = 0;
    while i < records.len()
        invariant
            i <= records.len(),
            sum == capped(before + records_size(records@.take(i as int))),
        decreases records.len() - i,
    {
        let key: usize = match &records[i].key {
            Some(k) => k.len(),
            None => 0,
        };
        let value: usize = match &records[i].value {
            Some(v) => v.len(),
            None => 0,
        };
        proof {
            assert(records@.take(i + 1).drop_last() =~= records@.take(i as int));
        }
        sum = sum.saturating_add(24).saturating_add(key as u64).saturating_add(value as u64);
        i = i + 1;
    }
    assert(records@.take(i as int) =~= records@);
    sum
}

/// How many bytes of a member's quota records count for that were handed to it.
pub fn delivered_bytes(batches: &Vec<AcquiredRecordBatch>) -> (r: u64)
    ensures
        r == capped(runs_size(batches@)),
{
    let mut sum: u64 = 0;
    let mut i: usize = 0;
    while i < batches.len()
        invariant
            i <= batches.len(),
            sum == capped(runs_size(batches@.take(i as int))),
        decreases batches.len() - i,
    {
        let ghost before = runs_size(batches@.take(i as int));
        proof {
            assert(batches@.take(i + 1).drop_last() =~= batches@.take(i as int));
        }
        sum = add_sizes(sum, &batches[i].records, Ghost(before));
        i = i + 1;
    }
    assert(batches@.take(i as int) =~= batches@);
    sum
}

/// What `AcquiredRecordBatch` holds.
pub struct DeliveredRun {
    pub first: u64,
    pub last: u64,
    pub delivery_count: u16,
    pub records: Seq<Record>,
}

impl AcquiredRecordBatch {
    pub open spec fn view(self) -> DeliveredRun {
        DeliveredRun {
            first: self.first_offset,
            last: self.last_offset,
            delivery_count: self.delivery_count,
            records: self.records@,
        }
    }
}

/// The records of `infos`, with consecutive ones on the same delivery put together.
pub open spec fn grouped(infos: Seq<AcquiredRecordInfo>) -> Seq<DeliveredRun>
    decreases infos.len(),
{
    if infos.len() == 0 {
        Seq::empty()
    } else {
        let before = grouped(infos.drop_last());
        let info = infos.last();
        if before.len() > 0 && before.last().last + 1 == info.offset
            && before.last().delivery_count == info.delivery_count {
            before.drop_last().push(
                DeliveredRun {
                    last: info.offset,
                    records: before.last().records.push(info.frame),
                    ..before.last()
                },
            )
        } else {
            before.push(
                DeliveredRun {
                    first: info.offset,
                    last: info.offset,
                    delivery_count: info.delivery_count,
                    records: seq![info.frame],
                },
            )
        }
    }
}

pub open spec fn runs_of(bs: Seq<AcquiredRecordBatch>) -> Seq<DeliveredRun> {
    bs.map_values(|b: AcquiredRecordBatch| b@)
}

/// Puts consecutive records on the same delivery together.
pub fn group_records(infos: Vec<AcquiredRecordInfo>) -> (r: Vec<AcquiredRecordBatch>)
    requires
        forall|k: int| 0 <= k < infos@.len() ==> (#[trigger] infos@[k]).offset < u64::MAX,
    ensures
        runs_of(r@) == grouped(infos@),
{
    let ghost all = infos@;
    let mut batches: Vec<AcquiredRecordBatch> = Vec::new();
    proof {
        assert(runs_of(batches@) =~= grouped(all.take(0)));
    }
    for info in it: infos
        invariant
            it.seq() == all,
            forall|k: int| 0 <= k < all.len() ==> (#[trigger] all[k]).offset < u64::MAX,
            runs_of(batches@) == grouped(all.take(it.index() as int)),
            forall|k: int| 0 <= k < batches@.len() ==> (#[trigger] batches@[k]).last_offset < u64::MAX,
    {
        proof {
            assert(all.take(it.index() + 1).drop_last() =~= all.take(it.index() as int));
            assert(info == all[it.index() as int]);
        }
        let ghost before = batches@;
        let n: usize = batches.len();
        if n > 0 && batches[n - 1].last_offset + 1 == info.offset && batches[n - 1].delivery_count
            == info.delivery_count {
            let last = &mut batches[n - 1];
            last.last_offset = info.offset;
            last.records.push(info.frame);
            proof {
                assert(runs_of(before).last() == before.last()@);
                assert(runs_of(batches@) =~= grouped(all.take(it.index() + 1)));
            }
        } else {
            let mut records: Vec<Record> = Vec::new();
            records.push(info.frame);
            batches.push(
                AcquiredRecordBatch {
                    first_offset: info.offset,
                    last_offset: info.offset,
                    delivery_count: info.delivery_count,
                    records,
                },
            );
            proof {
                if before.len() > 0 {
                    assert(runs_of(before).last() == before.last()@);
                }
                assert(records@ =~= seq![info.frame]);
                assert(runs_of(batches@) =~= grouped(all.take(it.index() + 1)));
            }
        }
    }
    assert(all.take(all.len() as int) =~= all);
    batches
}

/// A state to append to the log: once it is written, `version` is the persisted one.
#[derive(Debug)]
pub struct PendingWrite {
    pub version: u64,
    pub bytes: Vec<u8>,
}

/// The key that a partition of a group is found under.
pub open spec fn key_of(sp: SharePartition) -> Seq<char> {
    triple_key(sp.group_id@, sp.topic@, sp.partition as nat)
}

/// What is kept of a partition.
pub open spec fn stored(sp: SharePartition) -> StoredState {
    StoredState {
        group: sp.group_id@,
        topic: sp.topic@,
        partition: sp.partition,
        start_offset: sp.start_offset,
        batches: sp.batches@.map_values(|b: InFlightBatch| kept(b)),
    }
}

/// The bytes that keep a partition, unless a length in them cannot be written down.
fn state_bytes(sp: &SharePartition) -> (r: Option<Vec<u8>>)
    ensures
        r is Some <==> storable(stored(*sp)),
        r matches Some(bytes) ==> bytes@ == entry_bytes(stored(*sp)),
{
    let (start_offset, batches) = sp.snapshot();
    if sp.group_id.as_str().as_bytes().len() >= 0x1_0000 || sp.topic.as_str().as_bytes().len()
        >= 0x1_0000 || batches.len() as u64 >= 0x1_0000_0000 {
        None
    } else {
        Some(
            encode_entry(
                sp.group_id.as_str(),
                sp.topic.as_str(),
                sp.partition,
                start_offset,
                batches.as_slice(),
            ),
        )
    }
}

/// What is to be written of an entry: nothing where its version is the persisted one, or where
/// a length cannot be written down, and its full state otherwise.
pub open spec fn write_of(e: ShareEntry, w: Option<PendingWrite>) -> bool {
    match w {
        Some(write) => e.partition.version != e.persisted_version && write.version
            == e.partition.version && storable(stored(e.partition)) && write.bytes@ == entry_bytes(
            stored(e.partition),
        ),
        None => e.partition.version == e.persisted_version || !storable(stored(e.partition)),
    }
}

/// What is to be written of an entry.
fn maybe_persist(e: &ShareEntry) -> (r: Option<PendingWrite>)
    ensures
        write_of(*e, r),
{
    let version: u64 = e.partition.state_version();
    if version == e.persisted_version {
        return None;
    }
    match state_bytes(&e.partition) {
        Some(bytes) => Some(PendingWrite { version, bytes }),
        None => None,
    }
}

/// A member that was heard from within this many nanoseconds is active.
pub const ACTIVE_WINDOW: u64 = 60_000_000_000;

/// A log longer than this many bytes is rewritten.
pub const COMPACT_THRESHOLD_BYTES: u64 = 0x10_0000;

/// `x`, or 0 where it is negative.
pub open spec fn saturated(x: int) -> int {
    if x < 0 {
        0
    } else {
        x
    }
}

/// Whether a heartbeat shows an active member of `group`.
pub open spec fn is_active(h: MemberHeartbeat, group: Seq<char>, now: u64) -> bool {
    h.group_id@ == group && now - h.at <= ACTIVE_WINDOW
}

/// The records in flight over the partitions of `group`.
pub open spec fn inflight_of(es: Seq<ShareEntry>, group: Seq<char>) -> int
    decreases es.len(),
{
    if es.len() == 0 {
        0
    } else {
        inflight_of(es.drop_last(), group) + (if es.last().partition.group_id@ == group {
            run_lengths(es.last().partition.batches@)
        } else {
            0
        })
    }
}

/// The lowest start watermark of the partitions of `group`.
pub open spec fn lowest_start(es: Seq<ShareEntry>, group: Seq<char>) -> Option<u64>
    decreases es.len(),
{
    if es.len() == 0 {
        None
    } else {
        let before = lowest_start(es.drop_last(), group);
        let start = es.last().partition.start_offset;
        if es.last().partition.group_id@ != group {
            before
        } else {
            match before {
                Some(o) => Some(if o < start { o } else { start }),
                None => Some(start),
            }
        }
    }
}

/// What is kept of each of the partitions.
pub open spec fn all_stored(es: Seq<ShareEntry>) -> Seq<StoredState> {
    es.map_values(|e: ShareEntry| stored(e.partition))
}

proof fn lemma_log_push(records: Seq<StoredState>, r: StoredState)
    ensures
        log_of(records.push(r)) == log_of(records) + entry_bytes(r),
    decreases records.len(),
{
    let more = records.push(r);
    if records.len() == 0 {
        assert(more.skip(1) =~= Seq::empty());
        assert(log_of(more.skip(1)) =~= Seq::empty());
        assert(log_of(more) =~= log_of(records) + entry_bytes(r));
    } else {
        assert(more.skip(1) =~= records.skip(1).push(r));
        lemma_log_push(records.skip(1), r);
        assert(log_of(more) =~= log_of(records) + entry_bytes(r));
    }
}

/// What a sweep found in one partition.
#[derive(Debug)]
pub struct SweptPartition {
    pub group_id: String,
    pub topic: String,
    pub partition: u32,
    pub dlq: Vec<u64>,
    pub write: Option<PendingWrite>,
}

/// What holds of an entry before and after a sweep at `now` that found `out`.
pub open spec fn swept_to(before: ShareEntry, after: ShareEntry, now: u64, out: SweptPartition) -> bool {
    let sp = before.partition;
    let m = swept(sp.leases(), now, sp.max_delivery_attempts);
    &&& after.partition.same_place(sp)
    &&& after.persisted_version == before.persisted_version
    &&& after.partition.next_fetch_offset == sp.next_fetch_offset
    &&& settled(m, sp.start_offset, after.partition.start_offset)
    &&& after.partition.leases() == from_offset(m, after.partition.start_offset)
    &&& after.partition.starts() == not_before(sp.starts(), after.partition.start_offset)
    &&& out.group_id@ == sp.group_id@
    &&& out.topic@ == sp.topic@
    &&& out.partition == sp.partition
    &&& swept_out(sp.leases(), now, sp.max_delivery_attempts, out.dlq@)
    &&& write_of(after, out.write)
}

/// What holds of a partition before and after `member` acknowledged `acks`, of which `dlq` went
/// to the dead-letter queue.
pub open spec fn answered_to(
    before: SharePartition,
    after: SharePartition,
    acks: Seq<AckBatch>,
    member: Seq<char>,
    now: u64,
    dlq: Seq<u64>,
) -> bool {
    let m = acked_all(before.leases(), acks, member, now);
    &&& after.same_place(before)
    &&& after.next_fetch_offset == before.next_fetch_offset
    &&& settled(m, before.start_offset, after.start_offset)
    &&& after.leases() == from_offset(m, after.start_offset)
    &&& after.starts() == not_before(
        cut_all(before.leases(), before.starts(), acks, member, now),
        after.start_offset,
    )
    &&& dlq == rejected_all(before.leases(), acks, member, now)
}

/// The key that a state that was read back is found under.
pub open spec fn recovered_key(r: StoredState) -> Seq<char> {
    triple_key(r.group, r.topic, r.partition as nat)
}

/// `e` is the state `r` as it is restored.
pub open spec fn recovered_as(
    r: StoredState,
    e: ShareEntry,
    default_lock_timeout: u64,
    max_delivery_attempts: u16,
) -> bool {
    let sp = e.partition;
    &&& sp.group_id@ == r.group
    &&& sp.topic@ == r.topic
    &&& sp.partition == r.partition
    &&& sp.default_lock_timeout == default_lock_timeout
    &&& sp.max_delivery_attempts == max_delivery_attempts
    &&& sp.start_offset == r.start_offset
    &&& sp.next_fetch_offset == (if r.batches.len() == 0 {
        r.start_offset as int
    } else {
        r.batches.last().last_offset + 1
    })
    &&& sp.batches@.len() == r.batches.len()
    &&& forall|i: int|
        0 <= i < r.batches.len() ==> (#[trigger] sp.batches@[i]).first_offset
            == r.batches[i].first_offset && sp.batches@[i].last_offset == r.batches[i].last_offset
            && sp.batches@[i].lease() == kept_lease(r.batches[i], default_lock_timeout)
    &&& sp.version == 0
    &&& e.persisted_version == 0
}

/// How acknowledgements are answered, and what becomes of the partitions.
pub open spec fn acknowledged_by(
    before: ShareGroupManager,
    after: ShareGroupManager,
    group_id: Seq<char>,
    member_id: Seq<char>,
    topic: Seq<char>,
    partition: u32,
    batches: Seq<AckBatch>,
    now: u64,
    r: (Vec<u64>, Option<PendingWrite>),
) -> bool {
    let k = triple_key(group_id, topic, partition as nat);
    &&& after.partitions@.contains_key(k)
    &&& after.partitions@ == before.partitions@.insert(
        k,
        after.partitions@[k],
    )
    &&& write_of(after.partitions@[k], r.1)
    &&& exists|e: ShareEntry| #[trigger]
        ShareGroupManager::found_or_new(before, e, group_id, topic, partition)
            && after.partitions@[k].persisted_version == e.persisted_version
            && answered_to(
            e.partition,
            after.partitions@[k].partition,
            batches,
            member_id,
            now,
            r.0@,
        )
}

impl ShareGroupManager {
    /// Each entry is found under its own key and is well formed.
    pub open spec fn wf(self) -> bool {
        &&& self.partitions.wf()
        &&& self.heartbeats.wf()
        &&& self.default_lock_timeout <= MAX_TIME
        &&& forall|k: Seq<char>| #[trigger]
            self.partitions@.contains_key(k) ==> self.partitions@[k].partition.wf() && k == key_of(
                self.partitions@[k].partition,
            )
        &&& forall|k: Seq<char>| #[trigger]
            self.heartbeats@.contains_key(k) ==> k == pair_key(
                self.heartbeats@[k].group_id@,
                self.heartbeats@[k].member_id@,
            )
    }

    /// A partition of a group as this manager would create it.
    pub open spec fn is_new(self, e: ShareEntry, group: Seq<char>, topic: Seq<char>, partition: u32) -> bool {
        &&& e.partition.wf()
        &&& e.partition.group_id@ == group
        &&& e.partition.topic@ == topic
        &&& e.partition.partition == partition
        &&& e.partition.default_lock_timeout == self.default_lock_timeout
        &&& e.partition.max_delivery_attempts == self.max_delivery_attempts
        &&& e.partition.start_offset == 0
        &&& e.partition.next_fetch_offset == 0
        &&& e.partition.leases() == Map::<u64, Lease>::empty()
        &&& e.partition.version == 0
        &&& e.persisted_version == 0
    }

    /// The settings stay as they are.
    pub open spec fn same_settings(self, other: Self) -> bool {
        &&& self.default_lock_timeout == other.default_lock_timeout
        &&& self.max_delivery_attempts == other.max_delivery_attempts
        &&& self.sync_policy == other.sync_policy
        &&& self.last_sync == other.last_sync
        &&& self.sync_count == other.sync_count
    }

    /// `e` is what `before` holds of the partition, or a new entry where it holds nothing.
    pub open spec fn found_or_new(
        before: Self,
        e: ShareEntry,
        group: Seq<char>,
        topic: Seq<char>,
        partition: u32,
    ) -> bool {
        let k = triple_key(group, topic, partition as nat);
        if before.partitions@.contains_key(k) {
            e == before.partitions@[k]
        } else {
            before.is_new(e, group, topic, partition)
        }
    }

    /// A manager of no groups.
    pub fn new(
        default_lock_timeout: u64,
        max_delivery_attempts: u16,
        sync_policy: ShareStateSyncPolicy,
        now: u64,
    ) -> (r: Self)
        requires
            default_lock_timeout <= MAX_TIME,
        ensures
            r.wf(),
            r.partitions@ == Map::<Seq<char>, ShareEntry>::empty(),
            r.heartbeats@ == Map::<Seq<char>, MemberHeartbeat>::empty(),
            r.default_lock_timeout == default_lock_timeout,
            r.max_delivery_attempts == max_delivery_attempts,
            r.sync_policy == sync_policy,
            r.last_sync == now,
            r.sync_count == 0,
    {
        ShareGroupManager {
            partitions: NameMap::new(),
            heartbeats: NameMap::new(),
            default_lock_timeout,
            max_delivery_attempts,
            sync_policy,
            last_sync: now,
            sync_count: 0,
        }
    }

    /// A manager of the groups whose state was read back. A state whose runs are not in order
    /// was never written by a manager, and is left out.
    pub fn recover(
        default_lock_timeout: u64,
        max_delivery_attempts: u16,
        sync_policy: ShareStateSyncPolicy,
        now: u64,
        found: Vec<RecoveredState>,
    ) -> (r: Self)
        requires
            default_lock_timeout <= MAX_TIME,
            forall|i: int, j: int|
                0 <= i < j < found@.len() ==> recovered_key((#[trigger] found@[i])@)
                    != recovered_key((#[trigger] found@[j])@),
        ensures
            r.wf(),
            r.heartbeats@ == Map::<Seq<char>, MemberHeartbeat>::empty(),
            r.default_lock_timeout == default_lock_timeout,
            r.max_delivery_attempts == max_delivery_attempts,
            r.sync_policy == sync_policy,
            r.last_sync == now,
            r.sync_count == 0,
            forall|i: int|
                0 <= i < found@.len() ==> (kept_in_order(
                    (#[trigger] found@[i]).start_offset,
                    found@[i].batches@,
                ) <==> r.partitions@.contains_key(recovered_key(found@[i]@))),
            forall|i: int|
                0 <= i < found@.len() && kept_in_order(
                    (#[trigger] found@[i]).start_offset,
                    found@[i].batches@,
                ) ==> recovered_as(
                    found@[i]@,
                    r.partitions@[recovered_key(found@[i]@)],
                    default_lock_timeout,
                    max_delivery_attempts,
                ),
            forall|k: Seq<char>| #[trigger]
                r.partitions@.contains_key(k) ==> exists|i: int|
                    0 <= i < found@.len() && recovered_key((#[trigger] found@[i])@) == k,
    {
        let mut r = Self::new(default_lock_timeout, max_delivery_attempts, sync_policy, now);
        let ghost all = found@;
        for state in it: found
            invariant
                it.seq() == all,
                default_lock_timeout <= MAX_TIME,
                forall|i: int, j: int|
                    0 <= i < j < all.len() ==> recovered_key((#[trigger] all[i])@)
                        != recovered_key((#[trigger] all[j])@),
                r.wf(),
                r.heartbeats@ == Map::<Seq<char>, MemberHeartbeat>::empty(),
                r.default_lock_timeout == default_lock_timeout,
                r.max_delivery_attempts == max_delivery_attempts,
                r.sync_policy == sync_policy,
                r.last_sync == now,
                r.sync_count == 0,
                forall|i: int|
                    0 <= i < it.index() ==> (kept_in_order(
                        (#[trigger] all[i]).start_offset,
                        all[i].batches@,
                    ) <==> r.partitions@.contains_key(recovered_key(all[i]@))),
                forall|i: int|
                    0 <= i < it.index() && kept_in_order(
                        (#[trigger] all[i]).start_offset,
                        all[i].batches@,
                    ) ==> recovered_as(
                        all[i]@,
                        r.partitions@[recovered_key(all[i]@)],
                        default_lock_timeout,
                        max_delivery_attempts,
                    ),
                forall|k: Seq<char>| #[trigger]
                    r.partitions@.contains_key(k) ==> exists|i: int|
                        0 <= i < it.index() && recovered_key((#[trigger] all[i])@) == k,
        {
            let ghost v = state@;
            let ghost p0 = r.partitions@;
            assert(state == all[it.index() as int]);
            let key: String = name_triple(
                state.group_id.as_str(),
                state.topic.as_str(),
                state.partition,
            );
            let ordered: bool = check_order(state.start_offset, state.batches.as_slice());
            if ordered {
                let sp = SharePartition::restore(
                    state.topic,
                    state.partition,
                    state.group_id,
                    default_lock_timeout,
                    max_delivery_attempts,
                    state.start_offset,
                    state.batches,
                );
                r.partitions.insert(key, ShareEntry { partition: sp, persisted_version: 0 });
            }
            proof {
                assert forall|i: int| 0 <= i < it.index() implies r.partitions@.contains_key(
                    recovered_key((#[trigger] all[i])@),
                ) == p0.contains_key(recovered_key(all[i]@)) && (p0.contains_key(
                    recovered_key(all[i]@),
                ) ==> r.partitions@[recovered_key(all[i]@)] == p0[recovered_key(all[i]@)]) by {
                    assert(recovered_key(all[i]@) != recovered_key(all[it.index() as int]@));
                }
                assert(!p0.contains_key(recovered_key(v))) by {
                    if p0.contains_key(recovered_key(v)) {
                        let i = choose|i: int|
                            0 <= i < it.index() && recovered_key((#[trigger] all[i])@)
                                == recovered_key(v);
                        assert(recovered_key(all[i]@) != recovered_key(
                            all[it.index() as int]@,
                        ));
                    }
                }
                assert forall|k: Seq<char>| #[trigger] r.partitions@.contains_key(k) implies exists|
                    i: int,
                |
                    0 <= i < it.index() + 1 && recovered_key((#[trigger] all[i])@) == k by {
                    if k == recovered_key(v) {
                        assert(recovered_key(all[it.index() as int]@) == k);
                    } else {
                        assert(p0.contains_key(k));
                    }
                }
            }
        }
        r
    }

    /// Finds the partition of a group, or begins it, and returns its position.
    pub fn get_or_create_partition(&mut self, group_id: &str, topic: &str, partition: u32) -> (r:
        usize)
        requires
            old(self).wf(),
        ensures
            final(self).wf(),
            final(self).same_settings(*old(self)),
            final(self).heartbeats == old(self).heartbeats,
            r < final(self).partitions.names().len(),
            final(self).partitions.names().len() == final(self).partitions.values().len(),
            final(self).partitions.names()[r as int] == triple_key(
                group_id@,
                topic@,
                partition as nat,
            ),
            Self::found_or_new(
                *old(self),
                final(self).partitions.values()[r as int],
                group_id@,
                topic@,
                partition,
            ),
            final(self).partitions@ == old(self).partitions@.insert(
                triple_key(group_id@, topic@, partition as nat),
                final(self).partitions.values()[r as int],
            ),
    {
        let key: String = name_triple(group_id, topic, partition);
        let n: usize = self.partitions.len();
        match self.partitions.find(key.as_str()) {
            Some(i) => {
                assert(self.partitions@.insert(key@, self.partitions.values()[i as int])
                    =~= self.partitions@);
                i
            },
            None => {
                let sp = SharePartition::new(
                    owned(topic),
                    partition,
                    owned(group_id),
                    self.default_lock_timeout,
                    self.max_delivery_attempts,
                    0,
                );
                self.partitions.insert(key, ShareEntry { partition: sp, persisted_version: 0 });
                let m: usize = self.partitions.len();
                n
            },
        }
    }

    /// Notes that a member was heard from.
    pub fn record_heartbeat(&mut self, group_id: &str, member_id: &str, now: u64)
        requires
            old(self).wf(),
        ensures
            final(self).wf(),
            final(self).same_settings(*old(self)),
            final(self).partitions == old(self).partitions,
            final(self).heard(*old(self), group_id@, member_id@, now),
    {
        let key: String = name_pair(group_id, member_id);
        self.heartbeats.insert(
            key,
            MemberHeartbeat { group_id: owned(group_id), member_id: owned(member_id), at: now },
        );
    }

    /// The heartbeats are those of `before` and one of `member` at `now`.
    pub open spec fn heard(self, before: Self, group: Seq<char>, member: Seq<char>, now: u64) -> bool {
        let k = pair_key(group, member);
        &&& self.heartbeats@.contains_key(k)
        &&& self.heartbeats@ == before.heartbeats@.insert(k, self.heartbeats@[k])
        &&& self.heartbeats@[k].at == now
        &&& self.heartbeats@[k].group_id@ == group
        &&& self.heartbeats@[k].member_id@ == member
    }

    /// Hands out records of a partition to a member of a group, consecutive ones together, and
    /// says what to write of the partition then.
    pub fn share_fetch<F: Fn(u64) -> Option<Vec<Record>>>(
        &mut self,
        group_id: &str,
        member_id: &str,
        topic: &str,
        partition: u32,
        max_records: usize,
        lock_timeout: Option<u64>,
        now: u64,
        fetch: F,
    ) -> (r: (Vec<AcquiredRecordBatch>, Option<PendingWrite>))
        requires
            old(self).wf(),
            now <= MAX_TIME,
            lock_timeout matches Some(t) ==> t <= MAX_TIME,
            old(self).deliveries_fit(group_id@, topic@, partition),
            forall|o: u64| call_requires(fetch, (o,)),
            forall|o: u64, records: Vec<Record>| #[trigger]
                call_ensures(fetch, (o,), Some(records)) ==> in_log_order(records@),
        ensures
            final(self).wf(),
            final(self).same_settings(*old(self)),
            final(self).heard(*old(self), group_id@, member_id@, now),
            ({
                let k = triple_key(group_id@, topic@, partition as nat);
                &&& final(self).partitions@.contains_key(k)
                &&& final(self).partitions@ == old(self).partitions@.insert(
                    k,
                    final(self).partitions@[k],
                )
                &&& write_of(final(self).partitions@[k], r.1)
                &&& exists|e: ShareEntry, infos: Seq<AcquiredRecordInfo>|
                    Self::found_or_new(*old(self), e, group_id@, topic@, partition)
                        && final(self).partitions@[k].persisted_version == e.persisted_version
                        && #[trigger] handed_to(
                        e.partition,
                        final(self).partitions@[k].partition,
                        member_id@,
                        max_records as int,
                        lock_timeout,
                        now,
                        infos,
                    ) && handed_by(
                        fetch,
                        e.partition,
                        final(self).partitions@[k].partition,
                        member_id@,
                        max_records as int,
                        lock_timeout,
                        now,
                        infos,
                    ) && runs_of(r.0@) == grouped(infos)
            }),
    {
        self.record_heartbeat(group_id, member_id, now);
        let i: usize = self.get_or_create_partition(group_id, topic, partition);
        let ghost k = triple_key(group_id@, topic@, partition as nat);
        let ghost e = self.partitions.values()[i as int];
        let ghost mid = self.partitions@;
        let entry: &mut ShareEntry = self.partitions.value_mut(i);
        let infos: Vec<AcquiredRecordInfo> = entry.partition.acquire_records(
            member_id,
            max_records,
            lock_timeout,
            now,
            fetch,
        );
        let write: Option<PendingWrite> = maybe_persist(&*entry);
        proof {
            lemma_handed_offsets(
                e.partition,
                entry.partition,
                member_id@,
                max_records as int,
                lock_timeout,
                now,
                infos@,
            );
        }
        let ghost after = *entry;
        let batches: Vec<AcquiredRecordBatch> = group_records(infos);
        proof {
            assert(self.partitions@ == mid.insert(k, after));
            assert(self.partitions@ =~= old(self).partitions@.insert(k, after));
            assert(handed_to(
                e.partition,
                self.partitions@[k].partition,
                member_id@,
                max_records as int,
                lock_timeout,
                now,
                infos@,
            ));
        }
        (batches, write)
    }

    /// One more delivery of whatever is available in the partition can still be counted.
    pub open spec fn deliveries_fit(self, group: Seq<char>, topic: Seq<char>, partition: u32) -> bool {
        let k = triple_key(group, topic, partition as nat);
        self.partitions@.contains_key(k) ==> self.partitions@[k].partition.deliveries_fit()
    }

    /// Whether one more delivery of whatever is available in the partition can still be counted.
    pub fn check_deliveries(&self, group_id: &str, topic: &str, partition: u32) -> (r: bool)
        requires
            self.wf(),
        ensures
            r == self.deliveries_fit(group_id@, topic@, partition),
    {
        let key: String = name_triple(group_id, topic, partition);
        match self.partitions.get(key.as_str()) {
            Some(e) => e.partition.check_deliveries(),
            None => true,
        }
    }

    /// Applies acknowledgements of a member to a partition of a group. Returns the rejected
    /// offsets, which belong in the dead-letter queue, and what to write of the partition.
    pub fn share_acknowledge(
        &mut self,
        group_id: &str,
        member_id: &str,
        topic: &str,
        partition: u32,
        batches: &[AckBatch],
        now: u64,
    ) -> (r: (Vec<u64>, Option<PendingWrite>))
        requires
            old(self).wf(),
            now <= MAX_TIME,
        ensures
            final(self).wf(),
            final(self).same_settings(*old(self)),
            final(self).heard(*old(self), group_id@, member_id@, now),
            acknowledged_by(*old(self), *final(self), group_id@, member_id@, topic@, partition, batches@, now, r),
    {
        self.record_heartbeat(group_id, member_id, now);
        let i: usize = self.get_or_create_partition(group_id, topic, partition);
        let ghost k = triple_key(group_id@, topic@, partition as nat);
        let ghost e = self.partitions.values()[i as int];
        let ghost mid = self.partitions@;
        let entry: &mut ShareEntry = self.partitions.value_mut(i);
        let dlq: Vec<u64> = entry.partition.acknowledge(member_id, batches, now);
        let write: Option<PendingWrite> = maybe_persist(&*entry);
        let ghost after = *entry;
        proof {
            assert(self.partitions@ == mid.insert(k, after));
            assert(self.partitions@ =~= old(self).partitions@.insert(k, after));
            assert(Self::found_or_new(*old(self), e, group_id@, topic@, partition));
        }
        (dlq, write)
    }

    /// Notes that `version` of a partition has been written down.
    pub fn mark_persisted(&mut self, group_id: &str, topic: &str, partition: u32, version: u64)
        requires
            old(self).wf(),
        ensures
            final(self).wf(),
            final(self).same_settings(*old(self)),
            final(self).heartbeats == old(self).heartbeats,
            ({
                let k = triple_key(group_id@, topic@, partition as nat);
                final(self).partitions@ == (if old(self).partitions@.contains_key(k) {
                    old(self).partitions@.insert(
                        k,
                        ShareEntry {
                            persisted_version: version,
                            partition: old(self).partitions@[k].partition,
                        },
                    )
                } else {
                    old(self).partitions@
                })
            }),
    {
        let key: String = name_triple(group_id, topic, partition);
        if let Some(i) = self.partitions.find(key.as_str()) {
            let entry: &mut ShareEntry = self.partitions.value_mut(i);
            entry.persisted_version = version;
        }
    }

    /// Ends the leases of every partition that have run out by `now`. Says of each partition
    /// which offsets belong in the dead-letter queue, and what to write of it.
    pub fn sweep_lock_timeouts(&mut self, now: u64) -> (r: Vec<SweptPartition>)
        requires
            old(self).wf(),
        ensures
            final(self).wf(),
            final(self).same_settings(*old(self)),
            final(self).heartbeats == old(self).heartbeats,
            final(self).partitions.names() == old(self).partitions.names(),
            r@.len() == old(self).partitions.names().len(),
            forall|i: int|
                0 <= i < r@.len() ==> swept_to(
                    old(self).partitions.values()[i],
                    final(self).partitions.values()[i],
                    now,
                    #[trigger] r@[i],
                ),
    {
        let mut out: Vec<SweptPartition> = Vec::new();
        let n: usize = self.partitions.len();
        let ghost before = self.partitions;
        let mut i: usize = 0;
        while i < n
            invariant
                i <= n,
                n == before.names().len(),
                before.names().len() == before.values().len(),
                before == old(self).partitions,
                self.wf(),
                self.same_settings(*old(self)),
                self.heartbeats == old(self).heartbeats,
                self.partitions.names() == before.names(),
                self.partitions.values().len() == n,
                out@.len() == i,
                forall|j: int| 0 <= j < i ==> swept_to(
                    before.values()[j],
                    self.partitions.values()[j],
                    now,
                    #[trigger] out@[j],
                ),
                forall|j: int| i <= j < n ==> self.partitions.values()[j] == #[trigger] before.values()[j],
            decreases n - i,
        {
            let ghost cur = self.partitions;
            let k = self.partitions.name_at(i);
            let ghost name = k@;
            let ghost e = self.partitions.values()[i as int];
            let ghost m = self.partitions@;
            assert(before.values()[i as int] == e);
            let entry: &mut ShareEntry = self.partitions.value_mut(i);
            let dlq: Vec<u64> = entry.partition.check_lock_timeouts(now);
            let write: Option<PendingWrite> = maybe_persist(&*entry);
            let group_id: String = entry.partition.group_id.clone();
            let topic: String = entry.partition.topic.clone();
            let partition: u32 = entry.partition.partition;
            let ghost after = *entry;
            out.push(SweptPartition { group_id, topic, partition, dlq, write });
            proof {
                assert(self.partitions@ == m.insert(name, after));
                assert forall|j: int| 0 <= j < i + 1 implies swept_to(
                    before.values()[j],
                    self.partitions.values()[j],
                    now,
                    #[trigger] out@[j],
                ) by {
                    if j < i {
                        assert(swept_to(before.values()[j], cur.values()[j], now, out@[j]));
                    }
                }
            }
            i = i + 1;
        }
        out
    }

    /// The members of a group that were heard from within the last 60 seconds.
    pub fn list_active_members(&self, group_id: &str, now: u64) -> (r: Vec<String>)
        requires
            self.wf(),
        ensures
            forall|m: Seq<char>|
                #![trigger pair_key(group_id@, m)]
                (exists|i: int| 0 <= i < r@.len() && (#[trigger] r@[i])@ == m) <==> (
                self.heartbeats@.contains_key(pair_key(group_id@, m)) && now
                    - self.heartbeats@[pair_key(group_id@, m)].at <= ACTIVE_WINDOW),
            forall|i: int, j: int| 0 <= i < j < r@.len() ==> (#[trigger] r@[i])@ != (#[trigger] r@[j])@,
    {
        let mut out: Vec<String> = Vec::new();
        let ghost mut from: Seq<int> = Seq::empty();
        let n: usize = self.heartbeats.len();
        let ghost names = self.heartbeats.names();
        let ghost values = self.heartbeats.values();
        let mut i: usize = 0;
        while i < n
            invariant
                i <= n,
                n == names.len(),
                self.wf(),
                names == self.heartbeats.names(),
                values == self.heartbeats.values(),
                names.no_duplicates(),
                forall|j: int|
                    0 <= j < n ==> self.heartbeats@.contains_key(#[trigger] names[j])
                        && self.heartbeats@[names[j]] == values[j],
                from.len() == out@.len(),
                forall|a: int|
                    0 <= a < from.len() ==> 0 <= (#[trigger] from[a]) < i && out@[a]@
                        == values[from[a]].member_id@ && is_active(values[from[a]], group_id@, now),
                forall|a: int, b: int| 0 <= a < b < from.len() ==> (#[trigger] from[a]) < (#[trigger] from[b]),
                forall|j: int|
                    0 <= j < i && is_active(#[trigger] values[j], group_id@, now) ==> exists|a: int|
                        0 <= a < from.len() && #[trigger] from[a] == j,
            decreases n - i,
        {
            let h: &MemberHeartbeat = self.heartbeats.value_at(i);
            let ghost from0 = from;
            if same_text(h.group_id.as_str(), group_id) && (h.at >= now || now - h.at
                <= ACTIVE_WINDOW) {
                out.push(h.member_id.clone());
                proof {
                    from = from.push(i as int);
                }
            }
            proof {
                assert forall|j: int|
                    0 <= j < i + 1 && is_active(#[trigger] values[j], group_id@, now) implies exists|
                    a: int,
                |
                    0 <= a < from.len() && #[trigger] from[a] == j by {
                    if j < i {
                        let a = choose|a: int| 0 <= a < from0.len() && #[trigger] from0[a] == j;
                        assert(from[a] == j);
                    } else {
                        assert(from[from0.len() as int] == i);
                    }
                }
            }
            i = i + 1;
        }
        proof {
            assert forall|m: Seq<char>|
                #![trigger pair_key(group_id@, m)]
                (exists|a: int| 0 <= a < out@.len() && (#[trigger] out@[a])@ == m) <==> (
                self.heartbeats@.contains_key(pair_key(group_id@, m)) && now
                    - self.heartbeats@[pair_key(group_id@, m)].at <= ACTIVE_WINDOW) by {
                let k = pair_key(group_id@, m);
                if exists|a: int| 0 <= a < out@.len() && (#[trigger] out@[a])@ == m {
                    let a = choose|a: int| 0 <= a < out@.len() && (#[trigger] out@[a])@ == m;
                    let j = from[a];
                    assert(names[j] == k);
                }
                if self.heartbeats@.contains_key(k) && now - self.heartbeats@[k].at <= ACTIVE_WINDOW {
                    assert(names.contains(k));
                    let j = choose|j: int| 0 <= j < names.len() && names[j] == k;
                    pair_key_is_injective(
                        group_id@,
                        m,
                        values[j].group_id@,
                        values[j].member_id@,
                    );
                    assert(is_active(values[j], group_id@, now));
                    let a = choose|a: int| 0 <= a < from.len() && #[trigger] from[a] == j;
                    assert(out@[a]@ == m);
                }
            }
            assert forall|a: int, b: int| 0 <= a < b < out@.len() implies (#[trigger] out@[a])@ != (
            #[trigger] out@[b])@ by {
                assert(from[a] < from[b]);
                assert(names[from[a]] != names[from[b]]);
            }
        }
        out
    }

    /// How many records of a group are in flight over all its partitions, and the lowest of
    /// their start watermarks, or 0 where it has no partition.
    pub fn group_stats(&self, group_id: &str) -> (r: (u128, u64))
        requires
            self.wf(),
        ensures
            r.0 == inflight_of(self.partitions.values(), group_id@),
            r.1 == (match lowest_start(self.partitions.values(), group_id@) {
                Some(o) => o,
                None => 0,
            }),
    {
        let n: usize = self.partitions.len();
        let ghost values = self.partitions.values();
        let mut inflight: u128 = 0;
        let mut start: Option<u64> = None;
        let mut i: usize = 0;
        assert(values.take(0) =~= Seq::empty());
        while i < n
            invariant
                i <= n,
                n == values.len(),
                n == self.partitions.names().len(),
                self.wf(),
                values == self.partitions.values(),
                forall|j: int|
                    0 <= j < n ==> self.partitions@.contains_key(
                        #[trigger] self.partitions.names()[j],
                    ) && self.partitions@[self.partitions.names()[j]] == values[j],
                inflight == inflight_of(values.take(i as int), group_id@),
                inflight <= i * 0x1_0000_0000_0000_0000,
                start == lowest_start(values.take(i as int), group_id@),
            decreases n - i,
        {
            let e: &ShareEntry = self.partitions.value_at(i);
            proof {
                assert(values.take(i + 1).drop_last() =~= values.take(i as int));
                assert(self.partitions@.contains_key(self.partitions.names()[i as int]));
                assert(i < 0xffff_ffff_ffff_ffff) by {
                    assert(n <= 0xffff_ffff_ffff_ffff);
                }
            }
            if same_text(e.partition.group_id.as_str(), group_id) {
                inflight = inflight + e.partition.inflight_count() as u128;
                let sp_start: u64 = e.partition.start_offset;
                start =
                match start {
                    Some(current) => Some(if current < sp_start { current } else { sp_start }),
                    None => Some(sp_start),
                };
            }
            i = i + 1;
        }
        assert(values.take(i as int) =~= values);
        (
            inflight,
            match start {
                Some(o) => o,
                None => 0,
            },
        )
    }

    /// The log that holds the state of every partition and nothing else, unless one of them
    /// cannot be written down.
    pub fn compact_log(&self) -> (r: Option<Vec<u8>>)
        requires
            self.wf(),
        ensures
            r is Some <==> forall|i: int|
                0 <= i < self.partitions.values().len() ==> storable(
                    stored((#[trigger] self.partitions.values()[i]).partition),
                ),
            r matches Some(bytes) ==> bytes@ == log_of(all_stored(self.partitions.values())),
    {
        let n: usize = self.partitions.len();
        let ghost values = self.partitions.values();
        let mut out: Vec<u8> = Vec::new();
        let mut i: usize = 0;
        assert(all_stored(values.take(0)) =~= Seq::empty());
        while i < n
            invariant
                i <= n,
                n == values.len(),
                n == self.partitions.names().len(),
                values == self.partitions.values(),
                forall|j: int| 0 <= j < i ==> storable(stored((#[trigger] values[j]).partition)),
                out@ == log_of(all_stored(values.take(i as int))),
            decreases n - i,
        {
            let e: &ShareEntry = self.partitions.value_at(i);
            match state_bytes(&e.partition) {
                Some(bytes) => {
                    crate::codec::put_bytes(&mut out, bytes.as_slice());
                    proof {
                        lemma_log_push(
                            all_stored(values.take(i as int)),
                            stored(values[i as int].partition),
                        );
                        assert(all_stored(values.take(i + 1)) =~= all_stored(
                            values.take(i as int),
                        ).push(stored(values[i as int].partition)));
                    }
                },
                None => {
                    return None;
                },
            }
            i = i + 1;
        }
        assert(values.take(i as int) =~= values);
        Some(out)
    }

    /// Notes that the log was rewritten from the present state of every partition.
    pub fn mark_compacted(&mut self)
        requires
            old(self).wf(),
        ensures
            final(self).wf(),
            final(self).same_settings(*old(self)),
            final(self).heartbeats == old(self).heartbeats,
            final(self).partitions.names() == old(self).partitions.names(),
            forall|i: int|
                0 <= i < old(self).partitions.names().len() ==> (
                #[trigger] final(self).partitions.values()[i]) == (ShareEntry {
                    persisted_version: old(self).partitions.values()[i].partition.version,
                    partition: old(self).partitions.values()[i].partition,
                }),
    {
        let n: usize = self.partitions.len();
        let ghost before = self.partitions;
        let mut i: usize = 0;
        while i < n
            invariant
                i <= n,
                n == before.names().len(),
                n == before.values().len(),
                before == old(self).partitions,
                self.wf(),
                self.same_settings(*old(self)),
                self.heartbeats == old(self).heartbeats,
                self.partitions.names() == before.names(),
                self.partitions.values().len() == n,
                forall|j: int|
                    0 <= j < i ==> (#[trigger] self.partitions.values()[j]) == (ShareEntry {
                        persisted_version: before.values()[j].partition.version,
                        partition: before.values()[j].partition,
                    }),
                forall|j: int|
                    i <= j < n ==> (#[trigger] self.partitions.values()[j]) == before.values()[j],
            decreases n - i,
        {
            let k = self.partitions.name_at(i);
            let ghost name = k@;
            let ghost m = self.partitions@;
            let entry: &mut ShareEntry = self.partitions.value_mut(i);
            entry.persisted_version = entry.partition.version;
            i = i + 1;
        }
    }

    /// Whether the sync policy wants a sync after a write at `now`.
    pub open spec fn wants_sync(self, now: u64) -> bool {
        match self.sync_policy {
            ShareStateSyncPolicy::Buffered => false,
            ShareStateSyncPolicy::EveryWrite => true,
            ShareStateSyncPolicy::Interval(d) => saturated(now - self.last_sync) >= d,
        }
    }

    /// What is remembered of a sync at `now` that the policy wanted.
    pub open spec fn synced_at(self, now: u64) -> Self {
        ShareGroupManager {
            sync_count: self.sync_count.wrapping_add(1),
            last_sync: if self.sync_policy is Interval {
                now
            } else {
                self.last_sync
            },
            ..self
        }
    }

    /// After a write at `now`, syncs by `sync` if the policy wants it, and counts that. `sync`
    /// says whether it succeeded. Returns whether all that was wanted was done.
    pub fn sync_after_write<F: FnOnce() -> bool>(&mut self, now: u64, sync: F) -> (r: bool)
        requires
            call_requires(sync, ()),
        ensures
            old(self).wants_sync(now) ==> call_ensures(sync, (), r),
            written(*old(self), *final(self), now, r),
    {
        if !self.sync_due(now) {
            return true;
        }
        let ok: bool = sync();
        if ok {
            self.note_sync(now);
        }
        ok
    }

    /// Whether the sync policy wants a sync after a write at `now`.
    pub fn sync_due(&self, now: u64) -> (r: bool)
        ensures
            r == self.wants_sync(now),
    {
        match self.sync_policy {
            ShareStateSyncPolicy::Buffered => false,
            ShareStateSyncPolicy::EveryWrite => true,
            ShareStateSyncPolicy::Interval(d) => now.saturating_sub(self.last_sync) >= d,
        }
    }

    /// Notes that a write at `now` was synced because the policy wanted it.
    pub fn note_sync(&mut self, now: u64)
        ensures
            *final(self) == old(self).synced_at(now),
    {
        self.sync_count = self.sync_count.wrapping_add(1);
        if let ShareStateSyncPolicy::Interval(_) = self.sync_policy {
            self.last_sync = now;
        }
    }

    /// Notes that the log was synced at `now` whatever the policy.
    pub fn sync(&mut self, now: u64)
        ensures
            final(self).partitions == old(self).partitions,
            final(self).heartbeats == old(self).heartbeats,
            final(self).default_lock_timeout == old(self).default_lock_timeout,
            final(self).max_delivery_attempts == old(self).max_delivery_attempts,
            final(self).sync_policy == old(self).sync_policy,
            final(self).sync_count == old(self).sync_count.wrapping_add(1),
            final(self).last_sync == now,
    {
        self.sync_count = self.sync_count.wrapping_add(1);
        self.last_sync = now;
    }

    /// How often the log was synced.
    pub fn sync_count(&self) -> (r: u64)
        ensures
            r == self.sync_count,
    {
        self.sync_count
    }

    /// Whether a log of that many bytes is to be rewritten.
    pub fn compaction_due(log_len: u64) -> (r: bool)
        ensures
            r == (log_len > COMPACT_THRESHOLD_BYTES),
    {
        log_len > COMPACT_THRESHOLD_BYTES
    }
}

/// What comes of a write at `now`: a sync, if the policy wants one and it succeeds. `r` says
/// whether all that was wanted was done.
pub open spec fn written(
    before: ShareGroupManager,
    after: ShareGroupManager,
    now: u64,
    r: bool,
) -> bool {
    if before.wants_sync(now) {
        after == (if r {
            before.synced_at(now)
        } else {
            before
        })
    } else {
        r && after == before
    }
}

/// A write, and whether it was synced as the policy wanted.
pub struct WriteStep {
    pub before: ShareGroupManager,
    pub after: ShareGroupManager,
    pub now: u64,
    pub r: bool,
}

impl WriteStep {
    /// Whether the write was synced because the policy wanted it.
    pub open spec fn synced(self) -> bool {
        self.before.wants_sync(self.now) && self.r
    }
}

/// `steps` are writes one after the other, under a policy that syncs once in `interval`. Between
/// two writes anything may be done, and the log may be synced whatever the policy.
pub open spec fn wrote(steps: Seq<WriteStep>, interval: u64) -> bool {
    &&& forall|i: int| 0 <= i < steps.len() ==> #[trigger] in_turn(steps, i)
    &&& forall|i: int|
        0 <= i < steps.len() ==> (#[trigger] steps[i]).before.sync_policy
            == ShareStateSyncPolicy::Interval(interval)
}

/// The write was made as it should be, and the one after it came later.
pub open spec fn in_turn(steps: Seq<WriteStep>, i: int) -> bool {
    &&& written(steps[i].before, steps[i].after, steps[i].now, steps[i].r)
    &&& i + 1 < steps.len() ==> steps[i].now <= steps[i + 1].now && steps[i].after.last_sync
        <= steps[i + 1].before.last_sync
}

proof fn lemma_last_sync(steps: Seq<WriteStep>, interval: u64, i: int, j: int)
    requires
        wrote(steps, interval),
        0 <= i < j < steps.len(),
        steps[i].synced(),
    ensures
        steps[i].now <= steps[j].now,
        steps[i].now <= steps[j].before.last_sync,
    decreases j,
{
    assert(in_turn(steps, j - 1));
    let s = steps[j - 1];
    assert(s.before.sync_policy == ShareStateSyncPolicy::Interval(interval));
    if i < j - 1 {
        lemma_last_sync(steps, interval, i, j - 1);
    }
}

/// Of writes that come within less than the interval, the policy syncs one at most: two writes
/// that it syncs are at least the interval apart.
pub proof fn a_burst_is_synced_once(steps: Seq<WriteStep>, interval: u64, i: int, j: int)
    requires
        wrote(steps, interval),
        0 <= i < j < steps.len(),
        steps[i].synced(),
        steps[j].synced(),
    ensures
        steps[j].now - steps[i].now >= interval,
{
    lemma_last_sync(steps, interval, i, j);
    assert(steps[j].before.sync_policy == ShareStateSyncPolicy::Interval(interval));
}

/// Rewriting the log loses nothing: reading the rewritten one gives back what it was written
/// from, partition by partition.
pub proof fn compaction_keeps_everything(es: Seq<ShareEntry>)
    requires
        forall|i: int| 0 <= i < es.len() ==> storable(stored((#[trigger] es[i]).partition)),
    ensures
        entries_of(log_of(all_stored(es))) == all_stored(es),
        !is_corrupt(log_of(all_stored(es))),
{
    assert forall|i: int| 0 <= i < all_stored(es).len() implies storable(
        #[trigger] all_stored(es)[i],
    ) by {
        assert(storable(stored(es[i].partition)));
    }
    log_round_trip(all_stored(es));
}

/// A write that was appended and marked leaves nothing to write, until the partition changes.
pub proof fn nothing_left_to_write(e: ShareEntry, w: PendingWrite, marked: ShareEntry, again: Option<PendingWrite>)
    requires
        write_of(e, Some(w)),
        marked == (ShareEntry { persisted_version: w.version, partition: e.partition }),
        write_of(marked, again),
    ensures
        again is None,
{
}

/// Where the records go that nobody could process.
pub open spec fn dead_letters(topic: Seq<char>) -> Seq<char> {
    topic + "-dlq"@
}

/// The topic for records of `topic` that nobody could process.
pub fn dlq_topic(topic: &str) -> (r: String)
    ensures
        r@ == dead_letters(topic@),
{
    let mut s: String = owned(topic);
    s.append("-dlq");
    s
}

/// The time for which records are handed out, in nanoseconds, where a client asks for so many
/// milliseconds. Zero asks for the default.
pub fn requested_lock_timeout(millis: u32) -> (r: Option<u64>)
    ensures
        r == (if millis > 0 {
            Some((millis * 1_000_000) as u64)
        } else {
            None
        }),
        r matches Some(t) ==> t <= MAX_TIME,
{
    if millis > 0 {
        Some(millis as u64 * 1_000_000)
    } else {
        None
    }
}

/// How a request to describe a group is answered.
pub open spec fn group_described(
    shares: ShareGroupManager,
    group_id: Seq<char>,
    now: u64,
    r: (String, Vec<String>, u128, u64),
) -> bool {
    &&& r.0@ == (if r.1@.len() == 0 {
        "Empty"@
    } else {
        "Stable"@
    })
    &&& forall|m: Seq<char>|
        #![trigger pair_key(group_id, m)]
        (exists|i: int| 0 <= i < r.1@.len() && (#[trigger] r.1@[i])@ == m) <==> (
        shares.heartbeats@.contains_key(pair_key(group_id, m)) && now
            - shares.heartbeats@[pair_key(group_id, m)].at <= ACTIVE_WINDOW)
    &&& forall|i: int, j: int|
        0 <= i < j < r.1@.len() ==> (#[trigger] r.1@[i])@ != (#[trigger] r.1@[j])@
    &&& r.2 == inflight_of(shares.partitions.values(), group_id)
    &&& r.3 == (match lowest_start(shares.partitions.values(), group_id) {
        Some(o) => o,
        None => 0,
    })
}

impl ShareGroupManager {
    /// What a share group is described by: its state, its active members, how many records are
    /// in flight, and the lowest offset that is not done with.
    pub fn share_group_describe(&self, group_id: &str, now: u64) -> (r: (
        String,
        Vec<String>,
        u128,
        u64,
    ))
        requires
            self.wf(),
        ensures
            group_described(*self, group_id@, now, r),
    {
        let members: Vec<String> = self.list_active_members(group_id, now);
        let state: String = if members.len() == 0 {
            owned("Empty")
        } else {
            owned("Stable")
        };
        let (inflight, start): (u128, u64) = self.group_stats(group_id);
        (state, members, inflight, start)
    }
}

} // verus!
