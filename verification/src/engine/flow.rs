//! Appending a batch, step by step: what is to be done with files and peers next, and what comes
//! of it.
use crate::engine::produce::{
    batch_judged, batch_noted, committed_to, compacts, keys_checked, routed, Appending,
    ProduceBatchParams,
};
use crate::engine::state::{leads, Access, StorageEngine};
use crate::engine::commit::needed_isr;
use crate::engine::table::PartitionKey;
use crate::engine::txn::tx_registered;
use crate::partition::BatchHeader;
use crate::text::owned;
use vstd::prelude::*;
use vstd::string::*;

verus! {

/// Where the append of a batch stands.
pub enum ProducePhase {
    /// The batch has come in.
    Arrived,
    /// The log of its partition is being opened.
    Opening { partition: u32 },
    /// Its records are being read for their keys.
    Keys { partition: u32 },
    /// The log is appending it.
    Storing { partition: u32 },
    /// It is in the log, which is being synced.
    Syncing { partition: u32, first: u64, last: u64 },
    /// It is in the log, and the other replicas are taking it over.
    Replicating { partition: u32, first: u64, last: u64 },
    /// It was answered for.
    Over,
}

/// What came of the last action.
pub enum ProduceEvent {
    Begin,
    Opened,
    /// The records were read. Says of each whether it has a key.
    KeysRead { has_key: Vec<bool> },
    /// The records could not be read.
    Malformed { reason: String },
    /// The log appended the batch, and gave it its offsets.
    Stored { batch: BatchHeader },
    Synced,
    /// Every node in sync has the batch.
    Replicated,
    /// The action failed.
    Failed { reason: String },
}

/// What is to be done next. `note` holds what is to be recorded of the batch's transaction, if it
/// belongs to one: the record, or nothing if it cannot be written.
pub enum ProduceAction {
    Open { partition: u32 },
    ReadKeys { partition: u32 },
    Append { partition: u32 },
    Sync { partition: u32 },
    Await { partition: u32, last: u64, note: Option<Option<Vec<u8>>> },
    Answer { partition: u32, first: u64, last: u64, note: Option<Option<Vec<u8>>> },
    Refuse { reason: String },
}

/// Whether a write to a partition has to wait for the other replicas.
pub open spec fn awaited(e: StorageEngine, topic: Seq<char>, partition: u32) -> bool {
    leads(e@, e.config, e.role.is_leader, topic, partition) && e.config.peer_addrs@.len() > 0
        && needed_isr(e@, e.config, topic) > 1
}

/// Whether every batch of a partition is synced at once.
pub open spec fn synced_at_once(e: StorageEngine, topic: Seq<char>, partition: u32) -> bool {
    let policy = e@.partitions[(topic, partition)].flush_policy;
    policy is SyncEveryBatch || policy is UnbufferedSync
}

/// The batch is refused for that reason.
pub open spec fn refused(r: (ProducePhase, ProduceAction), reason: Seq<char>) -> bool {
    r.0 is Over && (r.1 matches ProduceAction::Refuse { reason: m } && m@ == reason)
}

/// The partition is committed up to the batch, and the batch is answered for.
pub open spec fn concluded(
    before: StorageEngine,
    after: StorageEngine,
    topic: Seq<char>,
    partition: u32,
    first: u64,
    last: u64,
    note: Option<Option<Vec<u8>>>,
    r: (ProducePhase, ProduceAction),
) -> bool {
    &&& after.same_node(before)
    &&& if last < u64::MAX {
        exists|moved: bool| #[trigger]
            committed_to(before, after, topic, partition, last, moved)
    } else {
        after == before
    }
    &&& r.0 is Over
    &&& r.1 == (ProduceAction::Answer { partition, first, last, note })
}

/// What comes after a batch is in the log and has been synced as it should: its transaction is
/// told of the partition, and the other replicas are awaited if that is called for.
pub open spec fn replicated(
    before: StorageEngine,
    after: StorageEngine,
    topic: Seq<char>,
    tx: Option<Seq<char>>,
    partition: u32,
    first: u64,
    last: u64,
    r: (ProducePhase, ProduceAction),
) -> bool {
    exists|mid: StorageEngine, note: Option<Option<Vec<u8>>>|
        {
            &&& #[trigger] told(before, mid, topic, tx, partition, first, note)
            &&& if awaited(mid, topic, partition) {
                &&& after == mid
                &&& r.0 == (ProducePhase::Replicating { partition, first, last })
                &&& r.1 == (ProduceAction::Await { partition, last, note })
            } else {
                concluded(mid, after, topic, partition, first, last, note, r)
            }
        }
}

/// What becomes of the transaction of a batch that is in the log.
pub open spec fn told(
    before: StorageEngine,
    after: StorageEngine,
    topic: Seq<char>,
    tx: Option<Seq<char>>,
    partition: u32,
    first: u64,
    note: Option<Option<Vec<u8>>>,
) -> bool {
    match tx {
        Some(k) => after.same_but_transactions(before) && tx_registered(
            before,
            after,
            k,
            topic,
            partition,
            first,
            note,
        ),
        None => after == before && note is None,
    }
}

/// What comes after a batch is in the log: it is synced if that is due, or if the partition syncs
/// every batch.
pub open spec fn stored(
    before: StorageEngine,
    after: StorageEngine,
    topic: Seq<char>,
    tx: Option<Seq<char>>,
    partition: u32,
    first: u64,
    last: u64,
    due: bool,
    r: (ProducePhase, ProduceAction),
) -> bool {
    if due || synced_at_once(before, topic, partition) {
        &&& after == before
        &&& r.0 == (ProducePhase::Syncing { partition, first, last })
        &&& r.1 == (ProduceAction::Sync { partition })
    } else {
        replicated(before, after, topic, tx, partition, first, last, r)
    }
}

/// What comes after a batch was found good: it is appended, unless it was appended before.
pub open spec fn accepted(
    before: StorageEngine,
    after: StorageEngine,
    topic: Seq<char>,
    tx: Option<Seq<char>>,
    partition: u32,
    batch: BatchHeader,
    r: (ProducePhase, ProduceAction),
) -> bool {
    exists|j: Result<Appending, String>| #[trigger]
        batch_judged(before, topic, partition, batch, j) && match j {
            Ok(Appending::Append) => {
                &&& after == before
                &&& r.0 == (ProducePhase::Storing { partition })
                &&& r.1 == (ProduceAction::Append { partition })
            },
            Ok(Appending::Duplicate { first_offset, last_offset }) => stored(
                before,
                after,
                topic,
                tx,
                partition,
                first_offset,
                last_offset,
                false,
                r,
            ),
            Err(m) => after == before && refused(r, m@),
        }
}

/// What comes after the partition of a batch is there: where records need keys, the batch is read
/// for them.
pub open spec fn readied(
    before: StorageEngine,
    after: StorageEngine,
    topic: Seq<char>,
    tx: Option<Seq<char>>,
    partition: u32,
    batch: BatchHeader,
    r: (ProducePhase, ProduceAction),
) -> bool {
    if compacts(before@.partitions[(topic, partition)].cleanup_policy) {
        &&& after == before
        &&& r.0 == (ProducePhase::Keys { partition })
        &&& r.1 == (ProduceAction::ReadKeys { partition })
    } else {
        accepted(before, after, topic, tx, partition, batch, r)
    }
}

/// Whether an event can come in a phase, and the partition in question is there.
pub open spec fn expected(
    e: StorageEngine,
    topic: Seq<char>,
    at: ProducePhase,
    event: ProduceEvent,
) -> bool {
    match event {
        ProduceEvent::Begin => at is Arrived,
        ProduceEvent::Opened => at matches ProducePhase::Opening { partition }
            && e@.partitions.contains_key((topic, partition)),
        ProduceEvent::KeysRead { .. } => at matches ProducePhase::Keys { partition }
            && e@.partitions.contains_key((topic, partition)),
        ProduceEvent::Malformed { .. } => at is Keys,
        ProduceEvent::Stored { batch } => batch.wf() && (at matches ProducePhase::Storing {
            partition,
        } && e@.partitions.contains_key((topic, partition))),
        ProduceEvent::Synced => at matches ProducePhase::Syncing { partition, .. }
            && e@.partitions.contains_key((topic, partition)),
        ProduceEvent::Replicated => at matches ProducePhase::Replicating { partition, .. }
            && e@.partitions.contains_key((topic, partition)),
        ProduceEvent::Failed { .. } => true,
    }
}

/// What comes of an event, and what becomes of the broker.
pub open spec fn stepped(
    before: StorageEngine,
    after: StorageEngine,
    params: ProduceBatchParams<'_>,
    at: ProducePhase,
    event: ProduceEvent,
    r: (ProducePhase, ProduceAction),
) -> bool {
    let topic = params.topic@;
    let tx = params.tx();
    match (at, event) {
        (ProducePhase::Arrived, ProduceEvent::Begin) => exists|
            route: Result<(u32, Access), String>,
        | #[trigger]
            routed(
                before,
                topic,
                params.key@,
                tx,
                params.num_partitions,
                params.batch,
                route,
            ) && match route {
                Ok((partition, Access::Open)) => {
                    &&& after == before
                    &&& r.0 == (ProducePhase::Opening { partition })
                    &&& r.1 == (ProduceAction::Open { partition })
                },
                Ok((partition, Access::Ready)) => readied(
                    before,
                    after,
                    topic,
                    tx,
                    partition,
                    params.batch,
                    r,
                ),
                Err(m) => after == before && refused(r, m@),
            },
        (ProducePhase::Opening { partition }, ProduceEvent::Opened) => readied(
            before,
            after,
            topic,
            tx,
            partition,
            params.batch,
            r,
        ),
        (ProducePhase::Keys { partition }, ProduceEvent::KeysRead { has_key }) => exists|
            checked: Result<(), String>,
        | #[trigger]
            keys_checked(before, topic, partition, has_key@, checked) && match checked {
                Ok(()) => accepted(before, after, topic, tx, partition, params.batch, r),
                Err(m) => after == before && refused(r, m@),
            },
        (ProducePhase::Keys { .. }, ProduceEvent::Malformed { reason }) => after == before
            && refused(r, "Malformed record batch: "@ + reason@),
        (ProducePhase::Storing { partition }, ProduceEvent::Stored { batch }) => exists|
            mid: StorageEngine,
            due: bool,
        |
            mid.same_node(before) && #[trigger] batch_noted(
                before,
                mid,
                topic,
                partition,
                batch,
                due,
            ) && stored(
                mid,
                after,
                topic,
                tx,
                partition,
                batch.base_offset,
                batch.last_offset() as u64,
                due,
                r,
            ),
        (ProducePhase::Syncing { partition, first, last }, ProduceEvent::Synced) => replicated(
            before,
            after,
            topic,
            tx,
            partition,
            first,
            last,
            r,
        ),
        (ProducePhase::Replicating { partition, first, last }, ProduceEvent::Replicated) =>
            concluded(before, after, topic, partition, first, last, None, r),
        (_, ProduceEvent::Failed { reason }) => after == before && refused(r, reason@),
        _ => false,
    }
}

fn refuse(reason: String) -> (r: (ProducePhase, ProduceAction))
    ensures
        refused(r, reason@),
{
    (ProducePhase::Over, ProduceAction::Refuse { reason })
}

impl StorageEngine {
    fn conclude_batch(
        &mut self,
        topic: &str,
        partition: u32,
        first: u64,
        last: u64,
        note: Option<Option<Vec<u8>>>,
    ) -> (r: (ProducePhase, ProduceAction))
        requires
            old(self).wf(),
            old(self)@.partitions.contains_key((topic@, partition)),
        ensures
            final(self).wf(),
            concluded(*old(self), *final(self), topic@, partition, first, last, note, r),
    {
        if last < u64::MAX {
            let _ = self.commit_produced(topic, partition, last);
        }
        (ProducePhase::Over, ProduceAction::Answer { partition, first, last, note })
    }

    fn replicate_batch(
        &mut self,
        topic: &str,
        tx: Option<&str>,
        partition: u32,
        first: u64,
        last: u64,
    ) -> (r: (ProducePhase, ProduceAction))
        requires
            old(self).wf(),
            old(self)@.partitions.contains_key((topic@, partition)),
        ensures
            final(self).wf(),
            replicated(
                *old(self),
                *final(self),
                topic@,
                match tx {
                    Some(k) => Some(k@),
                    None => None,
                },
                partition,
                first,
                last,
                r,
            ),
    {
        let note: Option<Option<Vec<u8>>> = match tx {
            Some(k) => self.register_tx_partition(k, topic, partition, first),
            None => None,
        };
        assert(told(
            *old(self),
            *self,
            topic@,
            match tx {
                Some(k) => Some(k@),
                None => None,
            },
            partition,
            first,
            note,
        ));
        if self.must_await_replicas(topic, partition) {
            (
                ProducePhase::Replicating { partition, first, last },
                ProduceAction::Await { partition, last, note },
            )
        } else {
            self.conclude_batch(topic, partition, first, last, note)
        }
    }

    fn store_batch(
        &mut self,
        topic: &str,
        tx: Option<&str>,
        partition: u32,
        first: u64,
        last: u64,
        due: bool,
    ) -> (r: (ProducePhase, ProduceAction))
        requires
            old(self).wf(),
            old(self)@.partitions.contains_key((topic@, partition)),
        ensures
            final(self).wf(),
            stored(
                *old(self),
                *final(self),
                topic@,
                match tx {
                    Some(k) => Some(k@),
                    None => None,
                },
                partition,
                first,
                last,
                due,
                r,
            ),
    {
        let at_once: bool = match self.partitions.get(topic, partition) {
            Some(p) => p.flush_if_sync_policy(),
            None => false,
        };
        if due || at_once {
            (ProducePhase::Syncing { partition, first, last }, ProduceAction::Sync { partition })
        } else {
            self.replicate_batch(topic, tx, partition, first, last)
        }
    }

    fn accept_batch(
        &mut self,
        topic: &str,
        tx: Option<&str>,
        partition: u32,
        batch: &BatchHeader,
    ) -> (r: (ProducePhase, ProduceAction))
        requires
            old(self).wf(),
            old(self)@.partitions.contains_key((topic@, partition)),
        ensures
            final(self).wf(),
            accepted(
                *old(self),
                *final(self),
                topic@,
                match tx {
                    Some(k) => Some(k@),
                    None => None,
                },
                partition,
                *batch,
                r,
            ),
    {
        match self.produce_batch(topic, partition, batch) {
            Ok(Appending::Append) => (
                ProducePhase::Storing { partition },
                ProduceAction::Append { partition },
            ),
            Ok(Appending::Duplicate { first_offset, last_offset }) => self.store_batch(
                topic,
                tx,
                partition,
                first_offset,
                last_offset,
                false,
            ),
            Err(e) => refuse(e),
        }
    }

    fn ready_batch(
        &mut self,
        topic: &str,
        tx: Option<&str>,
        partition: u32,
        batch: &BatchHeader,
    ) -> (r: (ProducePhase, ProduceAction))
        requires
            old(self).wf(),
            old(self)@.partitions.contains_key((topic@, partition)),
        ensures
            final(self).wf(),
            readied(
                *old(self),
                *final(self),
                topic@,
                match tx {
                    Some(k) => Some(k@),
                    None => None,
                },
                partition,
                *batch,
                r,
            ),
    {
        if self.needs_keys(topic, partition) {
            (ProducePhase::Keys { partition }, ProduceAction::ReadKeys { partition })
        } else {
            self.accept_batch(topic, tx, partition, batch)
        }
    }

    /// Takes the append of a batch one step further: `event` is what came of the last action.
    pub fn produce_step(
        &mut self,
        params: &ProduceBatchParams<'_>,
        at: ProducePhase,
        event: ProduceEvent,
    ) -> (r: (ProducePhase, ProduceAction))
        requires
            old(self).wf(),
            expected(*old(self), params.topic@, at, event),
        ensures
            final(self).wf(),
            stepped(*old(self), *final(self), *params, at, event, r),
    {
        let topic: &str = params.topic;
        let tx: Option<&str> = params.transaction_id;
        match (at, event) {
            (ProducePhase::Arrived, ProduceEvent::Begin) => match self.route_batch(params) {
                Ok((partition, Access::Open)) => (
                    ProducePhase::Opening { partition },
                    ProduceAction::Open { partition },
                ),
                Ok((partition, Access::Ready)) => self.ready_batch(
                    topic,
                    tx,
                    partition,
                    &params.batch,
                ),
                Err(e) => refuse(e),
            },
            (ProducePhase::Opening { partition }, ProduceEvent::Opened) => self.ready_batch(
                topic,
                tx,
                partition,
                &params.batch,
            ),
            (ProducePhase::Keys { partition }, ProduceEvent::KeysRead { has_key }) => {
                match self.check_keys(topic, partition, has_key.as_slice()) {
                    Ok(()) => self.accept_batch(topic, tx, partition, &params.batch),
                    Err(e) => refuse(e),
                }
            },
            (ProducePhase::Keys { .. }, ProduceEvent::Malformed { reason }) => {
                let mut message: String = owned("Malformed record batch: ");
                message.append(reason.as_str());
                refuse(message)
            },
            (ProducePhase::Storing { partition }, ProduceEvent::Stored { batch }) => {
                let due: bool = self.batch_appended(topic, partition, &batch);
                self.store_batch(
                    topic,
                    tx,
                    partition,
                    batch.base_offset,
                    batch.base_offset + batch.last_offset_delta as u64,
                    due,
                )
            },
            (ProducePhase::Syncing { partition, first, last }, ProduceEvent::Synced) => {
                self.replicate_batch(topic, tx, partition, first, last)
            },
            (ProducePhase::Replicating { partition, first, last }, ProduceEvent::Replicated) => {
                self.conclude_batch(topic, partition, first, last, None)
            },
            (_, ProduceEvent::Failed { reason }) => refuse(reason),
            (_, _) => refuse(owned("out of turn")),
        }
    }
}

/// A batch that is answered for is committed.
pub proof fn what_is_answered_is_committed(
    before: StorageEngine,
    after: StorageEngine,
    params: ProduceBatchParams<'_>,
    at: ProducePhase,
    event: ProduceEvent,
    r: (ProducePhase, ProduceAction),
)
    requires
        stepped(before, after, params, at, event, r),
    ensures
        r.1 matches ProduceAction::Answer { partition, last, .. } ==> last == u64::MAX || last
            < after@.partitions[(params.topic@, partition)].committed_hw,
{
}

/// Until a batch is answered for, nothing is committed: readers see none of it.
pub proof fn nothing_is_committed_before_the_answer(
    before: StorageEngine,
    after: StorageEngine,
    params: ProduceBatchParams<'_>,
    at: ProducePhase,
    event: ProduceEvent,
    r: (ProducePhase, ProduceAction),
    key: PartitionKey,
)
    requires
        stepped(before, after, params, at, event, r),
        !(r.1 is Answer),
        before@.partitions.contains_key(key),
        event is Stored ==> before@.partitions.contains_key(
            (params.topic@, at->Storing_partition),
        ),
    ensures
        after@.partitions.contains_key(key),
        after@.partitions[key].committed_hw == before@.partitions[key].committed_hw,
{
}

/// Where the other replicas are to be awaited, a batch is answered for only once every node in
/// sync has it.
pub proof fn nothing_is_answered_before_it_is_replicated(
    before: StorageEngine,
    after: StorageEngine,
    params: ProduceBatchParams<'_>,
    at: ProducePhase,
    event: ProduceEvent,
    r: (ProducePhase, ProduceAction),
)
    requires
        stepped(before, after, params, at, event, r),
        r.1 matches ProduceAction::Answer { partition, .. } && awaited(
            after,
            params.topic@,
            partition,
        ) && before@.partitions.contains_key((params.topic@, partition)),
    ensures
        event is Replicated,
{
}

/// A step that refuses a batch changes nothing of the broker.
pub proof fn a_refusal_changes_nothing(
    before: StorageEngine,
    after: StorageEngine,
    params: ProduceBatchParams<'_>,
    at: ProducePhase,
    event: ProduceEvent,
    r: (ProducePhase, ProduceAction),
)
    requires
        stepped(before, after, params, at, event, r),
        r.1 is Refuse,
    ensures
        after == before,
        r.0 is Over,
{
}

} // verus!
