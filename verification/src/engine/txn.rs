//! The course of a transaction.
//!
//! A transaction ends in steps. It is prepared, a marker goes to each of its partitions, its end
//! is recorded, and only then is it forgotten. The writing is done in between by the caller.
use crate::assoc::AssocMap;
use crate::engine::metadata::{MetadataRecord, RecordView};
use crate::engine::produce::producer_fault;
use crate::engine::state::{EngineView, StorageEngine};
use crate::text::{owned, same_text};
use crate::transaction::manager::{
    begun_tx, can_abort, undecided, TransactionManager, TransactionalProducerState, TxStatus, TxView,
};
use crate::transaction::ranges::{
    added_topics, copy_ranges, ended_all, is_of, range_view, range_views, registered,
    PartitionRangeList, RangeView,
};
use crate::transaction::record::{
    decode_tx_state_record, record_bytes, record_of, state_record, writable, TxRecord,
};
use vstd::prelude::*;
use vstd::string::*;

verus! {

/// A transaction that is about to end.
pub struct TxnEnding {
    pub producer_id: u64,
    pub partitions: PartitionRangeList,
}

/// What comes next in initialising a producer.
pub enum InitStep {
    /// It is done.
    Done { producer_id: u64, producer_epoch: i16 },
    /// The transaction that is under way has to be aborted first.
    AbortFirst,
    /// This record has to be written.
    Register { producer_id: u64, producer_epoch: i16, record: MetadataRecord },
}

/// The bytes that record where a transaction stands, or none if they cannot be written.
pub open spec fn recorded(
    status: TxStatus,
    producer_id: u64,
    id: Seq<char>,
    partitions: Seq<RangeView>,
    bytes: Option<Vec<u8>>,
) -> bool {
    let rec = TxRecord { status, producer_id, id, partitions };
    match bytes {
        Some(b) => writable(rec) && b@ == record_bytes(rec),
        None => !writable(rec),
    }
}

/// How a request to begin a transaction is answered.
pub open spec fn begun_by(
    before: StorageEngine,
    after: StorageEngine,
    k: Seq<char>,
    producer_id: u64,
    now_ms: u64,
    r: Result<Option<Vec<u8>>, String>,
) -> bool {
    let txs = before.transactions.txs();
    if txs.contains_key(k) {
        &&& r matches Err(e) && e@ == "Transaction ID '"@ + k + "' already exists"@
        &&& after.transactions.txs() == txs
    } else {
        let tx = begun_tx(k, producer_id, now_ms);
        &&& r matches Ok(bytes) && recorded(
            TxStatus::Ongoing,
            producer_id,
            k,
            tx.partitions,
            bytes,
        )
        &&& after.transactions.txs() == txs.insert(k, tx)
    }
}

/// How a request to add partitions to a transaction is answered.
pub open spec fn joined_by(
    before: StorageEngine,
    after: StorageEngine,
    k: Seq<char>,
    producer_id: u64,
    producer_epoch: i16,
    topics: Seq<(String, Vec<u32>)>,
    now_ms: u64,
    r: Result<Option<Vec<u8>>, String>,
) -> bool {
    let txs = before.transactions.txs();
    let ps = before.transactions.producers();
    let fault = producer_fault(ps, k, producer_id, producer_epoch);
    let tx = if txs.contains_key(k) {
        txs[k]
    } else {
        begun_tx(k, producer_id, now_ms)
    };
    let parts = added_topics(tx.partitions, topics);
    if ps.contains_key(k) && fault is Some {
        &&& r matches Err(e) && fault == Some(e@)
        &&& after.transactions.txs() == txs
    } else if tx.producer_id != producer_id {
        &&& r matches Err(e) && e@ == "Producer ID mismatch"@
        &&& after.transactions.txs() == txs
    } else {
        &&& r matches Ok(bytes) && recorded(
            TxStatus::Ongoing,
            producer_id,
            k,
            parts,
            bytes,
        )
        &&& after.transactions.txs() == txs.insert(
            k,
            TxView { partitions: parts, ..tx },
        )
    }
}

/// How a request for a producer id is answered.
pub open spec fn begun_producing(
    before: StorageEngine,
    after: StorageEngine,
    k: Seq<char>,
    r: Result<InitStep, String>,
) -> bool {
    let v = before@;
    let ps = v.producers;
    let txs = before.transactions.txs();
    let next = v.next_producer_id.wrapping_add(1);
    if k.len() == 0 {
        &&& r matches Ok(InitStep::Done { producer_id, producer_epoch }) && producer_id
            == v.next_producer_id && producer_epoch == 0
        &&& after@ == (EngineView { next_producer_id: next, ..v })
    } else if txs.contains_key(k) && undecided(txs[k].status) {
        r matches Ok(InitStep::AbortFirst) && after@ == v
    } else if ps.contains_key(k) && ps[k].producer_epoch == i16::MAX {
        &&& r matches Err(e) && e@ == "Producer epoch exhausted for transactional.id '"@
            + k + "'"@
        &&& after@ == v
    } else {
        let own = if ps.contains_key(k) {
            ps[k].producer_id
        } else {
            v.next_producer_id
        };
        let epoch = if ps.contains_key(k) {
            (ps[k].producer_epoch + 1) as i16
        } else {
            0i16
        };
        &&& r matches Ok(InitStep::Register { producer_id, producer_epoch, record })
            && producer_id == own && producer_epoch == epoch && record@
            == (RecordView::TransactionalProducerRegistration {
            transactional_id: k,
            producer_id: own,
            producer_epoch: epoch,
        })
        &&& after@ == (EngineView {
            producers: ps.insert(
                k,
                TransactionalProducerState { producer_id: own, producer_epoch: epoch },
            ),
            next_producer_id: if ps.contains_key(k) {
                v.next_producer_id
            } else {
                next
            },
            ..v
        })
    }
}

/// A range with its end set to where the marker of its partition stands: the first that is
/// listed.
pub open spec fn resolved(r: RangeView, ends: Seq<(String, u32, u64)>) -> RangeView
    decreases ends.len(),
{
    if ends.len() == 0 {
        r
    } else if is_of(r, ends[0].0@, ends[0].1) {
        RangeView { end: ends[0].2, ..r }
    } else {
        resolved(r, ends.skip(1))
    }
}

/// All ranges with their ends set.
pub open spec fn resolved_all(rs: Seq<RangeView>, ends: Seq<(String, u32, u64)>) -> Seq<RangeView> {
    rs.map_values(|r: RangeView| resolved(r, ends))
}

fn resolve_end(
    topic: &str,
    partition: u32,
    start: u64,
    end: u64,
    ends: &[(String, u32, u64)],
) -> (r: u64)
    ensures
        resolved((RangeView { topic: topic@, partition, start, end }), ends@) == (RangeView {
            topic: topic@,
            partition,
            start,
            end: r,
        }),
{
    let ghost range = RangeView { topic: topic@, partition, start, end };
    let mut i: usize = 0;
    assert(ends@.skip(0) =~= ends@);
    while i < ends.len()
        invariant
            i <= ends.len(),
            range == (RangeView { topic: topic@, partition, start, end }),
            resolved(range, ends@) == resolved(range, ends@.skip(i as int)),
        decreases ends.len() - i,
    {
        let ghost rest = ends@.skip(i as int);
        proof {
            assert(rest[0] == ends@[i as int]);
            assert(rest.skip(1) =~= ends@.skip(i + 1));
        }
        if same_text(ends[i].0.as_str(), topic) && ends[i].1 == partition {
            return ends[i].2;
        }
        i = i + 1;
    }
    end
}

fn resolve_ends(rs: &PartitionRangeList, ends: &[(String, u32, u64)]) -> (r: PartitionRangeList)
    ensures
        range_views(r@) == resolved_all(range_views(rs@), ends@),
{
    let mut out: PartitionRangeList = Vec::new();
    let ghost all = resolved_all(range_views(rs@), ends@);
    let mut i: usize = 0;
    assert(range_views(out@) =~= all.take(0));
    while i < rs.len()
        invariant
            i <= rs.len(),
            all == resolved_all(range_views(rs@), ends@),
            range_views(out@) == all.take(i as int),
        decreases rs.len() - i,
    {
        let x: &(String, u32, u64, u64) = &rs[i];
        let end: u64 = resolve_end(x.0.as_str(), x.1, x.2, x.3, ends);
        let ghost before = range_views(out@);
        let item: (String, u32, u64, u64) = (owned(x.0.as_str()), x.1, x.2, end);
        out.push(item);
        proof {
            assert(all[i as int] == range_view(item));
            assert(range_views(out@) =~= before.push(range_view(item)));
            assert(all.take(i + 1) =~= all.take(i as int).push(all[i as int]));
        }
        i = i + 1;
    }
    assert(all.take(i as int) =~= all);
    out
}

/// The last record of a transaction in a log.
pub open spec fn last_record(values: Seq<Seq<u8>>, id: Seq<char>) -> Option<TxRecord>
    decreases values.len(),
{
    if values.len() == 0 {
        None
    } else if record_of(values.last()) is Some && (record_of(values.last())->0).id == id {
        record_of(values.last())
    } else {
        last_record(values.drop_last(), id)
    }
}

/// Byte strings, as values.
pub open spec fn value_views(s: Seq<Vec<u8>>) -> Seq<Seq<u8>> {
    s.map_values(|v: Vec<u8>| v@)
}

/// A transaction that a log shows to be under way.
pub open spec fn taken_up(r: TxRecord, now_ms: u64) -> TxView {
    TxView {
        id: r.id,
        producer_id: r.producer_id,
        status: r.status,
        partitions: r.partitions,
        created_at_ms: now_ms,
    }
}

/// A transaction, if there is one under the id.
pub open spec fn tx_at(txs: Map<Seq<char>, TxView>, k: Seq<char>) -> Option<TxView> {
    if txs.contains_key(k) {
        Some(txs[k])
    } else {
        None
    }
}

/// A recorded transaction.
pub struct LatestState {
    pub status: TxStatus,
    pub producer_id: u64,
    pub partitions: PartitionRangeList,
}

impl LatestState {
    pub open spec fn rec(self, id: Seq<char>) -> TxRecord {
        TxRecord {
            status: self.status,
            producer_id: self.producer_id,
            id,
            partitions: range_views(self.partitions@),
        }
    }
}

fn latest_states(values: &[Vec<u8>]) -> (r: AssocMap<LatestState>)
    ensures
        forall|k: Seq<char>| #[trigger]
            r@.contains_key(k) <==> last_record(value_views(values@), k) is Some,
        forall|k: Seq<char>| #[trigger]
            r@.contains_key(k) ==> last_record(value_views(values@), k) == Some(r@[k].rec(k)),
{
    let mut out: AssocMap<LatestState> = AssocMap::new();
    let ghost all = value_views(values@);
    let mut i: usize = 0;
    while i < values.len()
        invariant
            i <= values.len(),
            all == value_views(values@),
            forall|k: Seq<char>| #[trigger]
                out@.contains_key(k) <==> last_record(all.take(i as int), k) is Some,
            forall|k: Seq<char>| #[trigger]
                out@.contains_key(k) ==> last_record(all.take(i as int), k) == Some(
                    out@[k].rec(k),
                ),
        decreases values.len() - i,
    {
        proof {
            let next = all.take(i + 1);
            assert(next.drop_last() =~= all.take(i as int));
            assert(next.last() == values@[i as int]@);
        }
        match decode_tx_state_record(values[i].as_slice()) {
            Some((status, producer_id, id, partitions)) => {
                let ghost before = out@;
                let ghost rec = TxRecord {
                    status,
                    producer_id,
                    id: id@,
                    partitions: range_views(partitions@),
                };
                let state = LatestState { status, producer_id, partitions };
                out.insert(id, state);
                proof {
                    assert(record_of(all.take(i + 1).last()) == Some(rec));
                    assert(state.rec(id@) == rec);
                }
            },
            None => {},
        }
        i = i + 1;
    }
    assert(all.take(i as int) =~= all);
    out
}

/// What becomes of a transaction that writes to a partition.
pub open spec fn tx_registered(
    before: StorageEngine,
    after: StorageEngine,
    k: Seq<char>,
    topic: Seq<char>,
    partition: u32,
    start_offset: u64,
    r: Option<Option<Vec<u8>>>,
) -> bool {
    let txs = before.transactions.txs();
    if !txs.contains_key(k) {
        r is None && after.transactions.txs() == txs
    } else {
        let parts = registered(txs[k].partitions, topic, partition, start_offset);
        &&& r matches Some(bytes) && recorded(
            TxStatus::Ongoing,
            txs[k].producer_id,
            k,
            parts,
            bytes,
        )
        &&& after.transactions.txs() == txs.insert(
            k,
            TxView { partitions: parts, ..txs[k] },
        )
    }
}

/// How a request to commit a transaction begins.
pub open spec fn commit_begun(
    before: StorageEngine,
    after: StorageEngine,
    k: Seq<char>,
    r: Result<(TxnEnding, Option<Vec<u8>>), String>,
) -> bool {
    let txs = before.transactions.txs();
    if !txs.contains_key(k) {
        &&& r matches Err(e) && e@ == "Transaction '"@ + k + "' not found"@
        &&& after.transactions.txs() == txs
    } else if !(txs[k].status is Ongoing) {
        &&& r matches Err(e) && e@ == "Transaction '"@ + k + "' is not active"@
        &&& after.transactions.txs() == txs
    } else {
        &&& r matches Ok((ending, bytes)) && ending.producer_id == txs[k].producer_id
            && range_views(ending.partitions@) == txs[k].partitions && recorded(
            TxStatus::PrepareCommit,
            txs[k].producer_id,
            k,
            txs[k].partitions,
            bytes,
        )
        &&& after.transactions.txs() == txs.insert(
            k,
            TxView { status: TxStatus::PrepareCommit, ..txs[k] },
        )
    }
}

/// How a transaction is forgotten whose commit is durable.
pub open spec fn commit_finished(
    before: StorageEngine,
    after: StorageEngine,
    k: Seq<char>,
    r: Result<(), String>,
) -> bool {
    let txs = before.transactions.txs();
    if txs.contains_key(k) {
        r is Ok && after.transactions.txs() == txs.remove(k)
    } else {
        (r matches Err(e) && e@ == "Transaction '"@ + k + "' not found"@) && after.transactions.txs() == txs
    }
}

/// How a request to abort a transaction begins.
pub open spec fn abort_begun(
    before: StorageEngine,
    after: StorageEngine,
    k: Seq<char>,
    r: Result<(TxnEnding, Option<Vec<u8>>), String>,
) -> bool {
    let txs = before.transactions.txs();
    if !txs.contains_key(k) {
        &&& r matches Err(e) && e@ == "Transaction '"@ + k + "' not found"@
        &&& after.transactions.txs() == txs
    } else if !can_abort(txs[k].status) {
        &&& r matches Err(e) && e@ == "Transaction '"@ + k + "' cannot be aborted"@
        &&& after.transactions.txs() == txs
    } else {
        &&& r matches Ok((ending, bytes)) && ending.producer_id == txs[k].producer_id
            && range_views(ending.partitions@) == txs[k].partitions && recorded(
            TxStatus::PrepareAbort,
            txs[k].producer_id,
            k,
            txs[k].partitions,
            bytes,
        )
        &&& after.transactions.txs() == txs.insert(
            k,
            TxView { status: TxStatus::PrepareAbort, ..txs[k] },
        )
    }
}

/// How a transaction is forgotten whose abort markers are written.
pub open spec fn abort_finished(
    before: StorageEngine,
    after: StorageEngine,
    k: Seq<char>,
    producer_id: u64,
    end_offsets: Seq<(String, u32, u64)>,
    r: Result<Option<Vec<u8>>, String>,
) -> bool {
    let txs = before.transactions.txs();
    if txs.contains_key(k) {
        &&& r matches Ok(bytes) && recorded(
            TxStatus::Aborted,
            producer_id,
            k,
            ended_all(txs[k].partitions, end_offsets),
            bytes,
        )
        &&& after.transactions.txs() == txs.remove(k)
    } else {
        (r matches Err(e) && e@ == "Transaction '"@ + k + "' not found"@) && after.transactions.txs() == txs
    }
}

impl StorageEngine {
    /// What a step of a transaction leaves alone.
    pub open spec fn same_but_transactions(self, other: Self) -> bool {
        self == (StorageEngine {
            transactions: TransactionManager {
                transactions: self.transactions.transactions,
                ..other.transactions
            },
            ..other
        })
    }

    /// What a producer's request for an id leaves alone.
    pub open spec fn same_but_producers(self, other: Self) -> bool {
        self == (StorageEngine {
            transactions: TransactionManager {
                transactional_producers: self.transactions.transactional_producers,
                next_producer_id: self.transactions.next_producer_id,
                ..other.transactions
            },
            ..other
        })
    }

    /// Begins a transaction. The result holds what is to be recorded.
    pub fn begin_transaction(&mut self, transaction_id: &str, producer_id: u64, now_ms: u64) -> (r:
        Result<Option<Vec<u8>>, String>)
        requires
            old(self).wf(),
        ensures
            final(self).wf(),
            final(self).same_but_transactions(*old(self)),
            begun_by(*old(self), *final(self), transaction_id@, producer_id, now_ms, r),
    {
        match self.transactions.begin_transaction(transaction_id, producer_id, now_ms) {
            Ok(()) => {
                let parts: PartitionRangeList = self.transactions.get_partitions(transaction_id);
                Ok(state_record(TxStatus::Ongoing, producer_id, transaction_id, &parts))
            },
            Err(e) => Err(e),
        }
    }

    /// Lets partitions join a transaction. The result holds what is to be recorded.
    pub fn add_partitions_to_txn(
        &mut self,
        transaction_id: &str,
        producer_id: u64,
        producer_epoch: i16,
        topics: &[(String, Vec<u32>)],
        now_ms: u64,
    ) -> (r: Result<Option<Vec<u8>>, String>)
        requires
            old(self).wf(),
        ensures
            final(self).wf(),
            final(self).same_but_transactions(*old(self)),
            joined_by(*old(self), *final(self), transaction_id@, producer_id, producer_epoch, topics@, now_ms, r),
    {
        if self.transactions.has_transactional_producer(transaction_id) {
            match self.transactions.validate_transactional_producer(
                transaction_id,
                producer_id,
                producer_epoch,
            ) {
                Ok(()) => {},
                Err(e) => {
                    return Err(e);
                },
            }
        }
        match self.transactions.add_partitions_to_txn(
            transaction_id,
            producer_id,
            topics,
            now_ms,
        ) {
            Ok(()) => {
                let parts: PartitionRangeList = self.transactions.get_partitions(transaction_id);
                Ok(state_record(TxStatus::Ongoing, producer_id, transaction_id, &parts))
            },
            Err(e) => Err(e),
        }
    }

    /// Notes where a transaction first wrote to a partition. The result holds what is to be
    /// recorded, if the transaction is known.
    pub fn register_tx_partition(
        &mut self,
        transaction_id: &str,
        topic: &str,
        partition: u32,
        start_offset: u64,
    ) -> (r: Option<Option<Vec<u8>>>)
        requires
            old(self).wf(),
        ensures
            final(self).wf(),
            final(self).same_but_transactions(*old(self)),
            tx_registered(*old(self), *final(self), transaction_id@, topic@, partition, start_offset, r),
    {
        match self.transactions.register_partition(transaction_id, topic, partition, start_offset) {
            Some((producer_id, parts)) => Some(
                state_record(TxStatus::Ongoing, producer_id, transaction_id, &parts),
            ),
            None => None,
        }
    }

    /// Gives a producer its id and epoch. Without a transactional id it gets a new id. With
    /// one, a transaction that is under way has to be aborted first; then the producer keeps
    /// its id, and its epoch goes up, which fences off whoever had it before.
    pub fn init_producer_id(&mut self, transactional_id: &str) -> (r: Result<InitStep, String>)
        requires
            old(self).wf(),
        ensures
            final(self).wf(),
            final(self).same_but_producers(*old(self)),
            begun_producing(*old(self), *final(self), transactional_id@, r),
    {
        if transactional_id.is_empty() {
            let producer_id: u64 = self.transactions.generate_producer_id();
            return Ok(InitStep::Done { producer_id, producer_epoch: 0 });
        }
        if self.transactions.is_undecided(transactional_id) {
            return Ok(InitStep::AbortFirst);
        }
        match self.transactions.init_transactional_producer(transactional_id) {
            Ok((producer_id, producer_epoch)) => {
                let record = MetadataRecord::TransactionalProducerRegistration {
                    transactional_id: owned(transactional_id),
                    producer_id,
                    producer_epoch,
                };
                Ok(InitStep::Register { producer_id, producer_epoch, record })
            },
            Err(e) => Err(e),
        }
    }

    /// Whether a producer may end a transaction.
    pub fn end_transaction(&self, transactional_id: &str, producer_id: u64, producer_epoch: i16) -> (r:
        Result<(), String>)
        requires
            self.wf(),
        ensures
            match r {
                Ok(()) => producer_fault(
                    self@.producers,
                    transactional_id@,
                    producer_id,
                    producer_epoch,
                ) is None,
                Err(e) => producer_fault(
                    self@.producers,
                    transactional_id@,
                    producer_id,
                    producer_epoch,
                ) == Some(e@),
            },
    {
        self.transactions.validate_transactional_producer(
            transactional_id,
            producer_id,
            producer_epoch,
        )
    }

    /// Prepares a commit. The result says which partitions get a marker, and holds what is to
    /// be recorded first.
    pub fn begin_commit(&mut self, transaction_id: &str) -> (r: Result<
        (TxnEnding, Option<Vec<u8>>),
        String,
    >)
        requires
            old(self).wf(),
        ensures
            final(self).wf(),
            final(self).same_but_transactions(*old(self)),
            commit_begun(*old(self), *final(self), transaction_id@, r),
    {
        match self.transactions.prepare_commit(transaction_id) {
            Ok((producer_id, partitions)) => {
                let bytes = state_record(
                    TxStatus::PrepareCommit,
                    producer_id,
                    transaction_id,
                    &partitions,
                );
                Ok((TxnEnding { producer_id, partitions }, bytes))
            },
            Err(e) => Err(e),
        }
    }

    /// What makes a commit durable, once all markers are written. `end_offsets` says where they
    /// stand.
    pub fn commit_record(
        transaction_id: &str,
        ending: &TxnEnding,
        end_offsets: &[(String, u32, u64)],
    ) -> (r: Option<Vec<u8>>)
        ensures
            recorded(
                TxStatus::Committed,
                ending.producer_id,
                transaction_id@,
                resolved_all(range_views(ending.partitions@), end_offsets@),
                r,
            ),
    {
        let partitions: PartitionRangeList = resolve_ends(&ending.partitions, end_offsets);
        state_record(TxStatus::Committed, ending.producer_id, transaction_id, &partitions)
    }

    /// Forgets a transaction whose commit is durable.
    pub fn finish_commit(&mut self, transaction_id: &str) -> (r: Result<(), String>)
        requires
            old(self).wf(),
        ensures
            final(self).wf(),
            final(self).same_but_transactions(*old(self)),
            commit_finished(*old(self), *final(self), transaction_id@, r),
    {
        match self.transactions.complete_commit(transaction_id) {
            Ok(()) => {
                self.transactions.cleanup_completed_transaction(transaction_id);
                assert(self.transactions.txs() =~= old(self).transactions.txs().remove(
                    transaction_id@,
                ));
                Ok(())
            },
            Err(e) => Err(e),
        }
    }

    /// Prepares an abort.
    pub fn begin_abort(&mut self, transaction_id: &str) -> (r: Result<
        (TxnEnding, Option<Vec<u8>>),
        String,
    >)
        requires
            old(self).wf(),
        ensures
            final(self).wf(),
            final(self).same_but_transactions(*old(self)),
            abort_begun(*old(self), *final(self), transaction_id@, r),
    {
        match self.transactions.prepare_abort(transaction_id) {
            Ok((producer_id, partitions)) => {
                let bytes = state_record(
                    TxStatus::PrepareAbort,
                    producer_id,
                    transaction_id,
                    &partitions,
                );
                Ok((TxnEnding { producer_id, partitions }, bytes))
            },
            Err(e) => Err(e),
        }
    }

    /// Forgets a transaction whose abort markers are written. The result holds what is to be
    /// recorded.
    pub fn finish_abort(
        &mut self,
        transaction_id: &str,
        producer_id: u64,
        end_offsets: &[(String, u32, u64)],
    ) -> (r: Result<Option<Vec<u8>>, String>)
        requires
            old(self).wf(),
        ensures
            final(self).wf(),
            final(self).same_but_transactions(*old(self)),
            abort_finished(*old(self), *final(self), transaction_id@, producer_id, end_offsets@, r),
    {
        match self.transactions.complete_abort(transaction_id, end_offsets) {
            Ok(()) => {
                let parts: PartitionRangeList = self.transactions.get_partitions(transaction_id);
                let bytes = state_record(TxStatus::Aborted, producer_id, transaction_id, &parts);
                self.transactions.cleanup_completed_transaction(transaction_id);
                assert(self.transactions.txs() =~= old(self).transactions.txs().remove(
                    transaction_id@,
                ));
                Ok(bytes)
            },
            Err(e) => Err(e),
        }
    }

    /// Takes up the transactions that a log shows to be under way: those whose last record says
    /// so. Their age counts from now.
    pub fn replay_transaction_state(&mut self, values: &[Vec<u8>], now_ms: u64)
        requires
            old(self).wf(),
        ensures
            final(self).wf(),
            final(self).same_but_transactions(*old(self)),
            forall|k: Seq<char>| #[trigger]
                tx_at(final(self).transactions.txs(), k) == (match last_record(
                    value_views(values@),
                    k,
                ) {
                    Some(r) if undecided(r.status) => Some(taken_up(r, now_ms)),
                    _ => tx_at(old(self).transactions.txs(), k),
                }),
    {
        let latest: AssocMap<LatestState> = latest_states(values);
        let n: usize = latest.len();
        let ghost all = value_views(values@);
        let ghost start = self.transactions.txs();
        let ghost names = latest.names();
        let mut i: usize = 0;
        while i < n
            invariant
                self.wf(),
                self.same_but_transactions(*old(self)),
                i <= n == names.len(),
                n == latest.values().len(),
                names == latest.names(),
                names.no_duplicates(),
                start == old(self).transactions.txs(),
                forall|j: int|
                    0 <= j < n ==> latest@.contains_key(#[trigger] names[j]) && latest@[names[j]]
                        == latest.values()[j],
                forall|k: Seq<char>| #[trigger]
                    latest@.contains_key(k) ==> last_record(all, k) == Some(latest@[k].rec(k)),
                forall|k: Seq<char>| #[trigger]
                    tx_at(self.transactions.txs(), k) == (if names.take(i as int).contains(k)
                        && undecided(latest@[k].status) {
                        Some(taken_up(latest@[k].rec(k), now_ms))
                    } else {
                        tx_at(start, k)
                    }),
            decreases n - i,
        {
            let id: &String = latest.name_at(i);
            let state: &LatestState = latest.value_at(i);
            let ghost before = self.transactions.txs();
            let ghost taken = names.take(i as int);
            let ghost next = names.take(i + 1);
            proof {
                assert(next =~= taken.push(id@));
                assert forall|k: Seq<char>| next.contains(k) <==> taken.contains(k) || k == id@ by {
                    if taken.contains(k) {
                        let j = choose|j: int| 0 <= j < taken.len() && taken[j] == k;
                        assert(next[j] == k);
                    }
                    if k == id@ {
                        assert(next[i as int] == k);
                    }
                }
            }
            match state.status {
                TxStatus::Ongoing | TxStatus::PrepareCommit | TxStatus::PrepareAbort => {
                    let parts: PartitionRangeList = copy_ranges(&state.partitions);
                    self.transactions.restore_transaction(
                        id.as_str(),
                        state.producer_id,
                        state.status,
                        parts,
                        now_ms,
                    );
                    assert(self.transactions.txs()[id@] == taken_up(latest@[id@].rec(id@), now_ms));
                },
                _ => {},
            }
            assert forall|k: Seq<char>| #[trigger] tx_at(self.transactions.txs(), k) == (
            if next.contains(k) && undecided(latest@[k].status) {
                Some(taken_up(latest@[k].rec(k), now_ms))
            } else {
                tx_at(start, k)
            }) by {
                assert(tx_at(before, k) == tx_at(before, k));
                if k == id@ {
                    assert(!taken.contains(k)) by {
                        if taken.contains(k) {
                            let j = choose|j: int| 0 <= j < taken.len() && taken[j] == k;
                            assert(names[j] == names[i as int]);
                        }
                    }
                }
            }
            i = i + 1;
        }
        proof {
            assert(names.take(n as int) =~= names);
            assert forall|k: Seq<char>| #[trigger] tx_at(self.transactions.txs(), k) == (
            match last_record(all, k) {
                Some(r) if undecided(r.status) => Some(taken_up(r, now_ms)),
                _ => tx_at(start, k),
            }) by {
                if last_record(all, k) is Some {
                    assert(latest@.contains_key(k));
                    assert(names.contains(k));
                } else {
                    assert(!latest@.contains_key(k));
                    assert(!names.contains(k)) by {
                        if names.contains(k) {
                            let j = choose|j: int| 0 <= j < names.len() && names[j] == k;
                            assert(latest@.contains_key(names[j]));
                        }
                    }
                }
            }
        }
    }
}

/// The record of a finished transaction read back takes nothing up, so a transaction whose
/// commit or abort was recorded does not come back to life.
pub proof fn a_finished_transaction_stays_finished(values: Seq<Seq<u8>>, r: TxRecord, k: Seq<char>)
    requires
        r.id == k,
        !undecided(r.status),
        writable(r),
    ensures
        last_record(values.push(record_bytes(r)), k) matches Some(x) && !undecided(x.status),
{
    crate::transaction::record::record_round_trip(r);
    let all = values.push(record_bytes(r));
    assert(all.last() == record_bytes(r));
}

} // verus!
