//! The transactions that are under way, and who may write to them.
use crate::name_map::NameMap;
use crate::text::{
    concat3, decimal, lemma_decimal_injective, owned, push_decimal, push_signed, signed_decimal,
};
use crate::transaction::queries::is_expired;
use crate::transaction::ranges::{
    add_ranges, added_topics, copy_ranges, ended_all, range_views, register_start, registered,
    set_ends, PartitionRangeList, RangeView,
};
use vstd::prelude::*;
use vstd::string::*;

verus! {

/// Where a transaction stands.
#[derive(Debug, Clone, Copy, PartialEq, Eq, Structural)]
pub enum TxStatus {
    Ongoing,
    PrepareCommit,
    PrepareAbort,
    Committed,
    Aborted,
}

/// The marker that a commit leaves in a partition's log.
pub const CTRL_COMMIT: u8 = 0x01;

/// The marker that an abort leaves in a partition's log.
pub const CTRL_ABORT: u8 = 0x02;

/// How many producers' sequence numbers are remembered.
pub const MAX_TRACKED_PRODUCERS: usize = 100_000;

/// A transaction.
#[derive(Debug)]
pub struct TransactionState {
    pub transaction_id: String,
    pub producer_id: u64,
    pub status: TxStatus,
    pub partitions: PartitionRangeList,
    pub created_at_ms: u64,
}

/// The producer that a transactional id belongs to, and its epoch.
#[derive(Debug, Clone, Copy, PartialEq, Eq, Structural)]
pub struct TransactionalProducerState {
    pub producer_id: u64,
    pub producer_epoch: i16,
}

/// What a transaction is.
#[verifier::ext_equal]
pub struct TxView {
    pub id: Seq<char>,
    pub producer_id: u64,
    pub status: TxStatus,
    pub partitions: Seq<RangeView>,
    pub created_at_ms: u64,
}

impl TransactionState {
    pub open spec fn view(self) -> TxView {
        TxView {
            id: self.transaction_id@,
            producer_id: self.producer_id,
            status: self.status,
            partitions: range_views(self.partitions@),
            created_at_ms: self.created_at_ms,
        }
    }
}

/// Idempotent producers and transactions.
pub struct TransactionManager {
    /// The last sequence number of each producer, under its id in decimal.
    pub producer_sequences: NameMap<u32>,
    pub transactions: NameMap<TransactionState>,
    pub transactional_producers: NameMap<TransactionalProducerState>,
    pub next_producer_id: u64,
}

/// Whether a transaction is not decided yet.
pub open spec fn undecided(status: TxStatus) -> bool {
    status is Ongoing || status is PrepareCommit || status is PrepareAbort
}

/// Whether an abort of the transaction can begin, or be taken up again.
pub open spec fn can_abort(status: TxStatus) -> bool {
    status is Ongoing || status is PrepareAbort
}

pub open spec fn tx_views(m: Map<Seq<char>, TransactionState>) -> Map<Seq<char>, TxView> {
    m.map_values(|s: TransactionState| s@)
}

proof fn lemma_tx_views(m: Map<Seq<char>, TransactionState>, k: Seq<char>, v: TransactionState)
    ensures
        tx_views(m.insert(k, v)) == tx_views(m).insert(k, v@),
        tx_views(m.remove(k)) == tx_views(m).remove(k),
{
    assert(tx_views(m.insert(k, v)) =~= tx_views(m).insert(k, v@));
    assert(tx_views(m.remove(k)) =~= tx_views(m).remove(k));
}

/// The sequence numbers, by producer.
pub open spec fn sequence_views(m: Map<Seq<char>, u32>) -> Map<u64, u32> {
    Map::new(|p: u64| m.contains_key(decimal(p as nat)), |p: u64| m[decimal(p as nat)])
}

fn producer_name(producer_id: u64) -> (r: String)
    ensures
        r@ == decimal(producer_id as nat),
{
    let mut s = String::new();
    push_decimal(&mut s, producer_id);
    assert(s@ =~= decimal(producer_id as nat));
    s
}

/// The ids of `names`, each once.
pub open spec fn text_list(s: Seq<String>) -> Seq<Seq<char>> {
    s.map_values(|t: String| t@)
}

impl TransactionManager {
    pub open spec fn wf(self) -> bool {
        &&& self.producer_sequences.wf()
        &&& self.transactions.wf()
        &&& self.transactional_producers.wf()
        &&& forall|k: Seq<char>| #[trigger]
            self.producer_sequences@.contains_key(k) ==> exists|p: u64| k == #[trigger] decimal(
                p as nat,
            )
    }

    /// The transactions.
    pub open spec fn txs(self) -> Map<Seq<char>, TxView> {
        tx_views(self.transactions@)
    }

    /// The sequence numbers.
    pub open spec fn seqs(self) -> Map<u64, u32> {
        sequence_views(self.producer_sequences@)
    }

    /// The transactional producers.
    pub open spec fn producers(self) -> Map<Seq<char>, TransactionalProducerState> {
        self.transactional_producers@
    }

    pub fn new() -> (r: Self)
        ensures
            r.wf(),
            r.txs() == Map::<Seq<char>, TxView>::empty(),
            r.seqs() == Map::<u64, u32>::empty(),
            r.producers() == Map::<Seq<char>, TransactionalProducerState>::empty(),
            r.next_producer_id == 1,
    {
        let r = TransactionManager {
            producer_sequences: NameMap::new(),
            transactions: NameMap::new(),
            transactional_producers: NameMap::new(),
            next_producer_id: 1,
        };
        proof {
            assert(r.txs() =~= Map::<Seq<char>, TxView>::empty());
            assert(r.seqs() =~= Map::<u64, u32>::empty());
        }
        r
    }

    /// Whether a batch was seen before: its sequence number is not above the last one of its
    /// producer. Producer 0 is not tracked.
    pub fn is_duplicate(&self, producer_id: u64, seq_num: u32) -> (r: bool)
        requires
            self.wf(),
        ensures
            r == (producer_id != 0 && self.seqs().contains_key(producer_id) && seq_num
                <= self.seqs()[producer_id]),
    {
        if producer_id == 0 {
            return false;
        }
        let name: String = producer_name(producer_id);
        match self.producer_sequences.get(name.as_str()) {
            Some(last) => seq_num <= *last,
            None => false,
        }
    }

    /// Remembers the last sequence number of a producer. Where too many are remembered already,
    /// all others are forgotten.
    pub fn record_sequence(&mut self, producer_id: u64, seq_num: u32)
        requires
            old(self).wf(),
        ensures
            final(self).wf(),
            final(self).transactions == old(self).transactions,
            final(self).transactional_producers == old(self).transactional_producers,
            final(self).next_producer_id == old(self).next_producer_id,
            final(self).seqs() == (if producer_id == 0 {
                old(self).seqs()
            } else if old(self).producer_sequences.names().len() >= MAX_TRACKED_PRODUCERS && !old(
                self,
            ).seqs().contains_key(producer_id) {
                Map::<u64, u32>::empty().insert(producer_id, seq_num)
            } else {
                old(self).seqs().insert(producer_id, seq_num)
            }),
    {
        if producer_id > 0 {
            let name: String = producer_name(producer_id);
            if self.producer_sequences.len() >= MAX_TRACKED_PRODUCERS
                && !self.producer_sequences.contains(name.as_str()) {
                self.producer_sequences = NameMap::new();
                assert(self.seqs() =~= Map::<u64, u32>::empty());
            }
            let ghost before = self.producer_sequences@;
            let ghost seqs = self.seqs();
            self.producer_sequences.insert(name, seq_num);
            proof {
                assert forall|p: u64|
                    #![trigger decimal(p as nat)]
                    decimal(p as nat) == decimal(producer_id as nat) implies p == producer_id by {
                    lemma_decimal_injective(p as nat, producer_id as nat);
                }
                assert(self.seqs() =~= seqs.insert(producer_id, seq_num));
            }
        }
    }

    /// The id of a new producer.
    pub fn generate_producer_id(&mut self) -> (r: u64)
        ensures
            r == old(self).next_producer_id,
            *final(self) == (TransactionManager {
                next_producer_id: old(self).next_producer_id.wrapping_add(1),
                ..*old(self)
            }),
    {
        let id: u64 = self.next_producer_id;
        self.next_producer_id = id.wrapping_add(1);
        id
    }

    /// Gives a transactional id its producer: a new one the first time, and the same one under
    /// the next epoch from then on, which fences whoever used it before.
    pub fn init_transactional_producer(&mut self, transactional_id: &str) -> (r: Result<
        (u64, i16),
        String,
    >)
        requires
            old(self).wf(),
        ensures
            final(self).wf(),
            final(self).transactions == old(self).transactions,
            final(self).producer_sequences == old(self).producer_sequences,
            ({
                let ps = old(self).producers();
                let k = transactional_id@;
                if !ps.contains_key(k) {
                    &&& r == Ok::<(u64, i16), String>((old(self).next_producer_id, 0i16))
                    &&& final(self).next_producer_id == old(self).next_producer_id.wrapping_add(1)
                    &&& final(self).producers() == ps.insert(
                        k,
                        TransactionalProducerState {
                            producer_id: old(self).next_producer_id,
                            producer_epoch: 0,
                        },
                    )
                } else if ps[k].producer_epoch < i16::MAX {
                    let epoch = (ps[k].producer_epoch + 1) as i16;
                    &&& r == Ok::<(u64, i16), String>((ps[k].producer_id, epoch))
                    &&& final(self).next_producer_id == old(self).next_producer_id
                    &&& final(self).producers() == ps.insert(
                        k,
                        TransactionalProducerState {
                            producer_id: ps[k].producer_id,
                            producer_epoch: epoch,
                        },
                    )
                } else {
                    &&& r matches Err(e) && e@ == "Producer epoch exhausted for transactional.id '"@
                        + k + "'"@
                    &&& *final(self) == *old(self)
                }
            }),
    {
        match self.transactional_producers.find(transactional_id) {
            Some(i) => {
                let current: TransactionalProducerState = *self.transactional_producers.value_at(i);
                if current.producer_epoch == i16::MAX {
                    return Err(
                        concat3(
                            "Producer epoch exhausted for transactional.id '",
                            transactional_id,
                            "'",
                        ),
                    );
                }
                let epoch: i16 = current.producer_epoch + 1;
                let state: &mut TransactionalProducerState = self.transactional_producers.value_mut(
                    i,
                );
                state.producer_epoch = epoch;
                Ok((current.producer_id, epoch))
            },
            None => {
                let producer_id: u64 = self.generate_producer_id();
                self.transactional_producers.insert(
                    owned(transactional_id),
                    TransactionalProducerState { producer_id, producer_epoch: 0 },
                );
                Ok((producer_id, 0))
            },
        }
    }

    /// Every transactional id with its producer and epoch.
    pub fn all_transactional_producers(&self) -> (r: Vec<(String, u64, i16)>)
        requires
            self.wf(),
        ensures
            r@.len() == self.transactional_producers.names().len(),
            forall|i: int|
                0 <= i < r@.len() ==> (#[trigger] r@[i]).0@ == self.transactional_producers.names()[i]
                    && self.producers().contains_key(r@[i].0@) && self.producers()[r@[i].0@] == (
                TransactionalProducerState { producer_id: r@[i].1, producer_epoch: r@[i].2 }),
            forall|k: Seq<char>| #[trigger]
                self.producers().contains_key(k) ==> exists|i: int|
                    0 <= i < r@.len() && (#[trigger] r@[i]).0@ == k,
    {
        let mut out: Vec<(String, u64, i16)> = Vec::new();
        let n: usize = self.transactional_producers.len();
        let ghost names = self.transactional_producers.names();
        let mut i: usize = 0;
        while i < n
            invariant
                i <= n,
                n == names.len(),
                self.wf(),
                names == self.transactional_producers.names(),
                out@.len() == i,
                forall|j: int|
                    0 <= j < i ==> (#[trigger] out@[j]).0@ == names[j] && self.producers().contains_key(
                        out@[j].0@,
                    ) && self.producers()[out@[j].0@] == (TransactionalProducerState {
                        producer_id: out@[j].1,
                        producer_epoch: out@[j].2,
                    }),
            decreases n - i,
        {
            let state: TransactionalProducerState = *self.transactional_producers.value_at(i);
            let name: String = self.transactional_producers.name_at(i).clone();
            out.push((name, state.producer_id, state.producer_epoch));
            i = i + 1;
        }
        proof {
            assert forall|k: Seq<char>| #[trigger] self.producers().contains_key(k) implies exists|
                j: int,
            |
                0 <= j < out@.len() && (#[trigger] out@[j]).0@ == k by {
                assert(names.contains(k));
                let j = choose|j: int| 0 <= j < names.len() && names[j] == k;
                assert(out@[j].0@ == k);
            }
        }
        out
    }

    /// Keeps new producer ids above one that is in use.
    pub fn observe_producer_id(&mut self, producer_id: u64)
        ensures
            *final(self) == (TransactionManager {
                next_producer_id: if producer_id < u64::MAX && old(self).next_producer_id
                    <= producer_id {
                    (producer_id + 1) as u64
                } else if producer_id == u64::MAX {
                    u64::MAX
                } else {
                    old(self).next_producer_id
                },
                ..*old(self)
            }),
    {
        let candidate: u64 = producer_id.saturating_add(1);
        if self.next_producer_id < candidate {
            self.next_producer_id = candidate;
        }
    }

    /// Sets the producer and epoch of a transactional id.
    pub fn restore_transactional_producer(
        &mut self,
        transactional_id: &str,
        producer_id: u64,
        producer_epoch: i16,
    )
        requires
            old(self).wf(),
        ensures
            final(self).wf(),
            final(self).transactions == old(self).transactions,
            final(self).producer_sequences == old(self).producer_sequences,
            final(self).producers() == old(self).producers().insert(
                transactional_id@,
                TransactionalProducerState { producer_id, producer_epoch },
            ),
            final(self).next_producer_id == (if producer_id == u64::MAX {
                u64::MAX
            } else if old(self).next_producer_id <= producer_id {
                (producer_id + 1) as u64
            } else {
                old(self).next_producer_id
            }),
    {
        self.transactional_producers.insert(
            owned(transactional_id),
            TransactionalProducerState { producer_id, producer_epoch },
        );
        self.observe_producer_id(producer_id);
    }

    /// Whether a producer may write under a transactional id.
    pub fn validate_transactional_producer(
        &self,
        transactional_id: &str,
        producer_id: u64,
        producer_epoch: i16,
    ) -> (r: Result<(), String>)
        requires
            self.wf(),
        ensures
            ({
                let ps = self.producers();
                let k = transactional_id@;
                if !ps.contains_key(k) {
                    r matches Err(e) && e@ == "TransactionalId '"@ + k + "' is not initialized"@
                } else if ps[k].producer_id != producer_id {
                    r matches Err(e) && e@ == "Producer ID mismatch for transactional.id '"@ + k
                        + "'"@
                } else if ps[k].producer_epoch != producer_epoch {
                    r matches Err(e) && e@ == "Producer fenced for transactional.id '"@ + k
                        + "' (expected epoch "@ + signed_decimal(ps[k].producer_epoch as int)
                        + ", got "@ + signed_decimal(producer_epoch as int) + ")"@
                } else {
                    r is Ok
                }
            }),
    {
        let current: TransactionalProducerState = match self.transactional_producers.get(
            transactional_id,
        ) {
            Some(state) => *state,
            None => {
                return Err(concat3("TransactionalId '", transactional_id, "' is not initialized"));
            },
        };
        if current.producer_id != producer_id {
            return Err(
                concat3("Producer ID mismatch for transactional.id '", transactional_id, "'"),
            );
        }
        if current.producer_epoch != producer_epoch {
            let mut e = concat3(
                "Producer fenced for transactional.id '",
                transactional_id,
                "' (expected epoch ",
            );
            push_signed(&mut e, current.producer_epoch as i64);
            e.append(", got ");
            push_signed(&mut e, producer_epoch as i64);
            e.append(")");
            return Err(e);
        }
        Ok(())
    }

    pub fn has_transactional_producer(&self, transactional_id: &str) -> (r: bool)
        requires
            self.wf(),
        ensures
            r == self.producers().contains_key(transactional_id@),
    {
        self.transactional_producers.contains(transactional_id)
    }

    /// Nothing but the transactions differs.
    pub open spec fn same_producers(self, other: Self) -> bool {
        &&& self.producer_sequences == other.producer_sequences
        &&& self.transactional_producers == other.transactional_producers
        &&& self.next_producer_id == other.next_producer_id
    }

    /// Begins a transaction.
    pub fn begin_transaction(&mut self, transaction_id: &str, producer_id: u64, now_ms: u64) -> (r:
        Result<(), String>)
        requires
            old(self).wf(),
        ensures
            final(self).wf(),
            final(self).same_producers(*old(self)),
            ({
                let k = transaction_id@;
                if old(self).txs().contains_key(k) {
                    &&& r matches Err(e) && e@ == "Transaction ID '"@ + k + "' already exists"@
                    &&& *final(self) == *old(self)
                } else {
                    &&& r is Ok
                    &&& final(self).txs() == old(self).txs().insert(
                        k,
                        begun_tx(k, producer_id, now_ms),
                    )
                }
            }),
    {
        if self.transactions.contains(transaction_id) {
            return Err(concat3("Transaction ID '", transaction_id, "' already exists"));
        }
        let state = TransactionState {
            transaction_id: owned(transaction_id),
            producer_id,
            status: TxStatus::Ongoing,
            partitions: Vec::new(),
            created_at_ms: now_ms,
        };
        proof {
            assert(range_views(state.partitions@) =~= Seq::empty());
            lemma_tx_views(self.transactions@, transaction_id@, state);
        }
        self.transactions.insert(owned(transaction_id), state);
        Ok(())
    }

    /// Lets partitions join a transaction, which is begun if there is none.
    pub fn add_partitions_to_txn(
        &mut self,
        transaction_id: &str,
        producer_id: u64,
        topics: &[(String, Vec<u32>)],
        now_ms: u64,
    ) -> (r: Result<(), String>)
        requires
            old(self).wf(),
        ensures
            final(self).wf(),
            final(self).same_producers(*old(self)),
            ({
                let k = transaction_id@;
                let tx = if old(self).txs().contains_key(k) {
                    old(self).txs()[k]
                } else {
                    begun_tx(k, producer_id, now_ms)
                };
                if tx.producer_id != producer_id {
                    &&& r matches Err(e) && e@ == "Producer ID mismatch"@
                    &&& *final(self) == *old(self)
                } else {
                    &&& r is Ok
                    &&& final(self).txs() == old(self).txs().insert(
                        k,
                        TxView { partitions: added_topics(tx.partitions, topics@), ..tx },
                    )
                }
            }),
    {
        if !self.transactions.contains(transaction_id) {
            let _ = self.begin_transaction(transaction_id, producer_id, now_ms);
        }
        proof {
            assert(self.txs().contains_key(transaction_id@));
            assert(self.transactions@.contains_key(transaction_id@));
            assert(self.txs()[transaction_id@] == self.transactions@[transaction_id@]@);
        }
        match self.transactions.find(transaction_id) {
            Some(i) => {
                if self.transactions.value_at(i).producer_id != producer_id {
                    return Err(owned("Producer ID mismatch"));
                }
                let ghost m = self.transactions@;
                let state: &mut TransactionState = self.transactions.value_mut(i);
                add_ranges(&mut state.partitions, topics);
                proof {
                    lemma_tx_views(m, transaction_id@, *state);
                    assert(self.txs() =~= old(self).txs().insert(transaction_id@, state@));
                }
                Ok(())
            },
            None => Err(owned("Producer ID mismatch")),
        }
    }

    /// Notes that a record at `start_offset` was produced to a partition.
    pub fn register_partition(
        &mut self,
        transaction_id: &str,
        topic: &str,
        partition: u32,
        start_offset: u64,
    ) -> (r: Option<(u64, PartitionRangeList)>)
        requires
            old(self).wf(),
        ensures
            final(self).wf(),
            final(self).same_producers(*old(self)),
            ({
                let k = transaction_id@;
                let tx = old(self).txs()[k];
                if !old(self).txs().contains_key(k) {
                    r is None && *final(self) == *old(self)
                } else {
                    let rs = registered(tx.partitions, topic@, partition, start_offset);
                    &&& r matches Some(answer) && answer.0 == tx.producer_id && range_views(
                        answer.1@,
                    ) == rs
                    &&& final(self).txs() == old(self).txs().insert(
                        k,
                        TxView { partitions: rs, ..tx },
                    )
                }
            }),
    {
        match self.transactions.find(transaction_id) {
            Some(i) => {
                let ghost m = self.transactions@;
                let state: &mut TransactionState = self.transactions.value_mut(i);
                register_start(&mut state.partitions, topic, partition, start_offset);
                let copy: PartitionRangeList = copy_ranges(&state.partitions);
                proof {
                    lemma_tx_views(m, transaction_id@, *state);
                }
                Some((state.producer_id, copy))
            },
            None => None,
        }
    }

    /// Sets where a transaction stands, and returns its producer and partitions.
    fn set_status(&mut self, i: usize, status: TxStatus) -> (r: (u64, PartitionRangeList))
        requires
            old(self).wf(),
            i < old(self).transactions.names().len(),
            old(self).transactions.names().len() == old(self).transactions.values().len(),
        ensures
            final(self).wf(),
            final(self).same_producers(*old(self)),
            r.0 == old(self).transactions.values()[i as int].producer_id,
            range_views(r.1@) == old(self).transactions.values()[i as int]@.partitions,
            final(self).txs() == old(self).txs().insert(
                old(self).transactions.names()[i as int],
                TxView { status, ..old(self).transactions.values()[i as int]@ },
            ),
    {
        let ghost m = self.transactions@;
        let ghost k = self.transactions.names()[i as int];
        let state: &mut TransactionState = self.transactions.value_mut(i);
        state.status = status;
        let copy: PartitionRangeList = copy_ranges(&state.partitions);
        proof {
            lemma_tx_views(m, k, *state);
        }
        (state.producer_id, copy)
    }

    /// First step of a commit: from here on only the commit ends the transaction, or that it takes
    /// too long.
    pub fn prepare_commit(&mut self, transaction_id: &str) -> (r: Result<
        (u64, PartitionRangeList),
        String,
    >)
        requires
            old(self).wf(),
        ensures
            final(self).wf(),
            final(self).same_producers(*old(self)),
            ({
                let k = transaction_id@;
                let tx = old(self).txs()[k];
                if !old(self).txs().contains_key(k) {
                    (r matches Err(e) && e@ == "Transaction '"@ + k + "' not found"@) && *final(self) == *old(self)
                } else if !(tx.status is Ongoing) {
                    (r matches Err(e) && e@ == "Transaction '"@ + k + "' is not active"@) && *final(self) == *old(self)
                } else {
                    &&& r matches Ok(answer) && answer.0 == tx.producer_id && range_views(answer.1@)
                        == tx.partitions
                    &&& final(self).txs() == old(self).txs().insert(
                        k,
                        TxView { status: TxStatus::PrepareCommit, ..tx },
                    )
                }
            }),
    {
        let n: usize = self.transactions.len();
        match self.transactions.find(transaction_id) {
            Some(i) => {
                if self.transactions.value_at(i).status != TxStatus::Ongoing {
                    return Err(concat3("Transaction '", transaction_id, "' is not active"));
                }
                Ok(self.set_status(i, TxStatus::PrepareCommit))
            },
            None => Err(concat3("Transaction '", transaction_id, "' not found")),
        }
    }

    /// First step of an abort: from here on the transaction can only be aborted.
    pub fn prepare_abort(&mut self, transaction_id: &str) -> (r: Result<
        (u64, PartitionRangeList),
        String,
    >)
        requires
            old(self).wf(),
        ensures
            final(self).wf(),
            final(self).same_producers(*old(self)),
            ({
                let k = transaction_id@;
                let tx = old(self).txs()[k];
                if !old(self).txs().contains_key(k) {
                    (r matches Err(e) && e@ == "Transaction '"@ + k + "' not found"@) && *final(self) == *old(self)
                } else if !can_abort(tx.status) {
                    (r matches Err(e) && e@ == "Transaction '"@ + k + "' cannot be aborted"@)
                        && *final(self) == *old(self)
                } else {
                    &&& r matches Ok(answer) && answer.0 == tx.producer_id && range_views(answer.1@)
                        == tx.partitions
                    &&& final(self).txs() == old(self).txs().insert(
                        k,
                        TxView { status: TxStatus::PrepareAbort, ..tx },
                    )
                }
            }),
    {
        let n: usize = self.transactions.len();
        match self.transactions.find(transaction_id) {
            Some(i) => {
                let status: TxStatus = self.transactions.value_at(i).status;
                if status != TxStatus::Ongoing && status != TxStatus::PrepareAbort {
                    return Err(concat3("Transaction '", transaction_id, "' cannot be aborted"));
                }
                Ok(self.set_status(i, TxStatus::PrepareAbort))
            },
            None => Err(concat3("Transaction '", transaction_id, "' not found")),
        }
    }

    /// Gives a transaction up that has been undecided for more than `max_age_ms`: from here on it
    /// can only be aborted, even if its commit had begun. Returns whether it was given up.
    pub fn give_up(&mut self, transaction_id: &str, max_age_ms: u64, now_ms: u64) -> (r: bool)
        requires
            old(self).wf(),
        ensures
            final(self).wf(),
            final(self).same_producers(*old(self)),
            ({
                let k = transaction_id@;
                let tx = old(self).txs()[k];
                if old(self).txs().contains_key(k) && is_expired(tx, now_ms, max_age_ms) {
                    r && final(self).txs() == old(self).txs().insert(
                        k,
                        TxView { status: TxStatus::PrepareAbort, ..tx },
                    )
                } else {
                    !r && *final(self) == *old(self)
                }
            }),
    {
        let n: usize = self.transactions.len();
        match self.transactions.find(transaction_id) {
            Some(i) => {
                let state: &TransactionState = self.transactions.value_at(i);
                let open: bool = state.status == TxStatus::Ongoing || state.status
                    == TxStatus::PrepareCommit || state.status == TxStatus::PrepareAbort;
                if !open || now_ms.saturating_sub(state.created_at_ms) <= max_age_ms {
                    return false;
                }
                let _ = self.set_status(i, TxStatus::PrepareAbort);
                true
            },
            None => false,
        }
    }

    /// Last step of a commit.
    pub fn complete_commit(&mut self, transaction_id: &str) -> (r: Result<(), String>)
        requires
            old(self).wf(),
        ensures
            final(self).wf(),
            final(self).same_producers(*old(self)),
            ({
                let k = transaction_id@;
                let tx = old(self).txs()[k];
                if !old(self).txs().contains_key(k) {
                    (r matches Err(e) && e@ == "Transaction '"@ + k + "' not found"@) && *final(self) == *old(self)
                } else {
                    &&& r is Ok
                    &&& final(self).txs() == old(self).txs().insert(
                        k,
                        TxView { status: TxStatus::Committed, ..tx },
                    )
                }
            }),
    {
        let n: usize = self.transactions.len();
        match self.transactions.find(transaction_id) {
            Some(i) => {
                let _ = self.set_status(i, TxStatus::Committed);
                Ok(())
            },
            None => Err(concat3("Transaction '", transaction_id, "' not found")),
        }
    }

    /// Last step of an abort: notes where the transaction ends in each partition.
    pub fn complete_abort(&mut self, transaction_id: &str, end_offsets: &[(String, u32, u64)]) -> (r:
        Result<(), String>)
        requires
            old(self).wf(),
        ensures
            final(self).wf(),
            final(self).same_producers(*old(self)),
            ({
                let k = transaction_id@;
                let tx = old(self).txs()[k];
                if !old(self).txs().contains_key(k) {
                    (r matches Err(e) && e@ == "Transaction '"@ + k + "' not found"@) && *final(self) == *old(self)
                } else {
                    &&& r is Ok
                    &&& final(self).txs() == old(self).txs().insert(
                        k,
                        TxView {
                            status: TxStatus::Aborted,
                            partitions: ended_all(tx.partitions, end_offsets@),
                            ..tx
                        },
                    )
                }
            }),
    {
        match self.transactions.find(transaction_id) {
            Some(i) => {
                let ghost m = self.transactions@;
                let state: &mut TransactionState = self.transactions.value_mut(i);
                state.status = TxStatus::Aborted;
                set_ends(&mut state.partitions, end_offsets);
                proof {
                    lemma_tx_views(m, transaction_id@, *state);
                }
                Ok(())
            },
            None => Err(concat3("Transaction '", transaction_id, "' not found")),
        }
    }
}

/// A transaction that was just begun.
pub open spec fn begun_tx(id: Seq<char>, producer_id: u64, now_ms: u64) -> TxView {
    TxView {
        id,
        producer_id,
        status: TxStatus::Ongoing,
        partitions: Seq::empty(),
        created_at_ms: now_ms,
    }
}

} // verus!
