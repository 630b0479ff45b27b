//! What readers and the broker's upkeep ask of transactions.
use crate::text::same_text;
use crate::transaction::manager::{
    text_list, tx_views, undecided, TransactionManager, TransactionState, TxStatus, TxView,
};
use crate::transaction::ranges::{
    copy_ranges, is_of, range_view, range_views, PartitionRangeList, RangeView,
};
use vstd::prelude::*;
use vstd::string::*;

verus! {

/// `lso` is the lowest offset of the partition that some undecided transaction begins at, or
/// `u64::MAX` where there is none.
pub open spec fn is_stable_up_to(txs: Map<Seq<char>, TxView>, topic: Seq<char>, partition: u32, lso: u64) -> bool {
    &&& forall|k: Seq<char>, i: int|
        opens_at(txs, k, i, topic, partition) ==> lso <= (#[trigger] txs[k].partitions[i]).start
    &&& lso == u64::MAX || exists|k: Seq<char>, i: int|
        opens_at(txs, k, i, topic, partition) && (#[trigger] txs[k].partitions[i]).start == lso
}

/// The `i`-th range of the undecided transaction `k` is one of the partition.
pub open spec fn opens_at(
    txs: Map<Seq<char>, TxView>,
    k: Seq<char>,
    i: int,
    topic: Seq<char>,
    partition: u32,
) -> bool {
    txs.contains_key(k) && undecided(txs[k].status) && 0 <= i < txs[k].partitions.len() && is_of(
        txs[k].partitions[i],
        topic,
        partition,
    )
}

/// The first and end offsets of the ranges of the partition.
pub open spec fn bounds_of(rs: Seq<RangeView>, topic: Seq<char>, partition: u32) -> Seq<(u64, u64)>
    decreases rs.len(),
{
    if rs.len() == 0 {
        Seq::empty()
    } else {
        let before = bounds_of(rs.drop_last(), topic, partition);
        if is_of(rs.last(), topic, partition) {
            before.push((rs.last().start, rs.last().end))
        } else {
            before
        }
    }
}

/// The ranges of the partition that the aborted ones of `txs` cover.
pub open spec fn aborted_bounds(txs: Seq<TransactionState>, topic: Seq<char>, partition: u32) -> Seq<
    (u64, u64),
>
    decreases txs.len(),
{
    if txs.len() == 0 {
        Seq::empty()
    } else {
        let before = aborted_bounds(txs.drop_last(), topic, partition);
        if txs.last().status is Aborted {
            before + bounds_of(txs.last()@.partitions, topic, partition)
        } else {
            before
        }
    }
}

/// How old a transaction is.
pub open spec fn age(tx: TxView, now_ms: u64) -> int {
    if now_ms > tx.created_at_ms {
        now_ms - tx.created_at_ms
    } else {
        0
    }
}

/// Whether an undecided transaction has taken too long.
pub open spec fn is_expired(tx: TxView, now_ms: u64, max_age_ms: u64) -> bool {
    undecided(tx.status) && age(tx, now_ms) > max_age_ms
}

/// Whether a transaction is dropped by `prune_stale_transactions`.
pub open spec fn is_stale(tx: TxView, now_ms: u64, max_age_ms: u64) -> bool {
    age(tx, now_ms) > max_age_ms || (max_age_ms == 0 && (tx.status is Committed
        || tx.status is Aborted))
}

impl TransactionManager {
    /// The last stable offset of a partition: no undecided transaction begins before it.
    pub fn last_stable_offset(&self, topic: &str, partition: u32) -> (r: u64)
        requires
            self.wf(),
        ensures
            is_stable_up_to(self.txs(), topic@, partition, r),
    {
        let mut lso: u64 = u64::MAX;
        let n: usize = self.transactions.len();
        let ghost names = self.transactions.names();
        let ghost txs = self.txs();
        let mut a: usize = 0;
        while a < n
            invariant
                a <= n,
                n == names.len(),
                n == self.transactions.values().len(),
                names == self.transactions.names(),
                self.wf(),
                txs == self.txs(),
                forall|j: int|
                    0 <= j < n ==> self.transactions@.contains_key(#[trigger] names[j])
                        && self.transactions@[names[j]] == self.transactions.values()[j],
                forall|j: int, i: int|
                    0 <= j < a && opens_at(txs, names[j], i, topic@, partition) ==> lso <= (
                    #[trigger] txs[names[j]].partitions[i]).start,
                lso == u64::MAX || exists|k: Seq<char>, i: int|
                    opens_at(txs, k, i, topic@, partition) && (#[trigger] txs[k].partitions[i]).start
                        == lso,
            decreases n - a,
        {
            let state: &TransactionState = self.transactions.value_at(a);
            let ghost k = names[a as int];
            proof {
                assert(self.transactions@.contains_key(k));
                assert(txs[k] == state@);
            }
            if state.status == TxStatus::Ongoing || state.status == TxStatus::PrepareCommit
                || state.status == TxStatus::PrepareAbort {
                let ghost rs = range_views(state.partitions@);
                let mut b: usize = 0;
                while b < state.partitions.len()
                    invariant
                        b <= state.partitions@.len(),
                        rs == range_views(state.partitions@),
                        txs.contains_key(k),
                        txs[k] == state@,
                        undecided(state.status),
                        0 <= a < names.len(),
                        k == names[a as int],
                        forall|j: int, i: int|
                            0 <= j < a && opens_at(txs, names[j], i, topic@, partition) ==> lso <= (
                            #[trigger] txs[names[j]].partitions[i]).start,
                        forall|i: int|
                            0 <= i < b && is_of(#[trigger] rs[i], topic@, partition) ==> lso
                                <= rs[i].start,
                        lso == u64::MAX || exists|k: Seq<char>, i: int|
                            opens_at(txs, k, i, topic@, partition) && (
                            #[trigger] txs[k].partitions[i]).start == lso,
                    decreases state.partitions@.len() - b,
                {
                    assert(rs[b as int] == range_view(state.partitions@[b as int]));
                    if state.partitions[b].1 == partition && same_text(
                        state.partitions[b].0.as_str(),
                        topic,
                    ) && state.partitions[b].2 < lso {
                        lso = state.partitions[b].2;
                        assert(opens_at(txs, k, b as int, topic@, partition)
                            && txs[k].partitions[b as int].start == lso);
                    }
                    b = b + 1;
                }
            }
            proof {
                assert forall|j: int, i: int|
                    0 <= j < a + 1 && opens_at(txs, names[j], i, topic@, partition) implies lso <= (
                #[trigger] txs[names[j]].partitions[i]).start by {
                    if j == a {
                        assert(range_views(state.partitions@)[i] == txs[k].partitions[i]);
                    }
                }
            }
            a = a + 1;
        }
        proof {
            assert forall|k: Seq<char>, i: int|
                opens_at(txs, k, i, topic@, partition) implies lso <= (
            #[trigger] txs[k].partitions[i]).start by {
                assert(names.contains(k));
                let j = choose|j: int| 0 <= j < names.len() && names[j] == k;
                assert(txs[names[j]].partitions[i].start == txs[k].partitions[i].start);
            }
        }
        lso
    }

    /// The offset ranges of a partition that aborted transactions cover.
    pub fn aborted_ranges(&self, topic: &str, partition: u32) -> (r: Vec<(u64, u64)>)
        requires
            self.wf(),
        ensures
            r@ == aborted_bounds(self.transactions.values(), topic@, partition),
    {
        let mut out: Vec<(u64, u64)> = Vec::new();
        let n: usize = self.transactions.len();
        let ghost values = self.transactions.values();
        let mut a: usize = 0;
        assert(values.take(0) =~= Seq::empty());
        while a < n
            invariant
                a <= n,
                n == values.len(),
                n == self.transactions.names().len(),
                values == self.transactions.values(),
                out@ == aborted_bounds(values.take(a as int), topic@, partition),
            decreases n - a,
        {
            let state: &TransactionState = self.transactions.value_at(a);
            assert(values.take(a + 1).drop_last() =~= values.take(a as int));
            if state.status == TxStatus::Aborted {
                let ghost before = out@;
                let ghost rs = range_views(state.partitions@);
                let mut b: usize = 0;
                assert(rs.take(0) =~= Seq::empty());
                assert(out@ =~= before + bounds_of(rs.take(0), topic@, partition));
                while b < state.partitions.len()
                    invariant
                        b <= state.partitions@.len(),
                        rs == range_views(state.partitions@),
                        out@ == before + bounds_of(rs.take(b as int), topic@, partition),
                    decreases state.partitions@.len() - b,
                {
                    proof {
                        assert(rs.take(b + 1).drop_last() =~= rs.take(b as int));
                        assert(rs[b as int] == range_view(state.partitions@[b as int]));
                    }
                    if state.partitions[b].1 == partition && same_text(
                        state.partitions[b].0.as_str(),
                        topic,
                    ) {
                        out.push((state.partitions[b].2, state.partitions[b].3));
                    }
                    assert(out@ =~= before + bounds_of(rs.take(b + 1), topic@, partition));
                    b = b + 1;
                }
                assert(rs.take(b as int) =~= rs);
            }
            a = a + 1;
        }
        assert(values.take(a as int) =~= values);
        out
    }

    /// The producer of a transaction, or 0 where there is none.
    pub fn get_producer_id(&self, transaction_id: &str) -> (r: u64)
        requires
            self.wf(),
        ensures
            r == (if self.txs().contains_key(transaction_id@) {
                self.txs()[transaction_id@].producer_id
            } else {
                0
            }),
    {
        match self.transactions.get(transaction_id) {
            Some(state) => state.producer_id,
            None => 0,
        }
    }

    /// The partitions of a transaction.
    pub fn get_partitions(&self, transaction_id: &str) -> (r: PartitionRangeList)
        requires
            self.wf(),
        ensures
            range_views(r@) == (if self.txs().contains_key(transaction_id@) {
                self.txs()[transaction_id@].partitions
            } else {
                Seq::empty()
            }),
    {
        match self.transactions.get(transaction_id) {
            Some(state) => copy_ranges(&state.partitions),
            None => {
                let r: PartitionRangeList = Vec::new();
                assert(range_views(r@) =~= Seq::empty());
                r
            },
        }
    }

    /// Whether a transaction is there and ongoing: it is neither decided nor about to be.
    pub fn is_ongoing(&self, transaction_id: &str) -> (r: bool)
        requires
            self.wf(),
        ensures
            r == (self.txs().contains_key(transaction_id@) && self.txs()[transaction_id@].status is Ongoing),
    {
        match self.transactions.get(transaction_id) {
            Some(state) => state.status == TxStatus::Ongoing,
            None => false,
        }
    }

    /// Whether a transaction is there and not decided yet.
    pub fn is_undecided(&self, transaction_id: &str) -> (r: bool)
        requires
            self.wf(),
        ensures
            r == (self.txs().contains_key(transaction_id@) && undecided(
                self.txs()[transaction_id@].status,
            )),
    {
        match self.transactions.get(transaction_id) {
            Some(state) => state.status == TxStatus::Ongoing || state.status
                == TxStatus::PrepareCommit || state.status == TxStatus::PrepareAbort,
            None => false,
        }
    }

    /// Where a transaction stands.
    pub fn get_status(&self, transaction_id: &str) -> (r: Option<TxStatus>)
        requires
            self.wf(),
        ensures
            r == (if self.txs().contains_key(transaction_id@) {
                Some(self.txs()[transaction_id@].status)
            } else {
                None
            }),
    {
        match self.transactions.get(transaction_id) {
            Some(state) => Some(state.status),
            None => None,
        }
    }

    /// Forgets a transaction that is decided.
    pub fn cleanup_completed_transaction(&mut self, transaction_id: &str)
        requires
            old(self).wf(),
        ensures
            final(self).wf(),
            final(self).same_producers(*old(self)),
            final(self).txs() == (if old(self).txs().contains_key(transaction_id@) && !undecided(
                old(self).txs()[transaction_id@].status,
            ) {
                old(self).txs().remove(transaction_id@)
            } else {
                old(self).txs()
            }),
    {
        let decided: bool = match self.transactions.get(transaction_id) {
            Some(state) => state.status == TxStatus::Committed || state.status == TxStatus::Aborted,
            None => false,
        };
        if decided {
            let ghost m = self.transactions@;
            let _ = self.transactions.remove(transaction_id);
            assert(tx_views(m.remove(transaction_id@)) =~= tx_views(m).remove(transaction_id@));
        }
    }

    /// Puts a transaction back as it was recorded, with its age counted from now.
    pub fn restore_transaction(
        &mut self,
        transaction_id: &str,
        producer_id: u64,
        status: TxStatus,
        partitions: PartitionRangeList,
        now_ms: u64,
    )
        requires
            old(self).wf(),
        ensures
            final(self).wf(),
            final(self).same_producers(*old(self)),
            final(self).txs() == old(self).txs().insert(
                transaction_id@,
                TxView {
                    id: transaction_id@,
                    producer_id,
                    status,
                    partitions: range_views(partitions@),
                    created_at_ms: now_ms,
                },
            ),
    {
        let ghost m = self.transactions@;
        let state = TransactionState {
            transaction_id: crate::text::owned(transaction_id),
            producer_id,
            status,
            partitions,
            created_at_ms: now_ms,
        };
        assert(tx_views(m.insert(transaction_id@, state)) =~= tx_views(m).insert(
            transaction_id@,
            state@,
        ));
        self.transactions.insert(crate::text::owned(transaction_id), state);
    }

    /// The undecided transactions that are older than `max_age_ms`.
    pub fn expired_ongoing_transaction_ids(&self, max_age_ms: u64, now_ms: u64) -> (r: Vec<String>)
        requires
            self.wf(),
        ensures
            text_list(r@).no_duplicates(),
            forall|k: Seq<char>| #[trigger]
                text_list(r@).contains(k) <==> self.txs().contains_key(k) && is_expired(
                    self.txs()[k],
                    now_ms,
                    max_age_ms,
                ),
    {
        let mut out: Vec<String> = Vec::new();
        let n: usize = self.transactions.len();
        let ghost names = self.transactions.names();
        let ghost txs = self.txs();
        let mut a: usize = 0;
        assert(text_list(out@) =~= Seq::empty());
        while a < n
            invariant
                a <= n,
                n == names.len(),
                names == self.transactions.names(),
                names.no_duplicates(),
                self.wf(),
                txs == self.txs(),
                forall|j: int|
                    0 <= j < n ==> self.transactions@.contains_key(#[trigger] names[j])
                        && self.transactions@[names[j]] == self.transactions.values()[j],
                text_list(out@).no_duplicates(),
                forall|k: Seq<char>| #[trigger]
                    text_list(out@).contains(k) <==> names.take(a as int).contains(k) && is_expired(
                        txs[k],
                        now_ms,
                        max_age_ms,
                    ),
            decreases n - a,
        {
            let state: &TransactionState = self.transactions.value_at(a);
            let ghost k0 = names[a as int];
            let ghost before = text_list(out@);
            proof {
                assert(self.transactions@.contains_key(k0));
                assert(txs[k0] == state@);
                lemma_taken(names, a as int);
            }
            let open: bool = state.status == TxStatus::Ongoing || state.status
                == TxStatus::PrepareCommit || state.status == TxStatus::PrepareAbort;
            if open && now_ms.saturating_sub(state.created_at_ms) > max_age_ms {
                out.push(self.transactions.name_at(a).clone());
                proof {
                    assert(text_list(out@) =~= before.push(k0));
                    lemma_names_pushed(before, k0);
                }
            }
            a = a + 1;
        }
        proof {
            assert(names.take(a as int) =~= names);
            assert forall|k: Seq<char>| names.contains(k) == txs.contains_key(k) by {}
        }
        out
    }

    /// Forgets transactions that are older than `max_age_ms`, and, where that is 0, those that
    /// are decided. Returns how many.
    pub fn prune_stale_transactions(&mut self, max_age_ms: u64, now_ms: u64) -> (r: usize)
        requires
            old(self).wf(),
        ensures
            final(self).wf(),
            final(self).same_producers(*old(self)),
            forall|k: Seq<char>| #[trigger]
                final(self).txs().contains_key(k) <==> old(self).txs().contains_key(k) && !is_stale(
                    old(self).txs()[k],
                    now_ms,
                    max_age_ms,
                ),
            forall|k: Seq<char>|
                final(self).txs().contains_key(k) ==> #[trigger] final(self).txs()[k] == old(
                    self,
                ).txs()[k],
            r == old(self).transactions.names().len() - final(self).transactions.names().len(),
    {
        let ghost start = self.txs();
        let mut count: usize = 0;
        let mut i: usize = 0;
        let mut n: usize = self.transactions.len();
        let total: usize = n;
        while i < n
            invariant
                i <= n,
                n == self.transactions.names().len(),
                n == self.transactions.values().len(),
                self.wf(),
                self.same_producers(*old(self)),
                total == old(self).transactions.names().len(),
                count + n == total,
                start == old(self).txs(),
                self.transactions.names().no_duplicates(),
                forall|j: int|
                    0 <= j < n ==> self.transactions@.contains_key(
                        #[trigger] self.transactions.names()[j],
                    ) && self.transactions@[self.transactions.names()[j]]
                        == self.transactions.values()[j],
                forall|k: Seq<char>| #[trigger]
                    self.txs().contains_key(k) ==> start.contains_key(k) && self.txs()[k]
                        == start[k],
                forall|k: Seq<char>| #[trigger]
                    start.contains_key(k) && !self.txs().contains_key(k) ==> is_stale(
                        start[k],
                        now_ms,
                        max_age_ms,
                    ),
                forall|j: int|
                    0 <= j < i ==> !is_stale(
                        (#[trigger] self.transactions.values()[j])@,
                        now_ms,
                        max_age_ms,
                    ),
            decreases n - i,
        {
            let state: &TransactionState = self.transactions.value_at(i);
            let age_ms: u64 = now_ms.saturating_sub(state.created_at_ms);
            let decided: bool = state.status == TxStatus::Committed || state.status
                == TxStatus::Aborted;
            if age_ms > max_age_ms || (max_age_ms == 0 && decided) {
                let name: String = self.transactions.name_at(i).clone();
                let ghost cur = self.transactions;
                let ghost m = self.transactions@;
                proof {
                    assert(self.txs().contains_key(name@));
                    assert(self.txs()[name@] == m[name@]@);
                }
                let _ = self.transactions.remove(name.as_str());
                proof {
                    assert(tx_views(m.remove(name@)) =~= tx_views(m).remove(name@));
                    assert(tx_views(m)[name@] == m[name@]@);
                    assert(is_stale(start[name@], now_ms, max_age_ms));
                    crate::assoc::lemma_position(cur.names(), i as int);
                }
                n = self.transactions.len();
                count = count + 1;
                proof {
                    assert forall|j: int| 0 <= j < i implies !is_stale(
                        (#[trigger] self.transactions.values()[j])@,
                        now_ms,
                        max_age_ms,
                    ) by {
                        assert(self.transactions.values()[j] == cur.values()[j]);
                    }
                }
            } else {
                i = i + 1;
            }
        }
        proof {
            assert forall|k: Seq<char>| #[trigger] self.txs().contains_key(k) implies !is_stale(
                start[k],
                now_ms,
                max_age_ms,
            ) by {
                assert(self.transactions.names().contains(k));
                let j = choose|j: int|
                    0 <= j < self.transactions.names().len() && self.transactions.names()[j] == k;
                assert(!is_stale(self.transactions.values()[j]@, now_ms, max_age_ms));
                assert(self.txs()[k] == self.transactions@[k]@);
            }
        }
        count
    }
}

proof fn lemma_taken(names: Seq<Seq<char>>, a: int)
    requires
        names.no_duplicates(),
        0 <= a < names.len(),
    ensures
        !names.take(a).contains(names[a]),
        forall|k: Seq<char>| #[trigger]
            names.take(a + 1).contains(k) <==> names.take(a).contains(k) || k == names[a],
{
    let shorter = names.take(a);
    let longer = names.take(a + 1);
    if shorter.contains(names[a]) {
        let j = choose|j: int| 0 <= j < shorter.len() && shorter[j] == names[a];
        assert(names[j] == names[a]);
    }
    assert forall|k: Seq<char>| #[trigger] longer.contains(k) <==> shorter.contains(k) || k
        == names[a] by {
        if shorter.contains(k) {
            let j = choose|j: int| 0 <= j < shorter.len() && shorter[j] == k;
            assert(longer[j] == k);
        }
        if k == names[a] {
            assert(longer[a] == k);
        }
        if longer.contains(k) {
            let j = choose|j: int| 0 <= j < longer.len() && longer[j] == k;
            if j < a {
                assert(shorter[j] == k);
            }
        }
    }
}

proof fn lemma_names_pushed(s: Seq<Seq<char>>, k: Seq<char>)
    requires
        s.no_duplicates(),
        !s.contains(k),
    ensures
        s.push(k).no_duplicates(),
        forall|x: Seq<char>| #[trigger] s.push(k).contains(x) <==> s.contains(x) || x == k,
{
    assert forall|x: Seq<char>| #[trigger] s.push(k).contains(x) <==> s.contains(x) || x == k by {
        if s.contains(x) {
            let i = choose|i: int| 0 <= i < s.len() && s[i] == x;
            assert(s.push(k)[i] == x);
        }
        if x == k {
            assert(s.push(k)[s.len() as int] == x);
        }
    }
}

} // verus!
