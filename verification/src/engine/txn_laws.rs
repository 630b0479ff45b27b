//! What transactions promise over their course.
use crate::engine::ending::{
    ended, follows, marked_now, one_more, went, went_on, EndAction, EndEvent, EndPhase, EndStep,
};
use crate::engine::produce::{marker_noted, producer_fault, transaction_fault};
use crate::engine::state::StorageEngine;
use crate::engine::txn::{
    abort_begun, abort_finished, begun_by, begun_producing, commit_begun, commit_finished,
    joined_by, last_record, recorded, resolved, resolved_all, taken_up, tx_at, tx_registered,
    InitStep, TxnEnding,
};
use crate::transaction::laws::{
    a_record_marks_its_partition, every_named_partition_ends, once_each, stands_among,
    what_is_named_joins,
};
use crate::transaction::manager::{TransactionalProducerState, TxStatus, TxView};
use crate::transaction::ranges::{range_view, range_views, RangeView};
use crate::transaction::record::{record_of, record_round_trip, TxRecord};
use vstd::prelude::*;

verus! {

/// Nothing is different of any transaction but `k`.
pub open spec fn others_untouched(before: StorageEngine, after: StorageEngine, k: Seq<char>) -> bool {
    let a = before.transactions.txs();
    let b = after.transactions.txs();
    forall|x: Seq<char>|
        x != k ==> (#[trigger] b.contains_key(x) <==> a.contains_key(x)) && (a.contains_key(x)
            ==> b[x] == a[x])
}

/// A transaction begins if and only if there is none under its id. It then belongs to the producer
/// that asked, is open, and covers nothing yet.
pub proof fn a_transaction_begins_once(
    before: StorageEngine,
    after: StorageEngine,
    k: Seq<char>,
    producer_id: u64,
    now_ms: u64,
    r: Result<Option<Vec<u8>>, String>,
)
    requires
        begun_by(before, after, k, producer_id, now_ms, r),
    ensures
        r is Ok <==> !before.transactions.txs().contains_key(k),
        r is Ok ==> ({
            let tx = after.transactions.txs()[k];
            &&& after.transactions.txs().contains_key(k)
            &&& tx.id == k
            &&& tx.status is Ongoing
            &&& tx.producer_id == producer_id
            &&& tx.partitions.len() == 0
            &&& tx.created_at_ms == now_ms
        }),
        r is Err ==> after.transactions.txs() == before.transactions.txs(),
        others_untouched(before, after, k),
{
}

/// Whether a producer may act under a transactional id: nobody else has it, or it has it under
/// its latest epoch.
pub open spec fn holds_id(
    ps: Map<Seq<char>, TransactionalProducerState>,
    k: Seq<char>,
    producer_id: u64,
    producer_epoch: i16,
) -> bool {
    ps.contains_key(k) ==> ps[k].producer_id == producer_id && ps[k].producer_epoch
        == producer_epoch
}

/// Partitions join a transaction if and only if its producer asks, under its latest epoch. Then
/// every one that is named is covered, those that were covered stay as they were, and a
/// transaction is begun where there was none.
pub proof fn named_partitions_are_covered(
    before: StorageEngine,
    after: StorageEngine,
    k: Seq<char>,
    producer_id: u64,
    producer_epoch: i16,
    topics: Seq<(String, Vec<u32>)>,
    now_ms: u64,
    r: Result<Option<Vec<u8>>, String>,
)
    requires
        joined_by(before, after, k, producer_id, producer_epoch, topics, now_ms, r),
    ensures
        ({
            let old_txs = before.transactions.txs();
            let tx = after.transactions.txs()[k];
            &&& r is Ok <==> holds_id(
                before.transactions.producers(),
                k,
                producer_id,
                producer_epoch,
            ) && (old_txs.contains_key(k) ==> old_txs[k].producer_id == producer_id)
            &&& r is Err ==> after.transactions.txs() == old_txs
            &&& r is Ok ==> after.transactions.txs().contains_key(k) && tx.producer_id
                == producer_id
            &&& r is Ok ==> forall|i: int, j: int|
                0 <= i < topics.len() && 0 <= j < topics[i].1@.len() ==> stands_among(
                    tx.partitions,
                    topics[i].0@,
                    #[trigger] topics[i].1@[j],
                )
            &&& r is Ok && old_txs.contains_key(k) ==> tx.status == old_txs[k].status
                && tx.created_at_ms == old_txs[k].created_at_ms && tx.partitions.len()
                >= old_txs[k].partitions.len() && tx.partitions.take(
                old_txs[k].partitions.len() as int,
            ) == old_txs[k].partitions
            &&& r is Ok && !old_txs.contains_key(k) ==> tx.status is Ongoing && tx.created_at_ms
                == now_ms
            &&& others_untouched(before, after, k)
        }),
{
    let old_txs = before.transactions.txs();
    let parts = if old_txs.contains_key(k) {
        old_txs[k].partitions
    } else {
        Seq::empty()
    };
    what_is_named_joins(parts, topics);
    if r is Ok {
        let tx = after.transactions.txs()[k];
        assert(tx.partitions.take(parts.len() as int) =~= parts);
    }
}

/// A record that is produced within a transaction marks its partition as covered from there on,
/// unless it was covered before. Where the transaction is not known, nothing happens.
pub proof fn produced_partitions_are_covered(
    before: StorageEngine,
    after: StorageEngine,
    k: Seq<char>,
    topic: Seq<char>,
    partition: u32,
    start_offset: u64,
    r: Option<Option<Vec<u8>>>,
)
    requires
        tx_registered(before, after, k, topic, partition, start_offset, r),
        before.transactions.txs().contains_key(k) ==> once_each(
            before.transactions.txs()[k].partitions,
        ),
    ensures
        r is Some <==> before.transactions.txs().contains_key(k),
        r is None ==> after.transactions.txs() == before.transactions.txs(),
        r is Some ==> stands_among(after.transactions.txs()[k].partitions, topic, partition)
            && once_each(after.transactions.txs()[k].partitions),
        r is Some ==> after.transactions.txs()[k] == (TxView {
            partitions: after.transactions.txs()[k].partitions,
            ..before.transactions.txs()[k]
        }),
        others_untouched(before, after, k),
{
    if before.transactions.txs().contains_key(k) {
        a_record_marks_its_partition(
            before.transactions.txs()[k].partitions,
            topic,
            partition,
            start_offset,
        );
    }
}

/// What is recorded of a transaction is read back: its id, its producer, where it stands, and its
/// partitions.
pub proof fn what_is_recorded_is_read_back(
    status: TxStatus,
    producer_id: u64,
    id: Seq<char>,
    partitions: Seq<RangeView>,
    bytes: Option<Vec<u8>>,
)
    requires
        recorded(status, producer_id, id, partitions, bytes),
    ensures
        bytes matches Some(b) ==> (record_of(b@) matches Some(rec) && rec.status == status
            && rec.producer_id == producer_id && rec.id == id && rec.partitions == partitions),
{
    if bytes is Some {
        record_round_trip(TxRecord { status, producer_id, id, partitions });
    }
}

/// The end of a transaction that covers the partitions `rs` goes to each of them.
pub open spec fn ends_all_of(ending: TxnEnding, rs: Seq<RangeView>) -> bool {
    &&& ending.partitions@.len() == rs.len()
    &&& forall|i: int|
        0 <= i < rs.len() ==> (#[trigger] ending.partitions@[i]).0@ == rs[i].topic
            && ending.partitions@[i].1 == rs[i].partition && ending.partitions@[i].2 == rs[i].start
            && ending.partitions@[i].3 == rs[i].end
}

proof fn lemma_ends_all(ending: TxnEnding, rs: Seq<RangeView>)
    requires
        range_views(ending.partitions@) == rs,
    ensures
        ends_all_of(ending, rs),
{
    assert forall|i: int| 0 <= i < rs.len() implies (#[trigger] ending.partitions@[i]).0@
        == rs[i].topic && ending.partitions@[i].1 == rs[i].partition && ending.partitions@[i].2
        == rs[i].start && ending.partitions@[i].3 == rs[i].end by {
        assert(rs[i] == range_view(ending.partitions@[i]));
    }
}

/// A commit begins if and only if the transaction is open. From then on it is about to be
/// committed, so no second commit and no abort can begin. The end goes to every partition that
/// the transaction covers.
pub proof fn only_an_open_transaction_is_committed(
    before: StorageEngine,
    after: StorageEngine,
    k: Seq<char>,
    r: Result<(TxnEnding, Option<Vec<u8>>), String>,
)
    requires
        commit_begun(before, after, k, r),
    ensures
        r is Ok <==> before.transactions.txs().contains_key(k)
            && before.transactions.txs()[k].status is Ongoing,
        r is Err ==> after.transactions.txs() == before.transactions.txs(),
        r matches Ok(x) ==> after.transactions.txs().contains_key(k)
            && after.transactions.txs()[k] == (TxView {
            status: TxStatus::PrepareCommit,
            ..before.transactions.txs()[k]
        }) && ends_all_of(x.0, before.transactions.txs()[k].partitions) && x.0.producer_id
            == before.transactions.txs()[k].producer_id,
        r matches Ok(x) ==> (x.1 matches Some(b) ==> (record_of(b@) matches Some(rec) && rec.id == k
            && rec.status is PrepareCommit)),
        others_untouched(before, after, k),
        r is Ok ==> forall|later: StorageEngine, again: Result<(TxnEnding, Option<Vec<u8>>), String>|
            (#[trigger] commit_begun(after, later, k, again) ==> again is Err) && (
            #[trigger] abort_begun(after, later, k, again) ==> again is Err),
{
    if r is Ok {
        let x = r->Ok_0;
        let tx = before.transactions.txs()[k];
        lemma_ends_all(x.0, tx.partitions);
        what_is_recorded_is_read_back(
            TxStatus::PrepareCommit,
            tx.producer_id,
            k,
            tx.partitions,
            x.1,
        );
    }
}

/// An abort begins if and only if the transaction is open or an abort of it has begun already, so
/// an abort that was broken off can be taken up again. No commit can begin after it. The end goes
/// to every partition that the transaction covers.
pub proof fn an_abort_can_be_taken_up_again(
    before: StorageEngine,
    after: StorageEngine,
    k: Seq<char>,
    r: Result<(TxnEnding, Option<Vec<u8>>), String>,
)
    requires
        abort_begun(before, after, k, r),
    ensures
        r is Ok <==> before.transactions.txs().contains_key(k) && (
        before.transactions.txs()[k].status is Ongoing
            || before.transactions.txs()[k].status is PrepareAbort),
        r is Err ==> after.transactions.txs() == before.transactions.txs(),
        r matches Ok(x) ==> after.transactions.txs().contains_key(k)
            && after.transactions.txs()[k] == (TxView {
            status: TxStatus::PrepareAbort,
            ..before.transactions.txs()[k]
        }) && ends_all_of(x.0, before.transactions.txs()[k].partitions) && x.0.producer_id
            == before.transactions.txs()[k].producer_id,
        r matches Ok(x) ==> (x.1 matches Some(b) ==> (record_of(b@) matches Some(rec) && rec.id == k
            && rec.status is PrepareAbort)),
        others_untouched(before, after, k),
        r is Ok ==> forall|later: StorageEngine, again: Result<(TxnEnding, Option<Vec<u8>>), String>|
            (#[trigger] commit_begun(after, later, k, again) ==> again is Err) && (
            #[trigger] abort_begun(after, later, k, again) ==> again is Ok),
{
    if r is Ok {
        let x = r->Ok_0;
        let tx = before.transactions.txs()[k];
        lemma_ends_all(x.0, tx.partitions);
        what_is_recorded_is_read_back(TxStatus::PrepareAbort, tx.producer_id, k, tx.partitions, x.1);
    }
}

/// A transaction that has ended is gone, and nothing else is: its id can begin anew.
pub proof fn an_ended_transaction_is_gone(
    before: StorageEngine,
    after: StorageEngine,
    k: Seq<char>,
    r: Result<(), String>,
)
    requires
        commit_finished(before, after, k, r),
    ensures
        r is Ok <==> before.transactions.txs().contains_key(k),
        !after.transactions.txs().contains_key(k),
        others_untouched(before, after, k),
{
}

/// An abort ends in a record that says so, in which each partition ends where its marker stands;
/// then the transaction is gone.
pub proof fn an_aborted_transaction_is_recorded(
    before: StorageEngine,
    after: StorageEngine,
    k: Seq<char>,
    producer_id: u64,
    ends: Seq<(String, u32, u64)>,
    r: Result<Option<Vec<u8>>, String>,
)
    requires
        abort_finished(before, after, k, producer_id, ends, r),
    ensures
        r is Ok <==> before.transactions.txs().contains_key(k),
        !after.transactions.txs().contains_key(k),
        others_untouched(before, after, k),
        r matches Ok(Some(b)) ==> ({
            let rs = before.transactions.txs()[k].partitions;
            record_of(b@) matches Some(rec) && rec.status is Aborted && rec.id == k
                && rec.producer_id == producer_id && rec.partitions.len() == rs.len() && (forall|
                i: int,
                j: int,
            |
                0 <= i < rs.len() && 0 <= j < ends.len() && ends[j].0@ == rs[i].topic && ends[j].1
                    == rs[i].partition && !crate::transaction::laws::ends_from(
                    ends,
                    j + 1,
                    rs[i].topic,
                    rs[i].partition,
                ) ==> (#[trigger] rec.partitions[i]).end == (#[trigger] ends[j]).2
                    && rec.partitions[i].start == rs[i].start)
        }),
{
    if r is Ok {
        let rs = before.transactions.txs()[k].partitions;
        every_named_partition_ends(rs, ends);
        what_is_recorded_is_read_back(
            TxStatus::Aborted,
            producer_id,
            k,
            crate::transaction::ranges::ended_all(rs, ends),
            r->Ok_0,
        );
    }
}

/// Once a producer has its id and epoch, exactly that id and epoch may act under the transactional
/// id: whoever had it before is fenced off.
pub proof fn a_new_epoch_fences_the_old_one(
    before: StorageEngine,
    after: StorageEngine,
    k: Seq<char>,
    r: Result<InitStep, String>,
    producer_id: u64,
    producer_epoch: i16,
)
    requires
        begun_producing(before, after, k, r),
        r matches Ok(InitStep::Register { producer_id: p, producer_epoch: e, .. }) && p
            == producer_id && e == producer_epoch,
    ensures
        forall|p: u64, e: i16| #[trigger]
            producer_fault(after@.producers, k, p, e) is None <==> p == producer_id && e
                == producer_epoch,
        before@.producers.contains_key(k) ==> producer_id == before@.producers[k].producer_id
            && producer_epoch == before@.producers[k].producer_epoch + 1,
        !before@.producers.contains_key(k) ==> producer_id == before@.next_producer_id
            && producer_epoch == 0 && after@.next_producer_id != producer_id,
        forall|x: Seq<char>|
            x != k ==> (#[trigger] after@.producers.contains_key(x)
                <==> before@.producers.contains_key(x)) && (before@.producers.contains_key(x)
                ==> after@.producers[x] == before@.producers[x]),
{
}

/// A producer gets its id only when no transaction is under way under its transactional id.
pub proof fn open_transactions_are_aborted_first(
    before: StorageEngine,
    after: StorageEngine,
    k: Seq<char>,
    r: Result<InitStep, String>,
)
    requires
        begun_producing(before, after, k, r),
        k.len() > 0,
        before.transactions.txs().contains_key(k),
        !(before.transactions.txs()[k].status is Committed),
        !(before.transactions.txs()[k].status is Aborted),
    ensures
        r matches Ok(InitStep::AbortFirst),
        after@ == before@,
{
}

/// A batch of a transaction is taken if and only if the transaction is open and its producer is
/// the one that holds the transactional id, if anybody does.
pub proof fn only_the_holder_writes(
    ps: Map<Seq<char>, TransactionalProducerState>,
    txs: Map<Seq<char>, TxView>,
    k: Seq<char>,
    producer_id: u64,
    producer_epoch: i16,
)
    ensures
        transaction_fault(ps, txs, k, producer_id, producer_epoch) is None <==> txs.contains_key(k)
            && txs[k].status is Ongoing && (ps.contains_key(k) ==> producer_id != 0
            && ps[k].producer_id == producer_id && ps[k].producer_epoch == producer_epoch),
{
}

/// The action asks for the marker of the `i`-th partition of the end.
pub open spec fn marks(a: EndAction, ending: TxnEnding, i: int, commit: bool) -> bool {
    a matches EndAction::Mark { topic, partition, kind, producer_id, first } && topic@
        == ending.partitions@[i].0@ && partition == ending.partitions@[i].1 && kind == (if commit {
        0x01u8
    } else {
        0x02u8
    }) && producer_id == ending.producer_id && first == ending.partitions@[i].2
}

/// The `j`-th marker was reported at the offset that `ends` tells.
pub open spec fn told_at(
    steps: Seq<EndStep>,
    ending: TxnEnding,
    ends: Seq<(String, u32, u64)>,
    j: int,
) -> bool {
    &&& steps[j + 2].event == (EndEvent::Marked { offset: ends[j].2 })
    &&& ends[j].0@ == ending.partitions@[j].0@
    &&& ends[j].1 == ending.partitions@[j].1
}

/// In the course of an end, up to step `n`, the partitions were marked one after the other.
spec fn marked_so_far(
    steps: Seq<EndStep>,
    commit: bool,
    ending: TxnEnding,
    ends: Seq<(String, u32, u64)>,
    n: int,
) -> bool {
    &&& steps[0].r.0 == (EndPhase::Preparing { ending })
    &&& ends.len() == n - 1
    &&& forall|j: int| 0 <= j < ends.len() ==> #[trigger] told_at(steps, ending, ends, j)
    &&& forall|j: int|
        0 <= j < ends.len() ==> marks((#[trigger] steps[j + 1]).r.1, ending, j, commit)
}

/// Where an end stands when `ends` have been marked at the end of step `n`.
proof fn lemma_marked(
    steps: Seq<EndStep>,
    id: Seq<char>,
    commit: bool,
    n: int,
) -> (x: (TxnEnding, Seq<(String, u32, u64)>, StorageEngine))
    requires
        went(steps, id, commit),
        1 <= n < steps.len(),
        steps[n].at is Preparing || steps[n].at is Marking,
        steps[n].event is Noted || steps[n].event is Marked,
    ensures
        marked_so_far(steps, commit, x.0, x.1, n),
        steps[n].at is Preparing ==> n == 1,
        went_on(x.2, steps[n].after, id, commit, x.0, x.1, steps[n].r),
        x.2.transactions.transactions == steps[n].before.transactions.transactions,
    decreases n,
{
    let s = steps[n];
    assert(follows(steps, n));
    let t = steps[n - 1];
    if s.at is Preparing {
        assert(t.at is Asked && t.event is Begin) by {
            if t.at is Preparing || (t.at is Marking && t.event is Marked) {
                let y = lemma_marked_at(t, id, commit);
            }
        }
        if n > 1 {
            assert(follows(steps, n - 1));
            assert(steps[n - 2].r.0 is Asked);
            lemma_never_asked(steps[n - 2], id, commit);
        }
        (s.at->Preparing_ending, Seq::empty(), s.before)
    } else {
        let ending = s.at->Marking_ending;
        let ends = s.at->Marking_ends@;
        assert(t.r.0 is Marking);
        assert((t.at is Preparing && t.event is Noted) || (t.at is Marking && t.event is Marked));
        assert(n > 1);
        let (e1, n1, m1) = lemma_marked(steps, id, commit, n - 1);
        assert(n1 == ends && e1 == ending);
        assert(marks(t.r.1, ending, n - 2, commit)) by {
            assert(range_views(ending.partitions@)[ends.len() as int] == range_view(
                ending.partitions@[ends.len() as int],
            ));
        }
        let (e2, more, mid) = lemma_marked_at(s, id, commit);
        assert forall|j: int| 0 <= j < more.len() implies #[trigger] told_at(
            steps,
            ending,
            more,
            j,
        ) by {
            if j < ends.len() {
                assert(more.drop_last()[j] == more[j]);
                assert(told_at(steps, ending, ends, j));
            } else {
                assert(more[j] == more.last());
                assert(range_views(ending.partitions@)[j] == range_view(ending.partitions@[j]));
            }
        }
        assert forall|j: int| 0 <= j < more.len() implies marks(
            (#[trigger] steps[j + 1]).r.1,
            ending,
            j,
            commit,
        ) by {
            if j == ends.len() {
                assert(steps[j + 1] == t);
            }
        }
        (ending, more, mid)
    }
}

proof fn lemma_never_asked(s: EndStep, id: Seq<char>, commit: bool)
    requires
        ended(s.before, s.after, id, commit, s.at, s.event, s.r),
    ensures
        !(s.r.0 is Asked),
{
    if s.at is Preparing || (s.at is Marking && s.event is Marked) {
        let y = lemma_marked_at(s, id, commit);
    }
}

proof fn lemma_marked_at(s: EndStep, id: Seq<char>, commit: bool) -> (x: (
    TxnEnding,
    Seq<(String, u32, u64)>,
    StorageEngine,
))
    requires
        ended(s.before, s.after, id, commit, s.at, s.event, s.r),
        s.at is Preparing || (s.at is Marking && s.event is Marked),
    ensures
        went_on(x.2, s.after, id, commit, x.0, x.1, s.r),
        x.2.transactions.transactions == s.before.transactions.transactions,
        s.at is Preparing ==> x.0 == s.at->Preparing_ending && x.1 == Seq::<
            (String, u32, u64),
        >::empty(),
        s.at is Marking ==> x.0 == s.at->Marking_ending && one_more(
            s.at->Marking_ends@,
            marked_now(s.at),
            s.event->Marked_offset,
            x.1,
        ),
        !(s.r.0 is Preparing) && !(s.r.0 is Asked),
{
    if s.at is Preparing {
        (s.at->Preparing_ending, Seq::empty(), s.before)
    } else {
        let (mid, more) = choose|mid: StorageEngine, more: Seq<(String, u32, u64)>|
            {
                &&& #[trigger] one_more(
                    s.at->Marking_ends@,
                    marked_now(s.at),
                    s.event->Marked_offset,
                    more,
                )
                &&& mid.same_node(s.before)
                &&& #[trigger] marker_noted(
                    s.before,
                    mid,
                    marked_now(s.at).topic,
                    marked_now(s.at).partition,
                    s.event->Marked_offset,
                )
                &&& went_on(mid, s.after, id, commit, s.at->Marking_ending, more, s.r)
            };
        (s.at->Marking_ending, more, mid)
    }
}

/// An end that has been recorded, or answered for, has put a marker into every partition that it
/// goes to, one after the other: a commit's into those of a commit, an abort's into those of an
/// abort. Each was reported to be in the log before the next was asked for.
pub proof fn every_partition_is_marked(
    steps: Seq<EndStep>,
    id: Seq<char>,
    commit: bool,
    n: int,
    ending: TxnEnding,
)
    requires
        went(steps, id, commit),
        0 <= n < steps.len(),
        steps[n].r.1 is Record || (steps[n].r.1 is Answer && !commit),
        steps[0].r.0 == (EndPhase::Preparing { ending }),
    ensures
        n == ending.partitions@.len() + 1,
        forall|i: int|
            0 <= i < ending.partitions@.len() ==> marks(
                (#[trigger] steps[i + 1]).r.1,
                ending,
                i,
                commit,
            ) && steps[i + 2].event is Marked,
{
    let s = steps[n];
    assert(ended(s.before, s.after, id, commit, s.at, s.event, s.r));
    assert(s.at is Preparing || (s.at is Marking && s.event is Marked) || s.at is Syncing);
    if s.at is Syncing {
        assert(follows(steps, n));
        let t = steps[n - 1];
        assert(ended(t.before, t.after, id, commit, t.at, t.event, t.r));
        assert(t.at is Recording) by {
            if t.at is Preparing || (t.at is Marking && t.event is Marked) {
                let y = lemma_marked_at(t, id, commit);
            }
        }
        assert(follows(steps, n - 1));
        let u = steps[n - 2];
        assert(ended(u.before, u.after, id, commit, u.at, u.event, u.r));
        assert(u.at is Preparing || (u.at is Marking && u.event is Marked));
        let y = lemma_marked_at(u, id, commit);
        assert(false);
    }
    let (e, ends, mid) = lemma_marked(steps, id, commit, n);
    assert(range_views(e.partitions@).len() == e.partitions@.len());
    assert(ends.len() >= e.partitions@.len());
    assert(ends.len() == e.partitions@.len()) by {
        if n >= 2 {
            assert(follows(steps, n));
            let t = steps[n - 1];
            assert(ended(t.before, t.after, id, commit, t.at, t.event, t.r));
            let (e1, ends1, mid1) = lemma_marked(steps, id, commit, n - 1);
            assert(t.r.0 is Marking);
            assert(ends1.len() < e1.partitions@.len());
        }
    }
    assert forall|i: int| 0 <= i < ending.partitions@.len() implies marks(
        (#[trigger] steps[i + 1]).r.1,
        ending,
        i,
        commit,
    ) && steps[i + 2].event is Marked by {
        assert(told_at(steps, ending, ends, i));
    }
}

/// The record of a commit lists every partition with the offset of its marker: the first that is
/// told of it. One without a marker keeps its end.
pub proof fn a_commit_tells_where_it_ends(rs: Seq<RangeView>, ends: Seq<(String, u32, u64)>, k: int, j: int)
    requires
        0 <= k < rs.len(),
        0 <= j <= ends.len(),
        forall|i: int|
            0 <= i < j ==> (#[trigger] ends[i]).0@ != rs[k].topic || ends[i].1 != rs[k].partition,
        j < ends.len() ==> ends[j].0@ == rs[k].topic && ends[j].1 == rs[k].partition,
    ensures
        resolved_all(rs, ends).len() == rs.len(),
        resolved_all(rs, ends)[k].topic == rs[k].topic,
        resolved_all(rs, ends)[k].partition == rs[k].partition,
        resolved_all(rs, ends)[k].start == rs[k].start,
        resolved_all(rs, ends)[k].end == (if j < ends.len() {
            ends[j].2
        } else {
            rs[k].end
        }),
{
    lemma_resolved(rs[k], ends, j);
}

proof fn lemma_resolved(r: RangeView, ends: Seq<(String, u32, u64)>, j: int)
    requires
        0 <= j <= ends.len(),
        forall|i: int|
            0 <= i < j ==> (#[trigger] ends[i]).0@ != r.topic || ends[i].1 != r.partition,
        j < ends.len() ==> ends[j].0@ == r.topic && ends[j].1 == r.partition,
    ensures
        resolved(r, ends) == (RangeView {
            end: if j < ends.len() {
                ends[j].2
            } else {
                r.end
            },
            ..r
        }),
    decreases ends.len(),
{
    if ends.len() > 0 && j > 0 {
        assert(ends[0].0@ != r.topic || ends[0].1 != r.partition);
        let rest = ends.skip(1);
        assert forall|i: int| 0 <= i < j - 1 implies (#[trigger] rest[i]).0@ != r.topic || rest[i].1
            != r.partition by {
            assert(rest[i] == ends[i + 1]);
        }
        lemma_resolved(r, rest, j - 1);
    }
}

/// What a log says of a transaction is what its last record says: the one after which no other
/// record is of that transaction.
pub proof fn the_last_record_counts(values: Seq<Seq<u8>>, id: Seq<char>, i: int)
    requires
        0 <= i < values.len(),
        record_of(values[i]) matches Some(r) && r.id == id,
        forall|j: int|
            i < j < values.len() ==> !(record_of(#[trigger] values[j]) matches Some(r) && r.id
                == id),
    ensures
        last_record(values, id) == record_of(values[i]),
    decreases values.len(),
{
    if i < values.len() - 1 {
        let n = values.len() - 1;
        assert(!(record_of(values[n]) matches Some(r) && r.id == id));
        the_last_record_counts(values.drop_last(), id, i);
    }
}

/// A transaction that no record is of is not found in the log.
pub proof fn what_is_not_recorded_is_not_found(values: Seq<Seq<u8>>, id: Seq<char>)
    requires
        forall|j: int|
            0 <= j < values.len() ==> !(record_of(#[trigger] values[j]) matches Some(r) && r.id
                == id),
    ensures
        last_record(values, id) is None,
    decreases values.len(),
{
    if values.len() > 0 {
        let n = values.len() - 1;
        assert(!(record_of(values[n]) matches Some(r) && r.id == id));
        what_is_not_recorded_is_not_found(values.drop_last(), id);
    }
}

/// A producer without a transactional id gets a number that was never given, in epoch zero, and
/// the next one gets the next number. Nothing else changes.
pub proof fn a_plain_producer_gets_a_fresh_number(
    before: StorageEngine,
    after: StorageEngine,
    k: Seq<char>,
    r: Result<InitStep, String>,
)
    requires
        begun_producing(before, after, k, r),
        k.len() == 0,
    ensures
        r matches Ok(InitStep::Done { producer_id, producer_epoch }) && producer_id
            == before@.next_producer_id && producer_epoch == 0,
        before@.next_producer_id < u64::MAX ==> after@.next_producer_id
            == before@.next_producer_id + 1,
        after@.producers == before@.producers,
        after@.topics == before@.topics,
        after@.partitions == before@.partitions,
        after@.brokers == before@.brokers,
{
}

/// A transactional id whose epochs are used up is refused, and so is no other; a refusal changes
/// nothing.
pub proof fn epochs_run_out(
    before: StorageEngine,
    after: StorageEngine,
    k: Seq<char>,
    r: Result<InitStep, String>,
)
    requires
        begun_producing(before, after, k, r),
    ensures
        r is Err ==> k.len() > 0 && before@.producers.contains_key(k)
            && before@.producers[k].producer_epoch == i16::MAX && after@ == before@,
        r matches Ok(step) ==> (step is AbortFirst ==> after@ == before@),
        r matches Ok(InitStep::Register { .. }) ==> after@.topics == before@.topics
            && after@.partitions == before@.partitions && after@.log_index == before@.log_index,
{
}

/// A transaction that a log shows to be under way is taken up as it was recorded: its producer, its
/// status and its partitions; its age counts from now.
pub proof fn a_transaction_is_taken_up_as_recorded(r: TxRecord, now_ms: u64)
    ensures
        taken_up(r, now_ms).id == r.id,
        taken_up(r, now_ms).producer_id == r.producer_id,
        taken_up(r, now_ms).status == r.status,
        taken_up(r, now_ms).partitions == r.partitions,
        taken_up(r, now_ms).created_at_ms == now_ms,
{
}

/// A transaction is found under its id, and none where there is none.
pub proof fn a_transaction_is_found_under_its_id(txs: Map<Seq<char>, TxView>, k: Seq<char>)
    ensures
        txs.contains_key(k) ==> tx_at(txs, k) == Some(txs[k]),
        !txs.contains_key(k) ==> tx_at(txs, k) is None,
{
}

} // verus!
