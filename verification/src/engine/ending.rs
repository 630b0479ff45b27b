//! Committing or aborting a transaction, step by step: what is to be written next, and what comes
//! of it.
use crate::engine::commit::shown;
use crate::engine::produce::marker_noted;
use crate::engine::state::StorageEngine;
use crate::engine::txn::{
    abort_begun, abort_finished, commit_begun, commit_finished, recorded, resolved_all, TxnEnding,
};
use crate::text::{concat3, concat4, decimal_text, owned};
use crate::transaction::manager::{TxStatus, CTRL_ABORT, CTRL_COMMIT};
use crate::transaction::ranges::{range_views, RangeView};
use crate::transaction::record::{record_bytes, TxRecord};
use vstd::prelude::*;
use vstd::string::*;

verus! {

/// Where the end of a transaction stands.
pub enum EndPhase {
    /// It was asked for.
    Asked,
    /// That it is about to end is being recorded.
    Preparing { ending: TxnEnding },
    /// Its partitions are being marked, one by one. `ends` says where the markers of the first
    /// of them stand.
    Marking { ending: TxnEnding, ends: Vec<(String, u32, u64)> },
    /// That it is committed is being recorded.
    Recording,
    /// The record is being synced.
    Syncing,
    /// It was answered for.
    Over,
}

/// What came of the last action.
pub enum EndEvent {
    Begin,
    /// The record was written, or could not be, which does not matter.
    Noted,
    /// The marker stands at this offset.
    Marked { offset: u64 },
    /// The record is in the log.
    Recorded,
    Synced,
    /// The log that was to be written to could not be opened.
    Unopened { reason: String },
    /// The action failed.
    Failed { reason: String },
}

/// What is to be done next.
pub enum EndAction {
    /// Record where the transaction stands, if that can be done.
    Note { record: Option<Vec<u8>> },
    /// Mark the end of the transaction in a partition, in which it began at `first`.
    Mark { topic: String, partition: u32, kind: u8, producer_id: u64, first: u64 },
    /// Record that the transaction is committed.
    Record { bytes: Vec<u8> },
    /// Sync the log of the transactions.
    Sync,
    /// The transaction has ended. `note` holds what is left to be recorded, as in `Note`.
    Answer { note: Option<Option<Vec<u8>>> },
    Refuse { reason: String },
}

/// The kind of marker that ends a transaction.
pub open spec fn marker_kind(commit: bool) -> u8 {
    if commit {
        CTRL_COMMIT
    } else {
        CTRL_ABORT
    }
}

/// The end is refused for that reason.
pub open spec fn refused(r: (EndPhase, EndAction), reason: Seq<char>) -> bool {
    r.0 is Over && (r.1 matches EndAction::Refuse { reason: m } && m@ == reason)
}

/// What comes after `ends` were marked: the next marker, or, when there is one in each partition,
/// the record of the commit, or the end of the abort.
pub open spec fn went_on(
    before: StorageEngine,
    after: StorageEngine,
    id: Seq<char>,
    commit: bool,
    ending: TxnEnding,
    ends: Seq<(String, u32, u64)>,
    r: (EndPhase, EndAction),
) -> bool {
    let ranges = range_views(ending.partitions@);
    if ends.len() < ranges.len() {
        let next = ranges[ends.len() as int];
        &&& after == before
        &&& r.0 matches EndPhase::Marking { ending: e, ends: n } && e == ending && n@ == ends
        &&& r.1 matches EndAction::Mark { topic, partition, kind, producer_id, first } && topic@
            == next.topic && partition == next.partition && kind == marker_kind(commit)
            && producer_id == ending.producer_id && first == next.start
    } else if commit {
        exists|record: Option<Vec<u8>>|
            {
                &&& #[trigger] recorded(
                    TxStatus::Committed,
                    ending.producer_id,
                    id,
                    resolved_all(ranges, ends),
                    record,
                )
                &&& after == before
                &&& match record {
                    Some(b) => r.0 is Recording && r.1 == (EndAction::Record { bytes: b }),
                    None => refused(r, unrecorded(id, "the record is too long"@)),
                }
            }
    } else {
        exists|x: Result<Option<Vec<u8>>, String>|
            {
                &&& #[trigger] abort_finished(before, after, id, ending.producer_id, ends, x)
                &&& after.same_but_transactions(before)
                &&& match x {
                    Ok(record) => r.0 is Over && r.1 == (EndAction::Answer { note: Some(record) }),
                    Err(m) => refused(r, m@),
                }
            }
    }
}

/// The message about a commit that could not be recorded.
pub open spec fn unrecorded(id: Seq<char>, reason: Seq<char>) -> Seq<char> {
    "Failed to durably record commit of '"@ + id + "': "@ + reason
}

/// `more` is `ends` and the marker of a partition at an offset.
pub open spec fn one_more(
    ends: Seq<(String, u32, u64)>,
    next: RangeView,
    offset: u64,
    more: Seq<(String, u32, u64)>,
) -> bool {
    &&& more.len() == ends.len() + 1
    &&& more.drop_last() == ends
    &&& more.last().0@ == next.topic
    &&& more.last().1 == next.partition
    &&& more.last().2 == offset
}

/// The partition that is being marked.
pub open spec fn marked_now(at: EndPhase) -> RangeView {
    range_views(at->Marking_ending.partitions@)[at->Marking_ends@.len() as int]
}

/// Whether the phase has a partition that is being marked.
pub open spec fn is_marking(at: EndPhase) -> bool {
    at matches EndPhase::Marking { ending, ends } && ends@.len() < ending.partitions@.len()
}

/// Whether an event can come in a phase, and the partition in question is there.
pub open spec fn expected(e: StorageEngine, at: EndPhase, event: EndEvent) -> bool {
    match event {
        EndEvent::Begin => at is Asked,
        EndEvent::Noted => at is Preparing,
        EndEvent::Marked { offset } => is_marking(at) && offset < u64::MAX
            && e@.partitions.contains_key((marked_now(at).topic, marked_now(at).partition)),
        EndEvent::Recorded => at is Recording,
        EndEvent::Synced => at is Syncing,
        EndEvent::Unopened { .. } => is_marking(at) || at is Recording,
        EndEvent::Failed { .. } => is_marking(at) || at is Recording || at is Syncing,
    }
}

/// What comes of an event, and what becomes of the broker.
pub open spec fn ended(
    before: StorageEngine,
    after: StorageEngine,
    id: Seq<char>,
    commit: bool,
    at: EndPhase,
    event: EndEvent,
    r: (EndPhase, EndAction),
) -> bool {
    match (at, event) {
        (EndPhase::Asked, EndEvent::Begin) => exists|
            x: Result<(TxnEnding, Option<Vec<u8>>), String>,
        |
            {
                &&& #[trigger] begun(before, after, id, commit, x)
                &&& match x {
                    Ok((ending, record)) => r.0 == (EndPhase::Preparing { ending }) && r.1 == (
                    EndAction::Note { record }),
                    Err(m) => refused(r, m@),
                }
            },
        (EndPhase::Preparing { ending }, EndEvent::Noted) => went_on(
            before,
            after,
            id,
            commit,
            ending,
            Seq::empty(),
            r,
        ),
        (EndPhase::Marking { ending, ends }, EndEvent::Marked { offset }) => exists|
            mid: StorageEngine,
            more: Seq<(String, u32, u64)>,
        |
            {
                &&& #[trigger] one_more(ends@, marked_now(at), offset, more)
                &&& mid.same_node(before)
                &&& #[trigger] marker_noted(
                    before,
                    mid,
                    marked_now(at).topic,
                    marked_now(at).partition,
                    offset,
                )
                &&& went_on(mid, after, id, commit, ending, more, r)
            },
        (EndPhase::Marking { .. }, EndEvent::Unopened { reason }) => after == before && refused(
            r,
            "Failed to get/create partition "@ + shown(
                marked_now(at).topic,
                marked_now(at).partition,
            ) + ": "@ + reason@,
        ),
        (EndPhase::Marking { .. }, EndEvent::Failed { reason }) => after == before && refused(
            r,
            (if commit {
                "Failed to write commit marker to "@
            } else {
                "Failed to write abort marker to "@
            }) + shown(marked_now(at).topic, marked_now(at).partition) + ": "@ + reason@,
        ),
        (EndPhase::Recording, EndEvent::Recorded) => after == before && r.0 is Syncing
            && r.1 is Sync,
        (EndPhase::Recording, EndEvent::Unopened { reason }) => after == before && refused(
            r,
            "Failed to open __transaction_state: "@ + reason@,
        ),
        (EndPhase::Recording, EndEvent::Failed { reason }) => after == before && refused(
            r,
            unrecorded(id, reason@),
        ),
        (EndPhase::Syncing, EndEvent::Synced) => exists|x: Result<(), String>|
            {
                &&& #[trigger] commit_finished(before, after, id, x)
                &&& after.same_but_transactions(before)
                &&& match x {
                    Ok(()) => r.0 is Over && r.1 == (EndAction::Answer { note: None }),
                    Err(m) => refused(r, m@),
                }
            },
        (EndPhase::Syncing, EndEvent::Failed { reason }) => after == before && refused(
            r,
            "Failed to flush commit of '"@ + id + "' to __transaction_state: "@ + reason@,
        ),
        _ => false,
    }
}

/// How the end of a transaction begins.
pub open spec fn begun(
    before: StorageEngine,
    after: StorageEngine,
    id: Seq<char>,
    commit: bool,
    x: Result<(TxnEnding, Option<Vec<u8>>), String>,
) -> bool {
    &&& after.same_but_transactions(before)
    &&& if commit {
        commit_begun(before, after, id, x)
    } else {
        abort_begun(before, after, id, x)
    }
}

fn refuse(reason: String) -> (r: (EndPhase, EndAction))
    ensures
        refused(r, reason@),
{
    (EndPhase::Over, EndAction::Refuse { reason })
}

fn place_of(topic: &str, partition: u32) -> (r: String)
    ensures
        r@ == shown(topic@, partition),
{
    let number: String = decimal_text(partition as u64);
    concat3(topic, "-", number.as_str())
}

impl StorageEngine {
    fn go_on(
        &mut self,
        id: &str,
        commit: bool,
        ending: TxnEnding,
        ends: Vec<(String, u32, u64)>,
    ) -> (r: (EndPhase, EndAction))
        requires
            old(self).wf(),
        ensures
            final(self).wf(),
            went_on(*old(self), *final(self), id@, commit, ending, ends@, r),
    {
        let n: usize = ends.len();
        if n < ending.partitions.len() {
            let topic: String = ending.partitions[n].0.clone();
            let partition: u32 = ending.partitions[n].1;
            let first: u64 = ending.partitions[n].2;
            let producer_id: u64 = ending.producer_id;
            let kind: u8 = if commit {
                CTRL_COMMIT
            } else {
                CTRL_ABORT
            };
            return (
                EndPhase::Marking { ending, ends },
                EndAction::Mark { topic, partition, kind, producer_id, first },
            );
        }
        if commit {
            let record: Option<Vec<u8>> = StorageEngine::commit_record(id, &ending, ends.as_slice());
            match record {
                Some(bytes) => (EndPhase::Recording, EndAction::Record { bytes }),
                None => refuse(
                    concat4(
                        "Failed to durably record commit of '",
                        id,
                        "': ",
                        "the record is too long",
                    ),
                ),
            }
        } else {
            match self.finish_abort(id, ending.producer_id, ends.as_slice()) {
                Ok(record) => (EndPhase::Over, EndAction::Answer { note: Some(record) }),
                Err(e) => refuse(e),
            }
        }
    }

    /// Takes the end of a transaction one step further, a commit or an abort: `event` is what
    /// came of the last action.
    pub fn end_step(&mut self, id: &str, commit: bool, at: EndPhase, event: EndEvent) -> (r: (
        EndPhase,
        EndAction,
    ))
        requires
            old(self).wf(),
            expected(*old(self), at, event),
        ensures
            final(self).wf(),
            ended(*old(self), *final(self), id@, commit, at, event, r),
    {
        let ghost phase = at;
        match (at, event) {
            (EndPhase::Asked, EndEvent::Begin) => {
                let x: Result<(TxnEnding, Option<Vec<u8>>), String> = if commit {
                    self.begin_commit(id)
                } else {
                    self.begin_abort(id)
                };
                assert(begun(*old(self), *self, id@, commit, x));
                match x {
                    Ok((ending, record)) => (
                        EndPhase::Preparing { ending },
                        EndAction::Note { record },
                    ),
                    Err(e) => refuse(e),
                }
            },
            (EndPhase::Preparing { ending }, EndEvent::Noted) => {
                let ends: Vec<(String, u32, u64)> = Vec::new();
                assert(ends@ =~= Seq::empty());
                self.go_on(id, commit, ending, ends)
            },
            (EndPhase::Marking { ending, ends }, EndEvent::Marked { offset }) => {
                let topic: String = ending.partitions[ends.len()].0.clone();
                let partition: u32 = ending.partitions[ends.len()].1;
                self.marker_appended(topic.as_str(), partition, offset);
                let ghost before = ends@;
                let mut more: Vec<(String, u32, u64)> = ends;
                more.push((topic, partition, offset));
                assert(more@.drop_last() =~= before);
                assert(one_more(before, marked_now(phase), offset, more@));
                self.go_on(id, commit, ending, more)
            },
            (EndPhase::Marking { ending, ends }, EndEvent::Unopened { reason }) => {
                let topic: &str = ending.partitions[ends.len()].0.as_str();
                let at: String = place_of(topic, ending.partitions[ends.len()].1);
                refuse(
                    concat4(
                        "Failed to get/create partition ",
                        at.as_str(),
                        ": ",
                        reason.as_str(),
                    ),
                )
            },
            (EndPhase::Marking { ending, ends }, EndEvent::Failed { reason }) => {
                let topic: &str = ending.partitions[ends.len()].0.as_str();
                let at: String = place_of(topic, ending.partitions[ends.len()].1);
                let head: &str = if commit {
                    "Failed to write commit marker to "
                } else {
                    "Failed to write abort marker to "
                };
                refuse(concat4(head, at.as_str(), ": ", reason.as_str()))
            },
            (EndPhase::Recording, EndEvent::Recorded) => (EndPhase::Syncing, EndAction::Sync),
            (EndPhase::Recording, EndEvent::Unopened { reason }) => {
                let mut message: String = owned("Failed to open __transaction_state: ");
                message.append(reason.as_str());
                refuse(message)
            },
            (EndPhase::Recording, EndEvent::Failed { reason }) => refuse(
                concat4(
                    "Failed to durably record commit of '",
                    id,
                    "': ",
                    reason.as_str(),
                ),
            ),
            (EndPhase::Syncing, EndEvent::Synced) => {
                match self.finish_commit(id) {
                    Ok(()) => (EndPhase::Over, EndAction::Answer { note: None }),
                    Err(e) => refuse(e),
                }
            },
            (EndPhase::Syncing, EndEvent::Failed { reason }) => refuse(
                concat4(
                    "Failed to flush commit of '",
                    id,
                    "' to __transaction_state: ",
                    reason.as_str(),
                ),
            ),
            (_, _) => refuse(owned("out of turn")),
        }
    }
}

/// One step in the end of a transaction.
pub struct EndStep {
    pub before: StorageEngine,
    pub after: StorageEngine,
    pub at: EndPhase,
    pub event: EndEvent,
    pub r: (EndPhase, EndAction),
}

/// `steps` are what was done, one after the other, to end the transaction. Between two steps the
/// broker may have done other things.
pub open spec fn went(steps: Seq<EndStep>, id: Seq<char>, commit: bool) -> bool {
    &&& steps.len() > 0 ==> steps[0].at is Asked
    &&& forall|i: int|
        #![trigger steps[i]]
        0 <= i < steps.len() ==> ended(
            steps[i].before,
            steps[i].after,
            id,
            commit,
            steps[i].at,
            steps[i].event,
            steps[i].r,
        )
    &&& forall|i: int| 0 < i < steps.len() ==> #[trigger] follows(steps, i)
}

/// The step begins where the one before it ended.
pub open spec fn follows(steps: Seq<EndStep>, i: int) -> bool {
    steps[i].at == steps[i - 1].r.0
}

/// Whether a step forgets the transaction.
pub open spec fn forgets(step: EndStep, id: Seq<char>) -> bool {
    step.before.transactions.txs().contains_key(id)
        && !step.after.transactions.txs().contains_key(id)
}

/// Whether bytes say that the transaction is committed.
pub open spec fn says_committed(bytes: Seq<u8>, id: Seq<char>) -> bool {
    exists|rec: TxRecord| #[trigger]
        record_bytes(rec) == bytes && rec.status is Committed && rec.id == id
}

/// A transaction that is being committed is forgotten only once the record that says so is in
/// the log and the log is synced.
pub proof fn a_commit_is_on_disk_before_it_is_forgotten(
    steps: Seq<EndStep>,
    id: Seq<char>,
    n: int,
)
    requires
        went(steps, id, true),
        0 <= n < steps.len(),
        forgets(steps[n], id),
    ensures
        n >= 2,
        steps[n - 2].r.1 matches EndAction::Record { bytes } && says_committed(bytes@, id),
        steps[n - 1].event is Recorded,
        steps[n - 1].r.1 is Sync,
        steps[n].event is Synced,
{
    let s = steps[n];
    assert(s.at is Syncing && s.event is Synced);
    let t = steps[n - 1];
    assert(follows(steps, n));
    assert(t.r.0 is Syncing);
    assert(t.at is Recording && t.event is Recorded) by {
        lemma_after(t, id, true);
    }
    let u = steps[n - 2];
    assert(follows(steps, n - 1));
    assert(u.r.0 is Recording);
    lemma_after(u, id, true);
}

proof fn lemma_after(s: EndStep, id: Seq<char>, commit: bool)
    requires
        ended(s.before, s.after, id, commit, s.at, s.event, s.r),
    ensures
        s.r.0 is Syncing ==> s.at is Recording && s.event is Recorded && s.r.1 is Sync,
        s.r.0 is Recording ==> commit && (s.r.1 matches EndAction::Record { bytes }
            && says_committed(bytes@, id)),
{
    if s.r.0 is Recording {
        let (ending, ends) = if s.at is Preparing {
            (s.at->Preparing_ending, Seq::empty())
        } else {
            let more = choose|more: Seq<(String, u32, u64)>|
                exists|mid: StorageEngine|
                    {
                        &&& #[trigger] one_more(
                            s.at->Marking_ends@,
                            marked_now(s.at),
                            s.event->Marked_offset,
                            more,
                        )
                        &&& mid.same_node(s.before)
                        &&& #[trigger] marker_noted(
                            s.before,
                            mid,
                            marked_now(s.at).topic,
                            marked_now(s.at).partition,
                            s.event->Marked_offset,
                        )
                        &&& went_on(mid, s.after, id, commit, s.at->Marking_ending, more, s.r)
                    };
            (s.at->Marking_ending, more)
        };
        let rec = TxRecord {
            status: TxStatus::Committed,
            producer_id: ending.producer_id,
            id,
            partitions: resolved_all(range_views(ending.partitions@), ends),
        };
        assert(s.r.1 matches EndAction::Record { bytes } && bytes@ == record_bytes(rec));
    }
}

/// When the end of a transaction is answered for, the transaction is forgotten. Whatever comes of
/// a step, no other transaction is touched by it.
pub proof fn only_the_ended_transaction_is_forgotten(s: EndStep, id: Seq<char>, commit: bool, k: Seq<char>)
    requires
        ended(s.before, s.after, id, commit, s.at, s.event, s.r),
        k != id,
    ensures
        s.r.1 is Answer ==> !s.after.transactions.txs().contains_key(id),
        s.after.transactions.txs().contains_key(k) == s.before.transactions.txs().contains_key(k),
        s.before.transactions.txs().contains_key(k) ==> s.after.transactions.txs()[k]
            == s.before.transactions.txs()[k],
{
}

} // verus!
