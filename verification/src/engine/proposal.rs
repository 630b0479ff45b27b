//! Changing the metadata, step by step: a record takes effect once the controllers have agreed.
use crate::assoc::AssocMap;
use crate::engine::commit::{ack_status, committed, not_committed, uncommitted_message, AckStatus};
use crate::engine::produce::{batch_noted, committed_to};
use crate::engine::state::StorageEngine;
use crate::internode::metadata_topic;
use crate::partition::BatchHeader;
use crate::text::owned;
use vstd::prelude::*;

verus! {

/// Where a proposal stands.
pub enum ProposePhase {
    Asked,
    /// The log is appending the record.
    Storing,
    /// The record is in the log, which is being synced.
    Syncing { offset: u64 },
    /// The controllers are asked.
    Agreeing { offset: u64 },
    /// The nodes in sync are taking the record over.
    Replicating { offset: u64 },
    /// It was answered for.
    Over,
}

/// What came of the last action.
pub enum ProposeEvent {
    Begin,
    /// The log appended the record, and gave it its offset.
    Stored { batch: BatchHeader },
    Synced,
    /// What the peers have acknowledged by now, by address. `timed_out` says whether the time is
    /// up, and `timeout` how long that was.
    Polled { acked: AssocMap<u64>, timed_out: bool, timeout: String },
    /// The action failed.
    Failed { reason: String },
}

/// What is to be done next.
pub enum ProposeAction {
    Append,
    Sync,
    /// Push the record to the peers, with the epoch and the committed offset.
    Push { offset: u64, epoch: u64, high_watermark: u64 },
    /// Look again at what the peers have acknowledged.
    Wait,
    /// Apply the record, and tell the peers the epoch and the committed offset, if there are any.
    Apply { offset: u64, broadcast: Option<(u64, u64)> },
    Refuse { reason: String },
}

/// The proposal is refused for that reason.
pub open spec fn refused(r: (ProposePhase, ProposeAction), reason: Seq<char>) -> bool {
    r.0 is Over && (r.1 matches ProposeAction::Refuse { reason: m } && m@ == reason)
}

/// The record is committed, and takes effect.
pub open spec fn agreed(
    before: StorageEngine,
    after: StorageEngine,
    offset: u64,
    has_peers: bool,
    r: (ProposePhase, ProposeAction),
) -> bool {
    &&& after.same_node(before)
    &&& exists|moved: bool| #[trigger]
        committed_to(before, after, metadata_topic(), 0, offset, moved)
    &&& r.0 is Over
    &&& r.1 == (ProposeAction::Apply {
        offset,
        broadcast: if has_peers {
            Some((after.role.epoch, after@.partitions[(metadata_topic(), 0)].committed_hw))
        } else {
            None
        },
    })
}

/// Whether the metadata log is open, and an offset can be counted.
pub open spec fn ready(e: StorageEngine, offset: u64) -> bool {
    e@.partitions.contains_key((metadata_topic(), 0u32)) && offset < u64::MAX
}

/// Whether an event can come in a phase, and the metadata log is open.
pub open spec fn expected(e: StorageEngine, at: ProposePhase, event: ProposeEvent) -> bool {
    match event {
        ProposeEvent::Begin => at is Asked,
        ProposeEvent::Stored { batch } => at is Storing && batch.wf() && ready(e, 0),
        ProposeEvent::Synced => at matches ProposePhase::Syncing { offset } && ready(e, offset),
        ProposeEvent::Polled { .. } => match at {
            ProposePhase::Agreeing { offset } => ready(e, offset),
            ProposePhase::Replicating { offset } => ready(e, offset),
            _ => false,
        },
        ProposeEvent::Failed { .. } => true,
    }
}

/// What comes of an event, and what becomes of the broker.
pub open spec fn stepped(
    before: StorageEngine,
    after: StorageEngine,
    at: ProposePhase,
    event: ProposeEvent,
    r: (ProposePhase, ProposeAction),
) -> bool {
    let c = before.config;
    let log = before@.partitions[(metadata_topic(), 0)];
    match (at, event) {
        (ProposePhase::Asked, ProposeEvent::Begin) => after == before && r.0 is Storing
            && r.1 is Append,
        (ProposePhase::Storing, ProposeEvent::Stored { batch }) => {
            &&& after.same_node(before)
            &&& exists|due: bool| #[trigger]
                batch_noted(before, after, metadata_topic(), 0, batch, due)
            &&& r.0 == (ProposePhase::Syncing { offset: batch.base_offset })
            &&& r.1 is Sync
        },
        (ProposePhase::Syncing { offset }, ProposeEvent::Synced) => if c.peer_addrs@.len() > 0 {
            &&& after == before
            &&& r.0 == (ProposePhase::Agreeing { offset })
            &&& r.1 == (ProposeAction::Push {
                offset,
                epoch: before.role.epoch,
                high_watermark: log.committed_hw,
            })
        } else {
            agreed(before, after, offset, false, r)
        },
        (ProposePhase::Agreeing { offset }, ProposeEvent::Polled { acked, timed_out, .. }) =>
            if committed(c, acked@, offset) {
                if c.min_insync_replicas > 1 {
                    &&& after == before
                    &&& r.0 == (ProposePhase::Replicating { offset })
                    &&& r.1 is Wait
                } else {
                    agreed(before, after, offset, true, r)
                }
            } else if timed_out {
                after == before && refused(r, not_committed(offset))
            } else {
                &&& after == before
                &&& r.0 == (ProposePhase::Agreeing { offset })
                &&& r.1 is Wait
            },
        (
            ProposePhase::Replicating { offset },
            ProposeEvent::Polled { acked, timed_out, timeout },
        ) => exists|status: AckStatus|
            {
                &&& #[trigger] ack_status(
                    before@,
                    c,
                    metadata_topic(),
                    0,
                    log.isr,
                    acked@,
                    offset,
                    timed_out,
                    timeout@,
                    status,
                )
                &&& match status {
                    AckStatus::Done => agreed(before, after, offset, true, r),
                    AckStatus::Wait => after == before && r.0 == (ProposePhase::Replicating {
                        offset,
                    }) && r.1 is Wait,
                    AckStatus::Refused { reason } => after == before && refused(r, reason@),
                }
            },
        (_, ProposeEvent::Failed { reason }) => after == before && refused(r, reason@),
        _ => false,
    }
}

fn refuse(reason: String) -> (r: (ProposePhase, ProposeAction))
    ensures
        refused(r, reason@),
{
    (ProposePhase::Over, ProposeAction::Refuse { reason })
}

impl StorageEngine {
    fn agree(&mut self, offset: u64, has_peers: bool) -> (r: (ProposePhase, ProposeAction))
        requires
            old(self).wf(),
            ready(*old(self), offset),
        ensures
            final(self).wf(),
            agreed(*old(self), *final(self), offset, has_peers, r),
    {
        let _ = self.commit_produced("__cluster_metadata", 0, offset);
        let broadcast: Option<(u64, u64)> = if has_peers {
            Some((self.role.epoch, self.read_bound("__cluster_metadata", 0)))
        } else {
            None
        };
        (ProposePhase::Over, ProposeAction::Apply { offset, broadcast })
    }

    /// Takes a proposal one step further: `event` is what came of the last action.
    pub fn propose_step(&mut self, at: ProposePhase, event: ProposeEvent) -> (r: (
        ProposePhase,
        ProposeAction,
    ))
        requires
            old(self).wf(),
            old(self).config.peer_addrs@.len() < usize::MAX,
            old(self).config.controller_peer_addrs@.len() < usize::MAX,
            expected(*old(self), at, event),
        ensures
            final(self).wf(),
            stepped(*old(self), *final(self), at, event, r),
    {
        match (at, event) {
            (ProposePhase::Asked, ProposeEvent::Begin) => (
                ProposePhase::Storing,
                ProposeAction::Append,
            ),
            (ProposePhase::Storing, ProposeEvent::Stored { batch }) => {
                let _ = self.batch_appended("__cluster_metadata", 0, &batch);
                (ProposePhase::Syncing { offset: batch.base_offset }, ProposeAction::Sync)
            },
            (ProposePhase::Syncing { offset }, ProposeEvent::Synced) => {
                if self.config.peer_addrs.len() > 0 {
                    let epoch: u64 = self.role.epoch;
                    let high_watermark: u64 = self.read_bound("__cluster_metadata", 0);
                    (
                        ProposePhase::Agreeing { offset },
                        ProposeAction::Push { offset, epoch, high_watermark },
                    )
                } else {
                    self.agree(offset, false)
                }
            },
            (ProposePhase::Agreeing { offset }, ProposeEvent::Polled { acked, timed_out, .. }) => {
                match self.await_metadata_commit(&acked, offset, timed_out) {
                    Some(true) => if self.config.min_insync_replicas > 1 {
                        (ProposePhase::Replicating { offset }, ProposeAction::Wait)
                    } else {
                        self.agree(offset, true)
                    },
                    Some(false) => refuse(uncommitted_message(offset)),
                    None => (ProposePhase::Agreeing { offset }, ProposeAction::Wait),
                }
            },
            (
                ProposePhase::Replicating { offset },
                ProposeEvent::Polled { acked, timed_out, timeout },
            ) => {
                let isr: Vec<u32> = match self.partitions.get("__cluster_metadata", 0) {
                    Some(p) => p.isr(),
                    None => Vec::new(),
                };
                let status: AckStatus = self.await_full_isr_ack(
                    "__cluster_metadata",
                    0,
                    &isr,
                    &acked,
                    offset,
                    timed_out,
                    timeout.as_str(),
                );
                match status {
                    AckStatus::Done => self.agree(offset, true),
                    AckStatus::Wait => (ProposePhase::Replicating { offset }, ProposeAction::Wait),
                    AckStatus::Refused { reason } => refuse(reason),
                }
            },
            (_, ProposeEvent::Failed { reason }) => refuse(reason),
            (_, _) => refuse(owned("out of turn")),
        }
    }
}

/// One step of a proposal.
pub struct ProposeStep {
    pub before: StorageEngine,
    pub after: StorageEngine,
    pub at: ProposePhase,
    pub event: ProposeEvent,
    pub r: (ProposePhase, ProposeAction),
}

/// `steps` are what was done, one after the other, for one proposal. Between two steps the broker
/// may have done other things.
pub open spec fn went(steps: Seq<ProposeStep>) -> bool {
    &&& steps.len() > 0 ==> steps[0].at is Asked
    &&& forall|i: int|
        #![trigger steps[i]]
        0 <= i < steps.len() ==> stepped(
            steps[i].before,
            steps[i].after,
            steps[i].at,
            steps[i].event,
            steps[i].r,
        )
    &&& forall|i: int| 0 < i < steps.len() ==> #[trigger] follows(steps, i)
}

/// The step begins where the one before it ended.
pub open spec fn follows(steps: Seq<ProposeStep>, i: int) -> bool {
    steps[i].at == steps[i - 1].r.0
}

/// Whether a majority of the controllers was seen to have the record at `offset`.
pub open spec fn shows_majority(s: ProposeStep, offset: u64) -> bool {
    s.at == (ProposePhase::Agreeing { offset }) && (s.event matches ProposeEvent::Polled { acked, .. }
        && committed(s.before.config, acked@, offset))
}

/// Whether the record at `offset` was synced.
pub open spec fn shows_synced(s: ProposeStep, offset: u64) -> bool {
    s.at == (ProposePhase::Syncing { offset }) && s.event is Synced
}

/// The offset that a phase is about, where the record has been synced.
pub open spec fn synced_offset(at: ProposePhase) -> Option<u64> {
    match at {
        ProposePhase::Agreeing { offset } => Some(offset),
        ProposePhase::Replicating { offset } => Some(offset),
        _ => None,
    }
}

proof fn lemma_one_step(s: ProposeStep)
    requires
        stepped(s.before, s.after, s.at, s.event, s.r),
    ensures
        synced_offset(s.r.0) matches Some(o) ==> synced_offset(s.at) == Some(o) || shows_synced(s, o),
        s.r.0 matches ProposePhase::Replicating { offset } ==> s.at == s.r.0 || shows_majority(
            s,
            offset,
        ),
        s.r.1 matches ProposeAction::Apply { offset, .. } ==> {
            &&& shows_synced(s, offset) || synced_offset(s.at) == Some(offset)
            &&& s.before.config.peer_addrs@.len() == 0 || shows_majority(s, offset) || s.at == (
            ProposePhase::Replicating { offset })
            &&& s.after@.partitions[(metadata_topic(), 0)].committed_hw > offset || offset
                == u64::MAX
        },
{
}

proof fn lemma_came_so_far(steps: Seq<ProposeStep>, n: int)
    requires
        went(steps),
        0 <= n < steps.len(),
    ensures
        synced_offset(steps[n].at) matches Some(o) ==> exists|i: int|
            0 <= i < n && shows_synced(#[trigger] steps[i], o),
        steps[n].at matches ProposePhase::Replicating { offset } ==> exists|i: int|
            0 <= i < n && shows_majority(#[trigger] steps[i], offset),
    decreases n,
{
    if n > 0 {
        lemma_came_so_far(steps, n - 1);
        let s = steps[n - 1];
        assert(follows(steps, n));
        lemma_one_step(s);
        if synced_offset(s.r.0) is Some {
            let o = synced_offset(s.r.0)->0;
            if !shows_synced(s, o) {
                let i = choose|i: int| 0 <= i < n - 1 && shows_synced(#[trigger] steps[i], o);
                assert(shows_synced(steps[i], o));
            }
        }
        if s.r.0 is Replicating {
            let o = s.r.0->Replicating_offset;
            if !shows_majority(s, o) {
                let i = choose|i: int| 0 <= i < n - 1 && shows_majority(#[trigger] steps[i], o);
                assert(shows_majority(steps[i], o));
            }
        }
    }
}

/// A record takes effect only once it is on disk, and, where there are peers, a majority of the
/// controllers has it too.
pub proof fn nothing_takes_effect_before_it_is_agreed(steps: Seq<ProposeStep>, n: int, offset: u64)
    requires
        went(steps),
        0 <= n < steps.len(),
        steps[n].r.1 matches ProposeAction::Apply { offset: o, .. } && o == offset,
    ensures
        exists|i: int| 0 <= i <= n && shows_synced(#[trigger] steps[i], offset),
        steps[n].before.config.peer_addrs@.len() == 0 || exists|i: int|
            0 <= i <= n && shows_majority(#[trigger] steps[i], offset),
        steps[n].after@.partitions[(metadata_topic(), 0)].committed_hw > offset || offset
            == u64::MAX,
{
    lemma_came_so_far(steps, n);
    let s = steps[n];
    lemma_one_step(s);
    if !shows_synced(s, offset) {
        let i = choose|i: int| 0 <= i < n && shows_synced(#[trigger] steps[i], offset);
        assert(shows_synced(steps[i], offset));
    }
    if s.before.config.peer_addrs@.len() > 0 && !shows_majority(s, offset) {
        let j = choose|j: int| 0 <= j < n && shows_majority(#[trigger] steps[j], offset);
        assert(shows_majority(steps[j], offset));
    }
}

/// Until a record takes effect, the committed offset of the metadata log stays where it is.
pub proof fn nothing_is_committed_before_it_is_agreed(s: ProposeStep)
    requires
        stepped(s.before, s.after, s.at, s.event, s.r),
        !(s.r.1 is Apply),
        s.before@.partitions.contains_key((metadata_topic(), 0u32)),
    ensures
        s.after@.partitions[(metadata_topic(), 0)].committed_hw == s.before@.partitions[(
            metadata_topic(),
            0,
        )].committed_hw,
{
}

} // verus!
