//! What of a share partition outlives the broker process.
//!
//! A lease belongs to a member whose connection is gone once the broker restarts, so only the
//! state of each run and its delivery count are kept.
use crate::share::batches::{
    covered_at, covering, leases, lemma_lease_at, ordered, pending, InFlightBatch, Lease,
    ShareRecordState, MAX_TIME,
};
use crate::share::partition::{frontier, SharePartition};
use crate::share::timers::{expiries, ExpiryTimer};
use vstd::prelude::*;

verus! {

/// What is kept of a run.
#[derive(Debug, Clone, Copy, PartialEq, Eq, Structural)]
pub struct PersistedBatch {
    pub first_offset: u64,
    pub last_offset: u64,
    pub state: ShareRecordState,
    pub delivery_count: u16,
}

/// The byte that stands for a state.
pub open spec fn state_byte(state: ShareRecordState) -> u8 {
    match state {
        ShareRecordState::Available => 0,
        ShareRecordState::Acquired => 1,
        ShareRecordState::Acknowledged => 2,
        ShareRecordState::Archived => 3,
    }
}

pub fn state_to_byte(state: ShareRecordState) -> (r: u8)
    ensures
        r == state_byte(state),
{
    match state {
        ShareRecordState::Available => 0,
        ShareRecordState::Acquired => 1,
        ShareRecordState::Acknowledged => 2,
        ShareRecordState::Archived => 3,
    }
}

/// The state that a byte stands for. An unknown byte stands for none.
pub fn state_from_byte(byte: u8) -> (r: Option<ShareRecordState>)
    ensures
        r is Some <==> byte <= 3,
        r matches Some(state) ==> state_byte(state) == byte,
{
    if byte == 0 {
        Some(ShareRecordState::Available)
    } else if byte == 1 {
        Some(ShareRecordState::Acquired)
    } else if byte == 2 {
        Some(ShareRecordState::Acknowledged)
    } else if byte == 3 {
        Some(ShareRecordState::Archived)
    } else {
        None
    }
}

/// What is kept of the run `b`.
pub open spec fn kept(b: InFlightBatch) -> PersistedBatch {
    PersistedBatch {
        first_offset: b.first_offset,
        last_offset: b.last_offset,
        state: b.state,
        delivery_count: b.delivery_count,
    }
}

/// The kept runs begin at `start` or later, stand in order and do not overlap.
pub open spec fn kept_in_order(start: u64, batches: Seq<PersistedBatch>) -> bool {
    &&& forall|i: int|
        0 <= i < batches.len() ==> start <= (#[trigger] batches[i]).first_offset
            <= batches[i].last_offset < u64::MAX
    &&& forall|i: int, j: int|
        0 <= i < j < batches.len() ==> (#[trigger] batches[i]).last_offset < (
        #[trigger] batches[j]).first_offset
}

/// The lease after a restart: a record that was held is available again, and its deliveries
/// stay counted.
pub open spec fn restarted(l: Lease, lock_timeout: u64) -> Lease {
    Lease {
        state: if l.state is Acquired {
            ShareRecordState::Available
        } else {
            l.state
        },
        owner: None,
        acquired_at: None,
        lock_timeout,
        delivery_count: l.delivery_count,
    }
}

/// Whether kept runs begin at `start` or later, stand in order and do not overlap.
pub fn check_order(start: u64, batches: &[PersistedBatch]) -> (r: bool)
    ensures
        r == kept_in_order(start, batches@),
{
    let mut i: usize = 0;
    while i < batches.len()
        invariant
            i <= batches@.len(),
            kept_in_order(start, batches@.take(i as int)),
        decreases batches@.len() - i,
    {
        let b = batches[i];
        let floor_ok: bool = if i == 0 {
            start <= b.first_offset
        } else {
            batches[i - 1].last_offset < b.first_offset
        };
        if !floor_ok || b.last_offset < b.first_offset || b.last_offset == u64::MAX {
            assert(i > 0 ==> batches@[i - 1].last_offset <= u64::MAX);
            return false;
        }
        proof {
            let ps = batches@.take(i + 1);
            let before = batches@.take(i as int);
            assert forall|a: int, c: int| 0 <= a < c < ps.len() implies (#[trigger] ps[a]).last_offset
                < (#[trigger] ps[c]).first_offset by {
                if c < i {
                    assert(before[a].last_offset < before[c].first_offset);
                } else if a < i - 1 {
                    assert(before[a].last_offset < before[i - 1].first_offset);
                    assert(before[i - 1] == batches@[i - 1]);
                }
            }
            assert forall|a: int| 0 <= a < ps.len() implies start <= (#[trigger] ps[a]).first_offset
                <= ps[a].last_offset < u64::MAX by {
                if a < i {
                    assert(before[a] == ps[a]);
                } else if i > 0 {
                    assert(before[i - 1] == batches@[i - 1]);
                }
            }
        }
        i = i + 1;
    }
    assert(batches@.take(i as int) =~= batches@);
    true
}

impl SharePartition {
    /// A partition of which nothing is in flight yet.
    pub fn new(
        topic: String,
        partition: u32,
        group_id: String,
        default_lock_timeout: u64,
        max_delivery_attempts: u16,
        initial_start_offset: u64,
    ) -> (r: Self)
        requires
            default_lock_timeout <= MAX_TIME,
        ensures
            r.wf(),
            r.topic == topic,
            r.partition == partition,
            r.group_id == group_id,
            r.default_lock_timeout == default_lock_timeout,
            r.max_delivery_attempts == max_delivery_attempts,
            r.start_offset == initial_start_offset,
            r.next_fetch_offset == initial_start_offset,
            r.leases() == Map::<u64, Lease>::empty(),
            r.version == 0,
    {
        let r = SharePartition {
            topic,
            partition,
            group_id,
            default_lock_timeout,
            max_delivery_attempts,
            start_offset: initial_start_offset,
            next_fetch_offset: initial_start_offset,
            batches: Vec::new(),
            timers: Vec::new(),
            version: 0,
        };
        proof {
            assert(expiries(r.timers@) =~= pending(r.batches@));
            assert(r.leases() =~= Map::<u64, Lease>::empty());
        }
        r
    }

    /// The version of what would be kept: it moves whenever that changes.
    pub fn state_version(&self) -> (r: u64)
        ensures
            r == self.version,
    {
        self.version
    }

    /// What is kept of the partition: its start watermark and its runs.
    pub fn snapshot(&self) -> (r: (u64, Vec<PersistedBatch>))
        ensures
            r.0 == self.start_offset,
            r.1@ == self.batches@.map_values(|b: InFlightBatch| kept(b)),
            self.wf() ==> kept_in_order(r.0, r.1@),
    {
        let mut out: Vec<PersistedBatch> = Vec::new();
        let mut i: usize = 0;
        while i < self.batches.len()
            invariant
                i <= self.batches@.len(),
                out@ == self.batches@.take(i as int).map_values(|b: InFlightBatch| kept(b)),
            decreases self.batches@.len() - i,
        {
            let b = &self.batches[i];
            out.push(
                PersistedBatch {
                    first_offset: b.first_offset,
                    last_offset: b.last_offset,
                    state: b.state,
                    delivery_count: b.delivery_count,
                },
            );
            i = i + 1;
            assert(out@ =~= self.batches@.take(i as int).map_values(|b: InFlightBatch| kept(b)));
        }
        assert(self.batches@.take(i as int) =~= self.batches@);
        proof {
            if self.wf() {
                assert forall|k: int| 0 <= k < out@.len() implies self.start_offset <= (
                #[trigger] out@[k]).first_offset <= out@[k].last_offset < u64::MAX by {
                    assert(self.batches@[k].wf());
                }
                assert forall|a: int, c: int| 0 <= a < c < out@.len() implies (
                #[trigger] out@[a]).last_offset < (#[trigger] out@[c]).first_offset by {
                    assert(self.batches@[a].last_offset < self.batches@[c].first_offset);
                }
            }
        }
        (self.start_offset, out)
    }

    /// The partition as it was kept. Records that were held are available again, under the
    /// delivery counts that they had.
    pub fn restore(
        topic: String,
        partition: u32,
        group_id: String,
        default_lock_timeout: u64,
        max_delivery_attempts: u16,
        start_offset: u64,
        batches: Vec<PersistedBatch>,
    ) -> (r: Self)
        requires
            default_lock_timeout <= MAX_TIME,
            kept_in_order(start_offset, batches@),
        ensures
            r.wf(),
            r.topic == topic,
            r.partition == partition,
            r.group_id == group_id,
            r.default_lock_timeout == default_lock_timeout,
            r.max_delivery_attempts == max_delivery_attempts,
            r.start_offset == start_offset,
            r.next_fetch_offset == (if batches@.len() == 0 {
                start_offset as int
            } else {
                batches@.last().last_offset + 1
            }),
            r.batches@.len() == batches@.len(),
            forall|i: int|
                0 <= i < batches@.len() ==> (#[trigger] r.batches@[i]).first_offset
                    == batches@[i].first_offset && r.batches@[i].last_offset
                    == batches@[i].last_offset && r.batches@[i].lease() == kept_lease(
                    batches@[i],
                    default_lock_timeout,
                ),
            r.timers@.len() == 0,
            r.version == 0,
    {
        let mut runs: Vec<InFlightBatch> = Vec::new();
        let mut i: usize = 0;
        while i < batches.len()
            invariant
                i <= batches@.len(),
                default_lock_timeout <= MAX_TIME,
                kept_in_order(start_offset, batches@),
                runs@.len() == i,
                forall|k: int|
                    0 <= k < i ==> (#[trigger] runs@[k]).first_offset == batches@[k].first_offset
                        && runs@[k].last_offset == batches@[k].last_offset && runs@[k].lease()
                        == kept_lease(batches@[k], default_lock_timeout) && runs@[k].wf()
                        && !runs@[k].acquired(),
            decreases batches@.len() - i,
        {
            let b = batches[i];
            let state: ShareRecordState = match b.state {
                ShareRecordState::Acquired => ShareRecordState::Available,
                other => other,
            };
            runs.push(
                InFlightBatch {
                    first_offset: b.first_offset,
                    last_offset: b.last_offset,
                    state,
                    acquired_by: None,
                    acquired_at: None,
                    lock_timeout: default_lock_timeout,
                    delivery_count: b.delivery_count,
                },
            );
            i = i + 1;
        }
        let next_fetch_offset: u64 = if batches.len() == 0 {
            start_offset
        } else {
            batches[batches.len() - 1].last_offset + 1
        };
        let timers: Vec<ExpiryTimer> = Vec::new();
        proof {
            assert forall|a: int, c: int| 0 <= a < c < runs@.len() implies (
            #[trigger] runs@[a]).last_offset < (#[trigger] runs@[c]).first_offset by {
                assert(batches@[a].last_offset < batches@[c].first_offset);
            }
            assert forall|a: int| 0 <= a < runs@.len() implies start_offset <= (
            #[trigger] runs@[a]).first_offset && runs@[a].last_offset < next_fetch_offset by {
                let n = batches@.len() - 1;
                assert(start_offset <= batches@[a].first_offset);
                if a < n {
                    assert(batches@[a].last_offset < batches@[n].first_offset);
                    assert(batches@[n].first_offset <= batches@[n].last_offset);
                }
            }
            assert(expiries(timers@) =~= pending(runs@));
        }
        SharePartition {
            topic,
            partition,
            group_id,
            default_lock_timeout,
            max_delivery_attempts,
            start_offset,
            next_fetch_offset,
            batches: runs,
            timers,
            version: 0,
        }
    }

    /// How many records are in flight.
    pub fn inflight_count(&self) -> (r: u64)
        requires
            self.wf(),
        ensures
            r == run_lengths(self.batches@),
    {
        let mut total: u64 = 0;
        let mut i: usize = 0;
        assert(self.batches@.take(0) =~= Seq::empty());
        while i < self.batches.len()
            invariant
                i <= self.batches@.len(),
                self.wf(),
                total == run_lengths(self.batches@.take(i as int)),
            decreases self.batches@.len() - i,
        {
            let b = &self.batches[i];
            proof {
                let taken = self.batches@.take(i + 1);
                assert(b.wf());
                assert(taken.drop_last() =~= self.batches@.take(i as int));
                lemma_run_lengths(taken, self.start_offset);
            }
            total = total + (b.last_offset - b.first_offset + 1);
            i = i + 1;
        }
        assert(self.batches@.take(i as int) =~= self.batches@);
        total
    }
}

/// The lease that a kept run is restored with.
pub open spec fn kept_lease(b: PersistedBatch, lock_timeout: u64) -> Lease {
    Lease {
        state: if b.state is Acquired {
            ShareRecordState::Available
        } else {
            b.state
        },
        owner: None,
        acquired_at: None,
        lock_timeout,
        delivery_count: b.delivery_count,
    }
}

/// The number of offsets that the runs cover.
pub open spec fn run_lengths(bs: Seq<InFlightBatch>) -> int
    decreases bs.len(),
{
    if bs.len() == 0 {
        0
    } else {
        run_lengths(bs.drop_last()) + (bs.last().last_offset - bs.last().first_offset + 1)
    }
}

proof fn lemma_run_lengths(bs: Seq<InFlightBatch>, start: u64)
    requires
        ordered(bs),
        forall|i: int| 0 <= i < bs.len() ==> start <= (#[trigger] bs[i]).first_offset,
    ensures
        0 <= run_lengths(bs) <= frontier(bs, start) - start,
    decreases bs.len(),
{
    if bs.len() > 0 {
        let rest = bs.drop_last();
        let n = bs.len() - 1;
        assert(bs[n].wf());
        lemma_run_lengths(rest, start);
        if n > 0 {
            assert(bs[n - 1].last_offset < bs[n].first_offset);
        }
    }
}

/// A partition that is restored from what was kept of `sp` begins and goes on where `sp` did,
/// and gives each record the lease that it had, but for its holder.
pub proof fn restore_after_snapshot(
    sp: SharePartition,
    kept_runs: Seq<PersistedBatch>,
    restored: SharePartition,
)
    requires
        sp.wf(),
        restored.wf(),
        kept_runs == sp.batches@.map_values(|b: InFlightBatch| kept(b)),
        restored.start_offset == sp.start_offset,
        restored.next_fetch_offset == (if kept_runs.len() == 0 {
            sp.start_offset as int
        } else {
            kept_runs.last().last_offset + 1
        }),
        restored.batches@.len() == kept_runs.len(),
        forall|i: int|
            0 <= i < kept_runs.len() ==> (#[trigger] restored.batches@[i]).first_offset
                == kept_runs[i].first_offset && restored.batches@[i].last_offset
                == kept_runs[i].last_offset && restored.batches@[i].lease() == kept_lease(
                kept_runs[i],
                restored.default_lock_timeout,
            ),
    ensures
        restored.next_fetch_offset == sp.next_fetch_offset,
        restored.leases() == sp.leases().map_values(
            |l: Lease| restarted(l, restored.default_lock_timeout),
        ),
{
    let a = sp.batches@;
    let b = restored.batches@;
    let want = sp.leases().map_values(|l: Lease| restarted(l, restored.default_lock_timeout));
    if a.len() > 0 {
        assert(kept_runs.last() == kept(a.last()));
    }
    assert forall|o: u64|
        #![trigger leases(b).dom().contains(o)]
        #![trigger want.dom().contains(o)]
        leases(b).dom().contains(o) == want.dom().contains(o) && (want.dom().contains(o) ==> leases(
            b,
        )[o] == want[o]) by {
        if leases(a).contains_key(o) {
            let k = covering(a, o);
            assert(covered_at(a, k, o));
            lemma_lease_at(a, k, o);
            assert(kept_runs[k] == kept(a[k]));
            assert(b[k].first_offset == a[k].first_offset);
            assert(covered_at(b, k, o));
            lemma_lease_at(b, k, o);
        } else if leases(b).contains_key(o) {
            let k = covering(b, o);
            assert(covered_at(b, k, o));
            assert(kept_runs[k] == kept(a[k]));
            assert(covered_at(a, k, o));
        }
    }
    assert(leases(b) =~= want);
}

} // verus!
