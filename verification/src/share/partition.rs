//! One partition of a share group: which records are in flight, who holds them, and until when.
use crate::share::batches::{
    covered_at, covering, leases, lemma_lease_at, lemma_splice, ordered, part_of, pending, splice_run,
    spliced, starts, tiles, adjoin, Expiry, InFlightBatch, Lease, ShareRecordState, MAX_TIME,
};
use crate::share::timers::{add_timer, cancel_timer, expiries, in_order, take_timer, ExpiryTimer};
use vstd::prelude::*;

verus! {

/// What a member says of records that it holds.
#[derive(Debug, Clone, Copy, PartialEq, Eq, Structural)]
pub enum AcknowledgeType {
    /// Processed: the records are done with.
    Accept,
    /// Not processed: the records may be delivered again.
    Release,
    /// Cannot be processed: the records go to the dead-letter queue.
    Reject,
    /// Still being processed: the lock starts anew.
    Renew,
}

/// An acknowledgement of the offsets from `first_offset` to `last_offset`.
#[derive(Debug, Clone, Copy)]
pub struct AckBatch {
    pub first_offset: u64,
    pub last_offset: u64,
    pub ack_type: AcknowledgeType,
}

/// A partition of a share group. Times are nanoseconds.
pub struct SharePartition {
    pub topic: String,
    pub partition: u32,
    pub group_id: String,
    pub default_lock_timeout: u64,
    pub max_delivery_attempts: u16,
    pub start_offset: u64,
    pub next_fetch_offset: u64,
    pub batches: Vec<InFlightBatch>,
    pub timers: Vec<ExpiryTimer>,
    pub version: u64,
}

/// Whether `member` holds the record at `o`.
pub open spec fn held(m: Map<u64, Lease>, member: Seq<char>, o: u64) -> bool {
    m.contains_key(o) && m[o].state is Acquired && m[o].owner == Some(member)
}

/// The lease `l` after its holder said `kind` of it at time `now`.
pub open spec fn answered(l: Lease, kind: AcknowledgeType, now: u64) -> Lease {
    match kind {
        AcknowledgeType::Accept => (Lease {
            state: ShareRecordState::Acknowledged,
            owner: None,
            acquired_at: None,
            ..l
        }),
        AcknowledgeType::Release => (Lease {
            state: ShareRecordState::Available,
            owner: None,
            acquired_at: None,
            ..l
        }),
        AcknowledgeType::Reject => (Lease {
            state: ShareRecordState::Archived,
            owner: None,
            acquired_at: None,
            ..l
        }),
        AcknowledgeType::Renew => (Lease { acquired_at: Some(now), ..l }),
    }
}

/// The leases after `member` acknowledged the offsets of `ack` below `limit`: those that it
/// holds change, all others stay as they are.
pub open spec fn acked_below(
    m: Map<u64, Lease>,
    ack: AckBatch,
    member: Seq<char>,
    now: u64,
    limit: int,
) -> Map<u64, Lease> {
    Map::new(
        |o: u64| m.contains_key(o),
        |o: u64|
            if o < limit && ack.first_offset <= o <= ack.last_offset && held(m, member, o) {
                answered(m[o], ack.ack_type, now)
            } else {
                m[o]
            },
    )
}

/// The leases after `member` acknowledged the offsets of `ack`.
pub open spec fn acked(m: Map<u64, Lease>, ack: AckBatch, member: Seq<char>, now: u64) -> Map<
    u64,
    Lease,
> {
    acked_below(m, ack, member, now, ack.last_offset + 1)
}

/// The offsets from `lo` up to but not including `hi` that `member` holds, in order.
pub open spec fn held_in(m: Map<u64, Lease>, member: Seq<char>, lo: int, hi: int) -> Seq<u64>
    decreases hi - lo,
{
    if hi <= lo {
        Seq::empty()
    } else if held(m, member, (hi - 1) as u64) {
        held_in(m, member, lo, hi - 1).push((hi - 1) as u64)
    } else {
        held_in(m, member, lo, hi - 1)
    }
}

/// The offsets that an acknowledgement sends to the dead-letter queue.
pub open spec fn rejected(m: Map<u64, Lease>, ack: AckBatch, member: Seq<char>) -> Seq<u64> {
    if ack.ack_type is Reject {
        held_in(m, member, ack.first_offset as int, ack.last_offset + 1)
    } else {
        Seq::empty()
    }
}

/// The offsets from `a` up to but not including `b`, in order.
pub open spec fn offsets(a: int, b: int) -> Seq<u64> {
    Seq::new(if a < b { (b - a) as nat } else { 0 }, |i: int| (a + i) as u64)
}

proof fn lemma_held_none(m: Map<u64, Lease>, member: Seq<char>, lo: int, mid: int, hi: int)
    requires
        lo <= mid <= hi,
        forall|o: u64| mid <= o < hi ==> !#[trigger] held(m, member, o),
        0 <= mid,
        hi <= u64::MAX + 1,
    ensures
        held_in(m, member, lo, hi) == held_in(m, member, lo, mid),
    decreases hi - mid,
{
    if mid < hi {
        assert(!held(m, member, (hi - 1) as u64));
        lemma_held_none(m, member, lo, mid, hi - 1);
    }
}

/// The leases with those from `from` to `to` answered.
pub open spec fn answered_in(
    m: Map<u64, Lease>,
    from: u64,
    to: u64,
    kind: AcknowledgeType,
    now: u64,
) -> Map<u64, Lease> {
    Map::new(
        |o: u64| m.contains_key(o),
        |o: u64|
            if from <= o <= to {
                answered(m[o], kind, now)
            } else {
                m[o]
            },
    )
}

/// Once the expiry of the run at `i` is gone, no timer begins within that run.
proof fn lemma_other_firsts(bs: Seq<InFlightBatch>, i: int, ts: Seq<ExpiryTimer>)
    requires
        ordered(bs),
        0 <= i < bs.len(),
        expiries(ts) == pending(bs).remove(bs[i].expiry()),
    ensures
        forall|e: Expiry| #[trigger] expiries(ts).contains(e) ==> !bs[i].covers(e.first),
{
    assert forall|e: Expiry| #[trigger] expiries(ts).contains(e) implies !bs[i].covers(e.first) by {
        let j = choose|j: int| 0 <= j < bs.len() && #[trigger] bs[j].acquired() && bs[j].expiry() == e;
        assert(j != i);
        if j < i {
            assert(bs[j].last_offset < bs[i].first_offset);
        } else {
            assert(bs[i].last_offset < bs[j].first_offset);
        }
    }
}

/// What the pieces of an answered run say of each offset.
proof fn lemma_answered(
    bs: Seq<InFlightBatch>,
    i: int,
    ps: Seq<InFlightBatch>,
    from: u64,
    to: u64,
    kind: AcknowledgeType,
    now: u64,
)
    requires
        ordered(bs),
        0 <= i < bs.len(),
        tiles(ps, bs[i].first_offset, bs[i].last_offset),
        bs[i].first_offset <= from <= to <= bs[i].last_offset,
        forall|k: int|
            0 <= k < ps.len() ==> (#[trigger] ps[k]).lease() == (if ps[k].first_offset == from {
                answered(bs[i].lease(), kind, now)
            } else {
                bs[i].lease()
            }) && (ps[k].first_offset == from ==> ps[k].last_offset == to)
                && (ps[k].first_offset < from ==> ps[k].last_offset < from)
                && (ps[k].first_offset > from ==> ps[k].first_offset > to),
        exists|k: int| 0 <= k < ps.len() && (#[trigger] ps[k]).first_offset == from,
    ensures
        leases(spliced(bs, i, ps)) == answered_in(leases(bs), from, to, kind, now),
{
    lemma_splice(bs, i, ps);
    let out = leases(spliced(bs, i, ps));
    let want = answered_in(leases(bs), from, to, kind, now);
    assert forall|o: u64|
        #![trigger out.dom().contains(o)]
        #![trigger want.dom().contains(o)]
        out.dom().contains(o) == want.dom().contains(o) && (out.dom().contains(o) ==> out[o]
            == want[o]) by {
        if bs[i].covers(o) {
            assert(covered_at(bs, i, o));
            lemma_lease_at(bs, i, o);
            assert(leases(ps).contains_key(o));
            let k = covering(ps, o);
            assert(covered_at(ps, k, o));
            lemma_lease_at(ps, k, o);
        } else {
            assert(!leases(ps).contains_key(o));
        }
    }
    assert(out =~= want);
}

proof fn lemma_held_all(m: Map<u64, Lease>, member: Seq<char>, lo: int, mid: int, hi: int)
    requires
        0 <= lo <= mid <= hi <= u64::MAX + 1,
        forall|o: u64| mid <= o < hi ==> #[trigger] held(m, member, o),
    ensures
        held_in(m, member, lo, hi) == held_in(m, member, lo, mid) + offsets(mid, hi),
    decreases hi - mid,
{
    if mid < hi {
        lemma_held_all(m, member, lo, mid, hi - 1);
        assert(held(m, member, (hi - 1) as u64));
        assert(offsets(mid, hi) =~= offsets(mid, hi - 1).push((hi - 1) as u64));
        assert(held_in(m, member, lo, hi) =~= held_in(m, member, lo, mid) + offsets(mid, hi));
    } else {
        assert(held_in(m, member, lo, hi) =~= held_in(m, member, lo, mid) + offsets(mid, hi));
    }
}

/// Where nothing between the limits is held and acknowledged, the limit does not matter.
proof fn lemma_acked_none(
    m: Map<u64, Lease>,
    ack: AckBatch,
    member: Seq<char>,
    now: u64,
    a: int,
    b: int,
)
    requires
        a <= b,
        forall|o: u64|
            a <= o < b && ack.first_offset <= o <= ack.last_offset ==> !#[trigger] held(
                m,
                member,
                o,
            ),
    ensures
        acked_below(m, ack, member, now, b) == acked_below(m, ack, member, now, a),
{
    assert(acked_below(m, ack, member, now, b) =~= acked_below(m, ack, member, now, a));
}

/// Where all offsets of a run are held, and no others since `a`, answering for those that the
/// acknowledgement names takes the limit past the run.
proof fn lemma_acked_run(
    m: Map<u64, Lease>,
    ack: AckBatch,
    member: Seq<char>,
    now: u64,
    a: int,
    first: u64,
    last: u64,
)
    requires
        a <= first <= last,
        first <= ack.last_offset,
        ack.first_offset <= last,
        forall|o: u64| a <= o <= last ==> (#[trigger] held(m, member, o) <==> first <= o),
        forall|o: u64| a <= o < first ==> !m.contains_key(o),
    ensures
        ({
            let from = if first < ack.first_offset { ack.first_offset } else { first };
            let to = if ack.last_offset < last { ack.last_offset } else { last };
            answered_in(acked_below(m, ack, member, now, a), from, to, ack.ack_type, now)
                == acked_below(m, ack, member, now, last + 1)
        }),
{
    let from = if first < ack.first_offset { ack.first_offset } else { first };
    let to = if ack.last_offset < last { ack.last_offset } else { last };
    let x = answered_in(acked_below(m, ack, member, now, a), from, to, ack.ack_type, now);
    let y = acked_below(m, ack, member, now, last + 1);
    assert forall|o: u64| x.contains_key(o) implies x[o] == y[o] by {
        if a <= o <= last {
            assert(held(m, member, o) <==> first <= o);
        }
    }
    assert(x =~= y);
}

/// Where nothing between the limits is held and acknowledged, nothing is cut there.
proof fn lemma_cut_none(
    m: Map<u64, Lease>,
    s: Set<u64>,
    ack: AckBatch,
    member: Seq<char>,
    a: int,
    b: int,
)
    requires
        a <= b,
        ack.first_offset <= ack.last_offset,
        forall|o: u64|
            a <= o < b && ack.first_offset <= o <= ack.last_offset ==> !#[trigger] held(
                m,
                member,
                o,
            ),
    ensures
        cut_below(m, s, ack, member, b) == cut_below(m, s, ack, member, a),
{
    assert(cut_below(m, s, ack, member, b) =~= cut_below(m, s, ack, member, a));
}

/// Where all offsets of a run are held, and no others since `a`, cutting it where the
/// acknowledgement begins and ends takes the limit past the run.
proof fn lemma_cut_run(
    m: Map<u64, Lease>,
    s: Set<u64>,
    ack: AckBatch,
    member: Seq<char>,
    a: int,
    first: u64,
    last: u64,
    before: Set<u64>,
    after: Set<u64>,
)
    requires
        a <= first <= last,
        first <= ack.last_offset,
        ack.first_offset <= last,
        ack.first_offset <= ack.last_offset,
        forall|o: u64| a <= o <= last ==> (#[trigger] held(m, member, o) <==> first <= o),
        before == cut_below(m, s, ack, member, a),
        before.contains(first),
        forall|o: u64| o == last + 1 && m.contains_key(o) ==> #[trigger] before.contains(o),
        ({
            let from = if first < ack.first_offset { ack.first_offset } else { first };
            let to = if ack.last_offset < last { ack.last_offset } else { last };
            forall|o: u64| #[trigger]
                after.contains(o) <==> before.contains(o) || o == from || (o == to + 1 && to < last)
        }),
    ensures
        after == cut_below(m, s, ack, member, last + 1),
{
    let want = cut_below(m, s, ack, member, last + 1);
    assert forall|o: u64| after.contains(o) == want.contains(o) by {
        let _ = before.contains(o);
        let _ = held(m, member, ack.first_offset);
        let _ = held(m, member, ack.last_offset);
        if o == ack.last_offset + 1 && ack.last_offset < last {
            assert(held(m, member, o));
        }
    }
    assert(after =~= want);
}

/// A run that covers the offset behind another begins there.
proof fn lemma_next_start(bs: Seq<InFlightBatch>, i: int)
    requires
        ordered(bs),
        0 <= i < bs.len(),
    ensures
        starts(bs).contains(bs[i].first_offset),
        forall|o: u64|
            o == bs[i].last_offset + 1 && leases(bs).contains_key(o) ==> #[trigger] starts(
                bs,
            ).contains(o),
{
    assert(bs[i].first_offset == bs[i].first_offset);
    assert forall|o: u64| o == bs[i].last_offset + 1 && leases(bs).contains_key(o) implies
        #[trigger] starts(bs).contains(o) by {
        let k = covering(bs, o);
        assert(covered_at(bs, k, o));
        if k < i {
            assert(bs[k].last_offset < bs[i].first_offset);
            assert(bs[i].wf());
        } else if i < k {
            assert(bs[i].last_offset < bs[k].first_offset);
        }
        assert(bs[k].first_offset == o);
    }
}

/// What the run at `i` and the offsets before it, from `done` on, say of who holds them.
proof fn lemma_known_at(
    sp: SharePartition,
    m: Map<u64, Lease>,
    ack: AckBatch,
    member: Seq<char>,
    now: u64,
    i: int,
    done: int,
)
    requires
        sp.wf(),
        0 <= i < sp.batches@.len(),
        done == (if i == 0 { 0 } else { sp.batches@[i - 1].last_offset + 1 }),
        sp.leases() == acked_below(m, ack, member, now, done),
    ensures
        done <= sp.batches@[i].first_offset,
        forall|o: u64|
            done <= o <= sp.batches@[i].last_offset ==> (#[trigger] held(m, member, o) <==> (
            sp.batches@[i].first_offset <= o && sp.batches@[i].acquired() && sp.batches@[i].owner()
                == Some(member))),
        forall|o: u64|
            done <= o < sp.batches@[i].first_offset ==> !m.contains_key(o),
{
    let bs = sp.batches@;
    if i > 0 {
        assert(bs[i - 1].last_offset < bs[i].first_offset);
    }
    assert forall|o: u64| done <= o <= bs[i].last_offset implies (#[trigger] held(m, member, o)
        <==> (bs[i].first_offset <= o && bs[i].acquired() && bs[i].owner() == Some(member))) && (
    m.contains_key(o) ==> bs[i].first_offset <= o) by {
        if m.contains_key(o) {
            assert(sp.leases().contains_key(o));
            let j = covering(bs, o);
            assert(covered_at(bs, j, o));
            lemma_lease_at(bs, j, o);
            if j < i {
                if j < i - 1 {
                    assert(bs[j].last_offset < bs[i - 1].first_offset);
                }
            } else if i < j {
                assert(bs[i].last_offset < bs[j].first_offset);
            }
            assert(j == i);
        } else if bs[i].first_offset <= o {
            assert(covered_at(bs, i, o));
            lemma_lease_at(bs, i, o);
        }
    }
    assert forall|o: u64| done <= o < bs[i].first_offset implies !m.contains_key(o) by {
        let _ = held(m, member, o);
    }
}

/// After the last run that begins within the acknowledged range nothing is held there.
proof fn lemma_rest_unknown(
    sp: SharePartition,
    m: Map<u64, Lease>,
    ack: AckBatch,
    member: Seq<char>,
    now: u64,
    i: int,
    done: int,
)
    requires
        sp.wf(),
        0 <= i <= sp.batches@.len(),
        done == (if i == 0 { 0 } else { sp.batches@[i - 1].last_offset + 1 }),
        i < sp.batches@.len() ==> ack.last_offset < sp.batches@[i].first_offset,
        sp.leases() == acked_below(m, ack, member, now, done),
    ensures
        forall|o: u64| done <= o <= ack.last_offset ==> !#[trigger] held(m, member, o),
{
    let bs = sp.batches@;
    assert forall|o: u64| done <= o <= ack.last_offset implies !#[trigger] held(m, member, o) by {
        if m.contains_key(o) {
            assert(sp.leases().contains_key(o));
            let j = covering(bs, o);
            assert(covered_at(bs, j, o));
            if j < i {
                if j < i - 1 {
                    assert(bs[j].last_offset < bs[i - 1].first_offset);
                }
            } else if i < j {
                assert(bs[i].last_offset < bs[j].first_offset);
            }
        }
    }
}

/// Whether the record at `o` needs no further delivery.
pub open spec fn finished(m: Map<u64, Lease>, o: u64) -> bool {
    m.contains_key(o) && (m[o].state is Acknowledged || m[o].state is Archived)
}

/// `to` is the first offset from `start` on whose record is not finished.
pub open spec fn settled(m: Map<u64, Lease>, start: u64, to: u64) -> bool {
    &&& start <= to
    &&& forall|o: u64| start <= o < to ==> #[trigger] finished(m, o)
    &&& !finished(m, to)
}

/// The leases from `start` on.
pub open spec fn from_offset(m: Map<u64, Lease>, start: u64) -> Map<u64, Lease> {
    Map::new(|o: u64| m.contains_key(o) && start <= o, |o: u64| m[o])
}

/// Where the runs begin after `member` acknowledged the offsets of `ack` below `limit`: a run that
/// it holds is cut where the range begins, and behind where the range ends.
pub open spec fn cut_below(
    m: Map<u64, Lease>,
    s: Set<u64>,
    ack: AckBatch,
    member: Seq<char>,
    limit: int,
) -> Set<u64> {
    Set::new(
        |o: u64|
            s.contains(o) || (o == ack.first_offset && o < limit && held(m, member, o)) || (o
                == ack.last_offset + 1 && ack.last_offset < limit && held(
                m,
                member,
                ack.last_offset,
            ) && m.contains_key(o)),
    )
}

/// Where the runs begin after `member` acknowledged the offsets of `ack`. A range that ends before
/// it begins cuts nothing.
pub open spec fn cut(m: Map<u64, Lease>, s: Set<u64>, ack: AckBatch, member: Seq<char>) -> Set<u64> {
    if ack.first_offset <= ack.last_offset {
        cut_below(m, s, ack, member, ack.last_offset + 1)
    } else {
        s
    }
}

/// Where the runs begin after all of `acks`, in order.
pub open spec fn cut_all(
    m: Map<u64, Lease>,
    s: Set<u64>,
    acks: Seq<AckBatch>,
    member: Seq<char>,
    now: u64,
) -> Set<u64>
    decreases acks.len(),
{
    if acks.len() == 0 {
        s
    } else {
        cut(
            acked_all(m, acks.drop_last(), member, now),
            cut_all(m, s, acks.drop_last(), member, now),
            acks.last(),
            member,
        )
    }
}

/// Those of some offsets that lie from `start` on.
pub open spec fn not_before(s: Set<u64>, start: u64) -> Set<u64> {
    Set::new(|o: u64| s.contains(o) && start <= o)
}

/// The leases after all of `acks`, in order.
pub open spec fn acked_all(
    m: Map<u64, Lease>,
    acks: Seq<AckBatch>,
    member: Seq<char>,
    now: u64,
) -> Map<u64, Lease>
    decreases acks.len(),
{
    if acks.len() == 0 {
        m
    } else {
        acked(acked_all(m, acks.drop_last(), member, now), acks.last(), member, now)
    }
}

/// The offsets that `acks`, in order, send to the dead-letter queue.
pub open spec fn rejected_all(
    m: Map<u64, Lease>,
    acks: Seq<AckBatch>,
    member: Seq<char>,
    now: u64,
) -> Seq<u64>
    decreases acks.len(),
{
    if acks.len() == 0 {
        Seq::empty()
    } else {
        rejected_all(m, acks.drop_last(), member, now) + rejected(
            acked_all(m, acks.drop_last(), member, now),
            acks.last(),
            member,
        )
    }
}

/// Dropping an unacquired run from the front drops its leases and no expiry.
proof fn lemma_drop_front(bs: Seq<InFlightBatch>)
    requires
        ordered(bs),
        bs.len() > 0,
        !bs[0].acquired(),
    ensures
        ordered(bs.skip(1)),
        forall|o: u64|
            #![trigger leases(bs.skip(1)).dom().contains(o)]
            leases(bs.skip(1)).dom().contains(o) <==> leases(bs).dom().contains(o) && o
                > bs[0].last_offset,
        forall|o: u64|
            #![trigger leases(bs.skip(1))[o]]
            leases(bs.skip(1)).dom().contains(o) ==> leases(bs.skip(1))[o] == leases(bs)[o],
        pending(bs.skip(1)) == pending(bs),
        forall|o: u64|
            starts(bs.skip(1)).contains(o) <==> #[trigger] starts(bs).contains(o) && o
                > bs[0].last_offset,
{
    let rest = bs.skip(1);
    assert forall|o: u64|
        starts(rest).contains(o) <==> #[trigger] starts(bs).contains(o) && o > bs[0].last_offset by {
        if starts(rest).contains(o) {
            let k = choose|k: int| 0 <= k < rest.len() && (#[trigger] rest[k]).first_offset == o;
            assert(bs[k + 1].first_offset == o);
            assert(bs[0].last_offset < bs[k + 1].first_offset);
        }
        if starts(bs).contains(o) && o > bs[0].last_offset {
            let k = choose|k: int| 0 <= k < bs.len() && (#[trigger] bs[k]).first_offset == o;
            assert(bs[0].wf());
            assert(rest[k - 1].first_offset == o);
        }
    }
    assert forall|o: u64|
        #![trigger leases(rest).dom().contains(o)]
        (leases(rest).dom().contains(o) <==> leases(bs).dom().contains(o) && o > bs[0].last_offset)
            && (leases(rest).dom().contains(o) ==> leases(rest)[o] == leases(bs)[o]) by {
        if leases(rest).contains_key(o) {
            let k = covering(rest, o);
            assert(covered_at(rest, k, o));
            assert(rest[k] == bs[k + 1]);
            assert(covered_at(bs, k + 1, o));
            lemma_lease_at(bs, k + 1, o);
            assert(bs[0].last_offset < bs[k + 1].first_offset);
        } else if leases(bs).contains_key(o) && o > bs[0].last_offset {
            let k = covering(bs, o);
            assert(covered_at(bs, k, o));
            assert(covered_at(rest, k - 1, o));
        }
    }
    assert forall|t: Expiry| pending(rest).contains(t) == pending(bs).contains(t) by {
        if pending(rest).contains(t) {
            let k = choose|k: int| 0 <= k < rest.len() && #[trigger] rest[k].acquired() && rest[k].expiry() == t;
            assert(bs[k + 1].acquired());
        }
        if pending(bs).contains(t) {
            let k = choose|k: int| 0 <= k < bs.len() && #[trigger] bs[k].acquired() && bs[k].expiry() == t;
            assert(rest[k - 1].acquired());
        }
    }
    assert(pending(rest) =~= pending(bs));
}

/// The expiry of the part of `b` from `first` to `last`.
pub open spec fn expiry_of_part(b: InFlightBatch, first: int, last: int) -> Expiry {
    Expiry { first: first as u64, last: last as u64, ..b.expiry() }
}

/// The expiries of the pieces of an answered run that are still acquired.
pub open spec fn cut_expiries(
    b: InFlightBatch,
    from: u64,
    to: u64,
    kind: AcknowledgeType,
    now: u64,
) -> Set<Expiry> {
    let left = if b.first_offset < from {
        Set::empty().insert(expiry_of_part(b, b.first_offset as int, from - 1))
    } else {
        Set::empty()
    };
    let middle = if kind is Renew {
        left.insert(
            Expiry {
                expire_at: (now + b.lock_timeout) as u64,
                ..expiry_of_part(b, from as int, to as int)
            },
        )
    } else {
        left
    };
    if to < b.last_offset {
        middle.insert(expiry_of_part(b, to + 1, b.last_offset as int))
    } else {
        middle
    }
}

/// Cuts an acquired run into up to three pieces and answers for the one in the middle.
fn cut_run(b: &InFlightBatch, from: u64, to: u64, kind: AcknowledgeType, now: u64) -> (r: Vec<
    InFlightBatch,
>)
    requires
        b.wf(),
        b.acquired(),
        b.first_offset <= from <= to <= b.last_offset,
        now <= MAX_TIME,
    ensures
        tiles(r@, b.first_offset, b.last_offset),
        forall|k: int|
            0 <= k < r@.len() ==> (#[trigger] r@[k]).lease() == (if r@[k].first_offset == from {
                answered(b.lease(), kind, now)
            } else {
                b.lease()
            }) && (r@[k].first_offset == from ==> r@[k].last_offset == to)
                && (r@[k].first_offset < from ==> r@[k].last_offset < from)
                && (r@[k].first_offset > from ==> r@[k].first_offset > to),
        exists|k: int| 0 <= k < r@.len() && (#[trigger] r@[k]).first_offset == from,
        pending(r@) == cut_expiries(*b, from, to, kind, now),
        forall|o: u64| #[trigger]
            starts(r@).contains(o) <==> o == b.first_offset || o == from || (o == to + 1 && to
                < b.last_offset),
{
    let first: u64 = b.first_offset;
    let last: u64 = b.last_offset;
    let mut pieces: Vec<InFlightBatch> = Vec::new();
    if first < from {
        pieces.push(part_of(b, first, from - 1));
    }
    let mut middle = part_of(b, from, to);
    match kind {
        AcknowledgeType::Accept => {
            middle.state = ShareRecordState::Acknowledged;
            middle.acquired_by = None;
            middle.acquired_at = None;
        },
        AcknowledgeType::Release => {
            middle.state = ShareRecordState::Available;
            middle.acquired_by = None;
            middle.acquired_at = None;
        },
        AcknowledgeType::Reject => {
            middle.state = ShareRecordState::Archived;
            middle.acquired_by = None;
            middle.acquired_at = None;
        },
        AcknowledgeType::Renew => {
            middle.acquired_at = Some(now);
        },
    }
    pieces.push(middle);
    if to < last {
        pieces.push(part_of(b, to + 1, last));
    }
    proof {
        let ps = pieces@;
        let mid = if first < from { 1int } else { 0int };
        assert(ordered(ps));
        assert forall|k: int| 0 <= k < ps.len() - 1 implies #[trigger] adjoin(ps, k) by {}
        assert(ps[mid].first_offset == from);
        let want = cut_expiries(*b, from, to, kind, now);
        assert forall|t: Expiry| want.contains(t) implies pending(ps).contains(t) by {
            if first < from && t == expiry_of_part(*b, first as int, from - 1) {
                assert(ps[0].acquired() && ps[0].expiry() == t);
            } else if to < last && t == expiry_of_part(*b, to + 1, last as int) {
                assert(ps[mid + 1].acquired() && ps[mid + 1].expiry() == t);
            } else {
                assert(ps[mid].acquired() && ps[mid].expiry() == t);
            }
        }
        assert forall|t: Expiry| pending(ps).contains(t) implies want.contains(t) by {
            let k = choose|k: int| 0 <= k < ps.len() && #[trigger] ps[k].acquired() && ps[k].expiry() == t;
            assert(k == 0 || k == mid || k == mid + 1);
        }
        assert(pending(ps) =~= want);
        assert forall|o: u64| #[trigger] starts(ps).contains(o) <==> o == first || o == from || (o
            == to + 1 && to < last) by {
            if o == first {
                assert(ps[0].first_offset == o);
            } else if o == from {
                assert(ps[mid].first_offset == o);
            } else if o == to + 1 && to < last {
                assert(ps[mid + 1].first_offset == o);
            }
        }
    }
    pieces
}

/// Whether the lease `l` has run out by `now`.
pub open spec fn ran_out(l: Lease, now: u64) -> bool {
    l.state is Acquired && l.acquired_at->0 + l.lock_timeout <= now
}

/// The lease `l` after it ended unanswered.
pub open spec fn ended(l: Lease, max_delivery_attempts: u16) -> Lease {
    Lease {
        state: if l.delivery_count >= max_delivery_attempts {
            ShareRecordState::Archived
        } else {
            ShareRecordState::Available
        },
        owner: None,
        acquired_at: None,
        ..l
    }
}

/// The leases with those from `first` to `last` ended.
pub open spec fn ended_in(
    m: Map<u64, Lease>,
    first: u64,
    last: u64,
    max_delivery_attempts: u16,
) -> Map<u64, Lease> {
    Map::new(
        |o: u64| m.contains_key(o),
        |o: u64|
            if first <= o <= last {
                ended(m[o], max_delivery_attempts)
            } else {
                m[o]
            },
    )
}

/// The leases after all that have run out by `now` ended.
pub open spec fn swept(m: Map<u64, Lease>, now: u64, max_delivery_attempts: u16) -> Map<u64, Lease> {
    Map::new(
        |o: u64| m.contains_key(o),
        |o: u64|
            if ran_out(m[o], now) {
                ended(m[o], max_delivery_attempts)
            } else {
                m[o]
            },
    )
}

/// Whether the lease of `a` runs out before that of `b`, or at the same time at a lower offset.
pub open spec fn runs_out_before(m: Map<u64, Lease>, a: u64, b: u64) -> bool {
    let at_a = m[a].acquired_at->0 + m[a].lock_timeout;
    let at_b = m[b].acquired_at->0 + m[b].lock_timeout;
    at_a < at_b || (at_a == at_b && a < b)
}

/// `out` lists the offsets that a sweep at `now` archives, in the order in which their leases
/// ran out.
pub open spec fn swept_out(
    m: Map<u64, Lease>,
    now: u64,
    max_delivery_attempts: u16,
    out: Seq<u64>,
) -> bool {
    &&& forall|o: u64| #[trigger]
        out.contains(o) <==> m.contains_key(o) && ran_out(m[o], now) && m[o].delivery_count
            >= max_delivery_attempts
    &&& forall|a: int, b: int|
        0 <= a < b < out.len() ==> runs_out_before(m, #[trigger] out[a], #[trigger] out[b])
}

/// Whether the lease of `o` runs out before the timer `t` goes off, or then at a lower offset.
spec fn ends_before(m: Map<u64, Lease>, o: u64, t: ExpiryTimer) -> bool {
    let at = m[o].acquired_at->0 + m[o].lock_timeout;
    at < t.expire_at || (at == t.expire_at && o < t.first_offset)
}

/// Appends the offsets from `first` to `last`.
fn push_run(out: &mut Vec<u64>, first: u64, last: u64)
    requires
        first <= last,
    ensures
        final(out)@ == old(out)@ + offsets(first as int, last + 1),
{
    let mut o: u64 = first;
    out.push(o);
    assert(out@ =~= old(out)@ + offsets(first as int, o + 1));
    while o < last
        invariant
            first <= o <= last,
            out@ == old(out)@ + offsets(first as int, o + 1),
        decreases last - o,
    {
        o = o + 1;
        out.push(o);
        assert(out@ =~= old(out)@ + offsets(first as int, o + 1));
    }
}

/// Where the runs end: behind the last one, or at `start` where there is none.
pub open spec fn frontier(bs: Seq<InFlightBatch>, start: u64) -> int {
    if bs.len() == 0 {
        start as int
    } else {
        bs.last().last_offset + 1
    }
}

proof fn lemma_same_starts(bs: Seq<InFlightBatch>, cs: Seq<InFlightBatch>)
    requires
        bs.len() == cs.len(),
        forall|k: int|
            0 <= k < cs.len() ==> (#[trigger] bs[k]).first_offset == cs[k].first_offset,
    ensures
        starts(bs) == starts(cs),
{
    assert forall|o: u64| starts(bs).contains(o) == starts(cs).contains(o) by {
        if starts(bs).contains(o) {
            let k = choose|k: int| 0 <= k < bs.len() && (#[trigger] bs[k]).first_offset == o;
            assert(cs[k].first_offset == o);
        }
        if starts(cs).contains(o) {
            let k = choose|k: int| 0 <= k < cs.len() && (#[trigger] cs[k]).first_offset == o;
            assert(bs[k].first_offset == o);
        }
    }
    assert(starts(bs) =~= starts(cs));
}

impl SharePartition {
    /// The lease of each record in flight.
    pub open spec fn leases(self) -> Map<u64, Lease> {
        leases(self.batches@)
    }

    /// Where the runs of records in flight begin.
    pub open spec fn starts(self) -> Set<u64> {
        starts(self.batches@)
    }

    /// The runs are in order, lie between the two watermarks, and the timers are exactly the
    /// expiries of the acquired ones.
    pub open spec fn wf(self) -> bool {
        &&& ordered(self.batches@)
        &&& self.start_offset <= self.next_fetch_offset
        &&& forall|i: int|
            0 <= i < self.batches@.len() ==> self.start_offset <= (#[trigger] self.batches@[i]).first_offset
                && self.batches@[i].last_offset < self.next_fetch_offset
        &&& self.next_fetch_offset == frontier(self.batches@, self.start_offset)
        &&& in_order(self.timers@)
        &&& expiries(self.timers@) == pending(self.batches@)
        &&& self.default_lock_timeout <= MAX_TIME
    }

    /// The partition as `before`, with the leases ended that had run out by `now`: with all of
    /// them ended and the start watermark moved if there were any, unchanged if there were none.
    /// The runs from the watermark on stay cut as they were.
    pub open spec fn lapsed(self, before: Self, now: u64) -> bool {
        let m = before.leases();
        if exists|o: u64| m.contains_key(o) && ran_out(#[trigger] m[o], now) {
            let after = swept(m, now, before.max_delivery_attempts);
            &&& settled(after, before.start_offset, self.start_offset)
            &&& self.leases() == from_offset(after, self.start_offset)
            &&& self.starts() == not_before(before.starts(), self.start_offset)
        } else {
            self == before
        }
    }

    /// Whatever is written to disk of the partition, a change in it changes the version.
    pub open spec fn versioned(self, before: Self) -> bool {
        self.version == before.version ==> self.batches@ == before.batches@ && self.start_offset
            == before.start_offset
    }

    /// Nothing but leases, timers, the start watermark and the version differs.
    pub open spec fn same_place(self, other: Self) -> bool {
        &&& self.topic == other.topic
        &&& self.partition == other.partition
        &&& self.group_id == other.group_id
        &&& self.default_lock_timeout == other.default_lock_timeout
        &&& self.max_delivery_attempts == other.max_delivery_attempts
    }

    /// Answers for the offsets from `from` to `to` of the run at `i`, which `member_id` holds,
    /// and cuts the run there. Returns the number of pieces.
    fn answer_run(
        &mut self,
        i: usize,
        from: u64,
        to: u64,
        kind: AcknowledgeType,
        member_id: &str,
        now: u64,
    ) -> (pieces: usize)
        requires
            old(self).wf(),
            i < old(self).batches@.len(),
            old(self).batches@[i as int].acquired(),
            old(self).batches@[i as int].owner() == Some(member_id@),
            old(self).batches@[i as int].first_offset <= from <= to,
            to <= old(self).batches@[i as int].last_offset,
            now <= MAX_TIME,
        ensures
            final(self).wf(),
            final(self).same_place(*old(self)),
            final(self).start_offset == old(self).start_offset,
            final(self).next_fetch_offset == old(self).next_fetch_offset,
            final(self).version == old(self).version,
            pieces >= 1,
            i + pieces <= final(self).batches@.len(),
            final(self).batches@.len() - (i + pieces) == old(self).batches@.len() - (i + 1),
            final(self).batches@[i + pieces - 1].last_offset == old(
                self,
            ).batches@[i as int].last_offset,
            final(self).leases() == answered_in(old(self).leases(), from, to, kind, now),
            forall|o: u64| #[trigger]
                final(self).starts().contains(o) <==> old(self).starts().contains(o) || o == from
                    || (o == to + 1 && to < old(self).batches@[i as int].last_offset),
    {
        let ghost before = self.batches@;
        let ghost b = before[i as int];
        let first: u64 = self.batches[i].first_offset;
        let last: u64 = self.batches[i].last_offset;
        let lock_timeout: u64 = self.batches[i].lock_timeout;
        let acquired_at: u64 = match self.batches[i].acquired_at {
            Some(at) => at,
            None => 0,
        };
        let expire_at: u64 = acquired_at + lock_timeout;
        let pieces: Vec<InFlightBatch> = cut_run(&self.batches[i], from, to, kind, now);
        let ghost ps = pieces@;
        let count: usize = pieces.len();
        proof {
            lemma_splice(before, i as int, ps);
            lemma_answered(before, i as int, ps, from, to, kind, now);
            assert(expiries(self.timers@).contains(b.expiry()));
        }
        // The timer of the whole run gives way to one for each piece that is still acquired.
        cancel_timer(&mut self.timers, expire_at, first);
        proof {
            assert(expiries(self.timers@) == pending(before).remove(b.expiry()));
            lemma_other_firsts(before, i as int, self.timers@);
        }
        if first < from {
            add_timer(
                &mut self.timers,
                ExpiryTimer {
                    expire_at,
                    first_offset: first,
                    last_offset: from - 1,
                    member_id: crate::text::owned(member_id),
                },
            );
        }
        if let AcknowledgeType::Renew = kind {
            add_timer(
                &mut self.timers,
                ExpiryTimer {
                    expire_at: now + lock_timeout,
                    first_offset: from,
                    last_offset: to,
                    member_id: crate::text::owned(member_id),
                },
            );
        }
        if to < last {
            add_timer(
                &mut self.timers,
                ExpiryTimer {
                    expire_at,
                    first_offset: to + 1,
                    last_offset: last,
                    member_id: crate::text::owned(member_id),
                },
            );
        }
        splice_run(&mut self.batches, i, pieces);
        proof {
            assert(expiries(self.timers@) =~= pending(before).remove(b.expiry()).union(pending(ps)));
            assert(before[i as int].first_offset == first);
            assert(starts(before).contains(first));
        }
        count
    }

    /// Applies one acknowledgement, run by run. Returns whether any record changed.
    fn acknowledge_range(
        &mut self,
        member_id: &str,
        ack: &AckBatch,
        now: u64,
        dlq: &mut Vec<u64>,
    ) -> (touched: bool)
        requires
            old(self).wf(),
            ack.first_offset <= ack.last_offset,
            now <= MAX_TIME,
        ensures
            final(self).wf(),
            final(self).same_place(*old(self)),
            final(self).start_offset == old(self).start_offset,
            final(self).next_fetch_offset == old(self).next_fetch_offset,
            final(self).version == old(self).version,
            final(self).leases() == acked(old(self).leases(), *ack, member_id@, now),
            final(self).starts() == cut(old(self).leases(), old(self).starts(), *ack, member_id@),
            final(dlq)@ == old(dlq)@ + rejected(old(self).leases(), *ack, member_id@),
            !touched ==> *final(self) == *old(self),
    {
        let ghost m = self.leases();
        let ghost lo = ack.first_offset as int;
        let ghost hi = ack.last_offset + 1;
        let ghost mut done: int = 0;
        let mut i: usize = 0;
        let mut touched: bool = false;
        let ghost s = self.starts();
        proof {
            assert(self.leases() =~= acked_below(m, *ack, member_id@, now, 0));
            assert(self.starts() =~= cut_below(m, s, *ack, member_id@, 0));
        }
        while i < self.batches.len() && self.batches[i].first_offset <= ack.last_offset
            invariant
                self.wf(),
                self.same_place(*old(self)),
                self.start_offset == old(self).start_offset,
                self.next_fetch_offset == old(self).next_fetch_offset,
                self.version == old(self).version,
                lo == ack.first_offset,
                hi == ack.last_offset + 1,
                lo < hi,
                now <= MAX_TIME,
                i <= self.batches.len(),
                done == (if i == 0 { 0 } else { self.batches@[i - 1].last_offset + 1 }),
                self.leases() == acked_below(m, *ack, member_id@, now, done),
                m == old(self).leases(),
                self.starts() == cut_below(m, s, *ack, member_id@, done),
                dlq@ == old(dlq)@ + (if ack.ack_type is Reject {
                    held_in(m, member_id@, lo, if done < hi { done } else { hi })
                } else {
                    Seq::empty()
                }),
                !touched ==> *self == *old(self),
            decreases self.batches.len() - i,
        {
            let first: u64 = self.batches[i].first_offset;
            let last: u64 = self.batches[i].last_offset;
            proof {
                lemma_known_at(*self, m, *ack, member_id@, now, i as int, done);
            }
            let ghost start = if done < lo { lo } else if done < hi { done } else { hi };
            let ghost end = if last + 1 < hi { last + 1 } else { hi };
            if last < ack.first_offset || !self.batches[i].held_by(member_id) {
                proof {
                    if start <= end {
                        lemma_held_none(m, member_id@, lo, start, end);
                    }
                    lemma_held_none(m, member_id@, lo, start, start);
                    lemma_acked_none(m, *ack, member_id@, now, done, last + 1);
                    lemma_cut_none(m, s, *ack, member_id@, done, last + 1);
                    done = last + 1;
                }
                i = i + 1;
            } else {
                let from: u64 = if first < ack.first_offset { ack.first_offset } else { first };
                let to: u64 = if ack.last_offset < last { ack.last_offset } else { last };
                if let AcknowledgeType::Reject = ack.ack_type {
                    push_run(dlq, from, to);
                }
                proof {
                    lemma_held_none(m, member_id@, lo, start, from as int);
                    lemma_held_all(m, member_id@, lo, from as int, end);
                    lemma_acked_run(m, *ack, member_id@, now, done, first, last);
                    lemma_next_start(self.batches@, i as int);
                }
                let ghost before = self.starts();
                let pieces: usize = self.answer_run(i, from, to, ack.ack_type, member_id, now);
                touched = true;
                proof {
                    lemma_cut_run(m, s, *ack, member_id@, done, first, last, before, self.starts());
                    done = last + 1;
                }
                assert(i + pieces <= self.batches.len());
                i = i + pieces;
            }
        }
        proof {
            lemma_rest_unknown(*self, m, *ack, member_id@, now, i as int, done);
            let start = if done < lo { lo } else if done < hi { done } else { hi };
            lemma_held_none(m, member_id@, lo, start, hi);
            lemma_acked_none(m, *ack, member_id@, now, done, if done < hi { hi } else { done });
            lemma_cut_none(m, s, *ack, member_id@, done, if done < hi { hi } else { done });
            assert(cut_below(m, s, *ack, member_id@, if done < hi { hi } else { done }) =~= cut(
                m,
                s,
                *ack,
                member_id@,
            ));
            assert(acked_below(m, *ack, member_id@, now, if done < hi { hi } else { done }) =~= acked(
                m,
                *ack,
                member_id@,
                now,
            ));
        }
        touched
    }

    /// Moves the start watermark past the finished records at the front and forgets them.
    /// Returns whether it moved.
    fn advance_watermark(&mut self) -> (moved: bool)
        requires
            old(self).wf(),
        ensures
            final(self).wf(),
            final(self).same_place(*old(self)),
            final(self).next_fetch_offset == old(self).next_fetch_offset,
            final(self).version == old(self).version,
            settled(old(self).leases(), old(self).start_offset, final(self).start_offset),
            final(self).leases() == from_offset(old(self).leases(), final(self).start_offset),
            final(self).starts() == not_before(old(self).starts(), final(self).start_offset),
            !moved ==> *final(self) == *old(self),
    {
        let ghost m = self.leases();
        let mut moved: bool = false;
        proof {
            assert forall|o: u64| m.contains_key(o) implies o >= self.start_offset by {
                assert(covered_at(self.batches@, covering(self.batches@, o), o));
            }
            assert(self.leases() =~= from_offset(m, self.start_offset));
            assert(self.starts() =~= not_before(old(self).starts(), self.start_offset));
        }
        while self.batches.len() > 0 && self.batches[0].first_offset == self.start_offset && (
        self.batches[0].state == ShareRecordState::Acknowledged || self.batches[0].state
            == ShareRecordState::Archived)
            invariant
                self.wf(),
                self.same_place(*old(self)),
                self.next_fetch_offset == old(self).next_fetch_offset,
                self.version == old(self).version,
                old(self).start_offset <= self.start_offset,
                forall|o: u64|
                    old(self).start_offset <= o < self.start_offset ==> #[trigger] finished(m, o),
                self.leases() == from_offset(m, self.start_offset),
                self.starts() == not_before(old(self).starts(), self.start_offset),
                !moved ==> *self == *old(self),
            decreases self.batches.len(),
        {
            let ghost bs = self.batches@;
            let ghost before = self.start_offset;
            proof {
                lemma_drop_front(bs);
                assert forall|o: u64| bs[0].covers(o) implies #[trigger] finished(m, o) by {
                    assert(covered_at(bs, 0, o));
                    lemma_lease_at(bs, 0, o);
                }
                assert forall|i: int| 1 <= i < bs.len() implies bs[0].last_offset < (
                #[trigger] bs[i]).first_offset by {}
            }
            self.start_offset = self.batches[0].last_offset + 1;
            let _ = self.batches.remove(0);
            moved = true;
            proof {
                assert(self.batches@ =~= bs.skip(1));
                assert(self.leases() =~= from_offset(m, self.start_offset));
                assert forall|o: u64|
                    self.starts().contains(o) == not_before(
                        old(self).starts(),
                        self.start_offset,
                    ).contains(o) by {
                    let _ = starts(bs).contains(o);
                    assert(starts(bs).contains(o) == not_before(old(self).starts(), before).contains(o));
                }
                assert(self.starts() =~= not_before(old(self).starts(), self.start_offset));
            }
        }
        proof {
            let o = self.start_offset;
            if finished(m, o) {
                assert(self.leases().contains_key(o));
                let k = covering(self.batches@, o);
                assert(covered_at(self.batches@, k, o));
                lemma_lease_at(self.batches@, k, o);
                if k > 0 {
                    assert(self.batches@[0].last_offset < self.batches@[k].first_offset);
                }
            }
        }
        moved
    }

    /// Applies acknowledgements (accept, release, reject, renew) in order. Each changes the
    /// records of its range that `member_id` holds, none if it ends before it begins; the finished
    /// records at the front are then forgotten. Returns the rejected offsets, which belong in the
    /// dead-letter queue.
    pub fn acknowledge(&mut self, member_id: &str, ack_batches: &[AckBatch], now: u64) -> (r: Vec<
        u64,
    >)
        requires
            old(self).wf(),
            now <= MAX_TIME,
        ensures
            final(self).wf(),
            final(self).same_place(*old(self)),
            final(self).next_fetch_offset == old(self).next_fetch_offset,
            ({
                let m = acked_all(old(self).leases(), ack_batches@, member_id@, now);
                &&& settled(m, old(self).start_offset, final(self).start_offset)
                &&& final(self).leases() == from_offset(m, final(self).start_offset)
            }),
            final(self).starts() == not_before(
                cut_all(old(self).leases(), old(self).starts(), ack_batches@, member_id@, now),
                final(self).start_offset,
            ),
            r@ == rejected_all(old(self).leases(), ack_batches@, member_id@, now),
            final(self).versioned(*old(self)),
    {
        let mut dlq: Vec<u64> = Vec::new();
        let mut changed: bool = false;
        let ghost m = self.leases();
        let mut i: usize = 0;
        proof {
            assert(ack_batches@.take(0) =~= Seq::empty());
        }
        while i < ack_batches.len()
            invariant
                i <= ack_batches@.len(),
                now <= MAX_TIME,
                self.wf(),
                self.same_place(*old(self)),
                self.start_offset == old(self).start_offset,
                self.next_fetch_offset == old(self).next_fetch_offset,
                self.version == old(self).version,
                m == old(self).leases(),
                self.leases() == acked_all(m, ack_batches@.take(i as int), member_id@, now),
                self.starts() == cut_all(
                    m,
                    old(self).starts(),
                    ack_batches@.take(i as int),
                    member_id@,
                    now,
                ),
                dlq@ == rejected_all(m, ack_batches@.take(i as int), member_id@, now),
                !changed ==> *self == *old(self),
            decreases ack_batches@.len() - i,
        {
            proof {
                assert(ack_batches@.take(i + 1).drop_last() =~= ack_batches@.take(i as int));
            }
            if ack_batches[i].first_offset <= ack_batches[i].last_offset {
                let touched: bool = self.acknowledge_range(
                    member_id,
                    &ack_batches[i],
                    now,
                    &mut dlq,
                );
                if touched {
                    changed = true;
                }
            } else {
                proof {
                    let ack = ack_batches@[i as int];
                    let before = self.leases();
                    assert(ack_batches@.take(i + 1).last() == ack);
                    assert(acked(before, ack, member_id@, now) =~= before);
                    assert(rejected(before, ack, member_id@) =~= Seq::empty());
                    assert(dlq@ + Seq::<u64>::empty() =~= dlq@);
                }
            }
            i = i + 1;
        }
        proof {
            assert(ack_batches@.take(i as int) =~= ack_batches@);
        }
        let moved: bool = self.advance_watermark();
        if changed || moved {
            self.version = self.version.wrapping_add(1);
        }
        dlq
    }

    /// The position of the run that begins at `first`.
    fn run_at(&self, first: u64) -> (r: usize)
        requires
            exists|i: int| 0 <= i < self.batches@.len() && (#[trigger] self.batches@[i]).first_offset == first,
        ensures
            r < self.batches@.len(),
            self.batches@[r as int].first_offset == first,
    {
        let mut i: usize = 0;
        while self.batches[i].first_offset != first
            invariant
                i < self.batches.len(),
                exists|k: int| i <= k < self.batches@.len() && (#[trigger] self.batches@[k]).first_offset == first,
            decreases self.batches.len() - i,
        {
            i = i + 1;
        }
        i
    }

    /// Ends the lease of the run at `i`: its records are archived where they were delivered
    /// often enough, and available again otherwise.
    fn end_lease(&mut self, i: usize) -> (archived: bool)
        requires
            ordered(old(self).batches@),
            i < old(self).batches@.len(),
            old(self).batches@[i as int].acquired(),
        ensures
            archived == (old(self).batches@[i as int].delivery_count >= old(
                self,
            ).max_delivery_attempts),
            ordered(final(self).batches@),
            *final(self) == (SharePartition { batches: final(self).batches, ..*old(self) }),
            final(self).batches@.len() == old(self).batches@.len(),
            forall|k: int|
                0 <= k < old(self).batches@.len() ==> (#[trigger] final(self).batches@[k]).first_offset
                    == old(self).batches@[k].first_offset && final(self).batches@[k].last_offset
                    == old(self).batches@[k].last_offset,
            final(self).leases() == ended_in(
                old(self).leases(),
                old(self).batches@[i as int].first_offset,
                old(self).batches@[i as int].last_offset,
                old(self).max_delivery_attempts,
            ),
            pending(final(self).batches@) == pending(old(self).batches@).remove(
                old(self).batches@[i as int].expiry(),
            ),
    {
        let ghost bs = self.batches@;
        let ghost b = bs[i as int];
        let archived: bool = self.batches[i].delivery_count >= self.max_delivery_attempts;
        let run = &mut self.batches[i];
        run.state = if archived {
            ShareRecordState::Archived
        } else {
            ShareRecordState::Available
        };
        run.acquired_by = None;
        run.acquired_at = None;
        proof {
            let nb = self.batches@[i as int];
            let ps = seq![nb];
            assert(ordered(ps));
            assert(tiles(ps, b.first_offset, b.last_offset));
            lemma_splice(bs, i as int, ps);
            assert(self.batches@ =~= spliced(bs, i as int, ps));
            assert(pending(ps) =~= Set::empty());
            assert(pending(self.batches@) =~= pending(bs).remove(b.expiry()));
            let want = ended_in(
                leases(bs),
                b.first_offset,
                b.last_offset,
                self.max_delivery_attempts,
            );
            assert forall|o: u64| want.dom().contains(o) implies self.leases()[o] == want[o] by {
                if b.covers(o) {
                    assert(covered_at(bs, i as int, o));
                    lemma_lease_at(bs, i as int, o);
                    assert(covered_at(ps, 0, o));
                    lemma_lease_at(ps, 0, o);
                }
            }
            assert forall|o: u64| self.leases().dom().contains(o) implies want.dom().contains(o) by {
                if leases(ps).contains_key(o) {
                    assert(covered_at(bs, i as int, o));
                }
            }
            assert(self.leases() =~= want);
        }
        archived
    }

    /// Ends every lease that has run out by `now` and moves the start watermark. Returns the
    /// archived offsets, in the order in which their leases ran out.
    fn sweep_timers_internal(&mut self, now: u64) -> (r: Vec<u64>)
        requires
            old(self).wf(),
        ensures
            final(self).wf(),
            final(self).same_place(*old(self)),
            final(self).next_fetch_offset == old(self).next_fetch_offset,
            ({
                let m = swept(old(self).leases(), now, old(self).max_delivery_attempts);
                &&& settled(m, old(self).start_offset, final(self).start_offset)
                &&& final(self).leases() == from_offset(m, final(self).start_offset)
            }),
            final(self).starts() == not_before(old(self).starts(), final(self).start_offset),
            swept_out(old(self).leases(), now, old(self).max_delivery_attempts, r@),
            final(self).version == old(self).version || final(self).version == old(
                self,
            ).version.wrapping_add(1),
            final(self).versioned(*old(self)),
    {
        let ghost m = self.leases();
        let mut dlq: Vec<u64> = Vec::new();
        let mut changed: bool = false;
        while self.timers.len() > 0 && self.timers[0].expire_at <= now
            invariant
                self.wf(),
                self.same_place(*old(self)),
                self.start_offset == old(self).start_offset,
                self.next_fetch_offset == old(self).next_fetch_offset,
                self.version == old(self).version,
                m == old(self).leases(),
                self.starts() == old(self).starts(),
                self.leases().dom() == m.dom(),
                forall|o: u64|
                    #![trigger self.leases()[o]]
                    m.contains_key(o) ==> self.leases()[o] == m[o] || (ran_out(m[o], now)
                        && self.leases()[o] == ended(m[o], self.max_delivery_attempts)),
                forall|k: int|
                    0 <= k < dlq@.len() ==> m.contains_key(#[trigger] dlq@[k]) && self.leases()[dlq@[k]]
                        != m[dlq@[k]] && m[dlq@[k]].delivery_count >= self.max_delivery_attempts,
                forall|o: u64|
                    #![trigger self.leases()[o]]
                    m.contains_key(o) && self.leases()[o] != m[o] && m[o].delivery_count
                        >= self.max_delivery_attempts ==> dlq@.contains(o),
                forall|a: int, b: int|
                    0 <= a < b < dlq@.len() ==> runs_out_before(m, #[trigger] dlq@[a], #[trigger] dlq@[b]),
                forall|a: int, j: int|
                    0 <= a < dlq@.len() && 0 <= j < self.timers@.len() ==> ends_before(
                        m,
                        #[trigger] dlq@[a],
                        #[trigger] self.timers@[j],
                    ),
                !changed ==> *self == *old(self),
            decreases self.timers@.len(),
        {
            let ghost before = *self;
            let ghost cur = self.leases();
            proof {
                assert(expiries(self.timers@).contains(self.timers@[0]@));
            }
            let timer = take_timer(&mut self.timers, 0);
            changed = true;
            let ghost bi = choose|k: int|
                0 <= k < self.batches@.len() && #[trigger] self.batches@[k].acquired()
                    && self.batches@[k].expiry() == timer@;
            proof {
                assert(self.batches@[bi].first_offset == timer.first_offset);
            }
            let i: usize = self.run_at(timer.first_offset);
            proof {
                if i < bi {
                    assert(self.batches@[i as int].last_offset < self.batches@[bi].first_offset);
                } else if bi < i {
                    assert(self.batches@[bi].last_offset < self.batches@[i as int].first_offset);
                }
            }
            let first: u64 = self.batches[i].first_offset;
            let last: u64 = self.batches[i].last_offset;
            let ghost b = self.batches@[i as int];
            proof {
                assert forall|o: u64| b.covers(o) implies #[trigger] m.contains_key(o) && cur[o] == b.lease()
                    && cur[o] == m[o] && ran_out(m[o], now) by {
                    assert(covered_at(self.batches@, i as int, o));
                    lemma_lease_at(self.batches@, i as int, o);
                    assert(cur.dom().contains(o));
                }
            }
            let archived: bool = self.end_lease(i);
            assert(self.starts() =~= before.starts()) by {
                lemma_same_starts(self.batches@, before.batches@);
            }
            let ghost dlq0 = dlq@;
            if archived {
                push_run(&mut dlq, first, last);
            }
            proof {
                let bs = before.batches@;
                let max = self.max_delivery_attempts;
                assert forall|o: u64|
                    #![trigger self.leases()[o]]
                    m.contains_key(o) implies (self.leases()[o] == m[o] || (ran_out(m[o], now)
                    && self.leases()[o] == ended(m[o], max))) && (self.leases()[o] != m[o]
                    && m[o].delivery_count >= max ==> dlq@.contains(o)) by {
                    if b.covers(o) {
                        if archived {
                            let k = dlq0.len() + (o - first);
                            assert(dlq@[k] == o);
                        }
                    } else if self.leases()[o] != m[o] && m[o].delivery_count >= max {
                        assert(cur[o] == self.leases()[o]);
                        assert(dlq0.contains(o));
                        let k = choose|k: int| 0 <= k < dlq0.len() && dlq0[k] == o;
                        assert(dlq@[k] == o);
                    }
                }
                assert forall|k: int| 0 <= k < dlq@.len() implies m.contains_key(#[trigger] dlq@[k])
                    && self.leases()[dlq@[k]] != m[dlq@[k]] && m[dlq@[k]].delivery_count >= max by {
                    if k < dlq0.len() {
                        assert(dlq@[k] == dlq0[k]);
                        assert(!b.covers(dlq0[k]));
                    } else {
                        assert(b.covers(dlq@[k]));
                        assert(m.contains_key(dlq@[k]));
                    }
                }
                assert forall|x: int, y: int| 0 <= x < y < dlq@.len() implies runs_out_before(
                    m,
                    #[trigger] dlq@[x],
                    #[trigger] dlq@[y],
                ) by {
                    if y < dlq0.len() {
                        assert(runs_out_before(m, dlq0[x], dlq0[y]));
                    } else {
                        assert(b.covers(dlq@[y]));
                        assert(m.contains_key(dlq@[y]));
                        if x < dlq0.len() {
                            assert(ends_before(m, dlq0[x], before.timers@[0]));
                        } else {
                            assert(b.covers(dlq@[x]));
                            assert(m.contains_key(dlq@[x]));
                        }
                    }
                }
                assert forall|x: int, j: int|
                    0 <= x < dlq@.len() && 0 <= j < self.timers@.len() implies ends_before(
                    m,
                    #[trigger] dlq@[x],
                    #[trigger] self.timers@[j],
                ) by {
                    assert(self.timers@[j] == before.timers@[j + 1]);
                    if x < dlq0.len() {
                        assert(ends_before(m, dlq0[x], before.timers@[j + 1]));
                    } else {
                        assert(b.covers(dlq@[x]));
                        assert(m.contains_key(dlq@[x]));
                        assert(crate::share::timers::before(before.timers@[0]@, before.timers@[j + 1]@));
                        assert(expiries(before.timers@).contains(before.timers@[j + 1]@));
                        let q = choose|q: int|
                            0 <= q < bs.len() && #[trigger] bs[q].acquired() && bs[q].expiry()
                                == before.timers@[j + 1]@;
                        if q < i {
                            assert(bs[q].last_offset < bs[i as int].first_offset);
                        } else if i < q {
                            assert(bs[i as int].last_offset < bs[q].first_offset);
                        }
                    }
                }
            }
        }
        proof {
            let after = swept(m, now, self.max_delivery_attempts);
            assert forall|o: u64| m.contains_key(o) implies self.leases()[o] == after[o] by {
                if ran_out(m[o], now) && self.leases()[o] == m[o] {
                    assert(self.leases().dom().contains(o));
                    let k = covering(self.batches@, o);
                    assert(covered_at(self.batches@, k, o));
                    lemma_lease_at(self.batches@, k, o);
                    let b = self.batches@[k];
                    assert(b.acquired());
                    assert(pending(self.batches@).contains(b.expiry()));
                    assert(expiries(self.timers@).contains(b.expiry()));
                    let j = choose|j: int| 0 <= j < self.timers@.len() && (#[trigger] self.timers@[j])@ == b.expiry();
                    if j > 0 {
                        assert(crate::share::timers::before(self.timers@[0]@, self.timers@[j]@));
                    }
                }
            }
            assert(self.leases() =~= after);
            assert forall|o: u64| #[trigger] dlq@.contains(o) <==> m.contains_key(o) && ran_out(
                m[o],
                now,
            ) && m[o].delivery_count >= self.max_delivery_attempts by {
                if m.contains_key(o) {
                    let _ = self.leases()[o];
                }
            }
        }
        let moved: bool = self.advance_watermark();
        if changed || moved {
            self.version = self.version.wrapping_add(1);
        }
        dlq
    }

    /// Ends every lease that has run out by `now`. Returns the archived offsets, which belong in
    /// the dead-letter queue, in the order in which their leases ran out.
    pub fn check_lock_timeouts(&mut self, now: u64) -> (r: Vec<u64>)
        requires
            old(self).wf(),
        ensures
            final(self).wf(),
            final(self).same_place(*old(self)),
            final(self).next_fetch_offset == old(self).next_fetch_offset,
            ({
                let m = swept(old(self).leases(), now, old(self).max_delivery_attempts);
                &&& settled(m, old(self).start_offset, final(self).start_offset)
                &&& final(self).leases() == from_offset(m, final(self).start_offset)
            }),
            final(self).starts() == not_before(old(self).starts(), final(self).start_offset),
            swept_out(old(self).leases(), now, old(self).max_delivery_attempts, r@),
            final(self).versioned(*old(self)),
    {
        self.sweep_timers_internal(now)
    }

    /// Ends the leases that have run out by `now`, where the earliest timer says that there are
    /// any, and leaves everything as it is otherwise.
    pub fn sweep_timers_inline(&mut self, now: u64)
        requires
            old(self).wf(),
        ensures
            final(self).wf(),
            final(self).same_place(*old(self)),
            final(self).next_fetch_offset == old(self).next_fetch_offset,
            final(self).lapsed(*old(self), now),
            final(self).version == old(self).version || final(self).version == old(
                self,
            ).version.wrapping_add(1),
            final(self).versioned(*old(self)),
    {
        let ghost m = self.leases();
        if self.timers.len() > 0 && self.timers[0].expire_at <= now {
            proof {
                assert(expiries(self.timers@).contains(self.timers@[0]@));
                let k = choose|k: int|
                    0 <= k < self.batches@.len() && #[trigger] self.batches@[k].acquired()
                        && self.batches@[k].expiry() == self.timers@[0]@;
                let o = self.batches@[k].first_offset;
                assert(covered_at(self.batches@, k, o));
                lemma_lease_at(self.batches@, k, o);
                assert(m.contains_key(o) && ran_out(m[o], now));
            }
            let _ = self.sweep_timers_internal(now);
        } else {
            proof {
                assert forall|o: u64| m.contains_key(o) implies !ran_out(#[trigger] m[o], now) by {
                    if ran_out(m[o], now) {
                        let k = covering(self.batches@, o);
                        assert(covered_at(self.batches@, k, o));
                        lemma_lease_at(self.batches@, k, o);
                        let b = self.batches@[k];
                        assert(b.acquired());
                        assert(pending(self.batches@).contains(b.expiry()));
                        assert(expiries(self.timers@).contains(b.expiry()));
                        let j = choose|j: int|
                            0 <= j < self.timers@.len() && (#[trigger] self.timers@[j])@
                                == b.expiry();
                        if j > 0 {
                            assert(crate::share::timers::before(self.timers@[0]@, self.timers@[j]@));
                        }
                    }
                }
            }
        }
    }
}

} // verus!
