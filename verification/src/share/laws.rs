//! What holds of a share partition over several requests.
use crate::records::Record;
use crate::share::acquire::{
    acquired_from, available, found_again, fresh, handed_out, handed_to, lowest_available,
    read_from, AcquiredRecordInfo,
};
use crate::share::batches::{
    covered_at, covering, leases, lemma_lease_at, ordered, starts, InFlightBatch, Lease,
};
use crate::share::manager::{grouped, DeliveredRun};
use crate::share::partition::{
    acked_all, finished, held, held_in, not_before, ran_out, rejected, rejected_all, swept, AckBatch,
    SharePartition,
};
use vstd::prelude::*;

verus! {

/// An acknowledgement changes nothing of a record that the member does not hold, and never how
/// often a record was delivered.
pub proof fn only_the_holder_answers(
    m: Map<u64, Lease>,
    acks: Seq<AckBatch>,
    member: Seq<char>,
    now: u64,
)
    ensures
        acked_all(m, acks, member, now).dom() == m.dom(),
        forall|o: u64| #[trigger]
            m.contains_key(o) ==> acked_all(m, acks, member, now)[o].delivery_count
                == m[o].delivery_count,
        forall|o: u64|
            m.contains_key(o) && !#[trigger] held(m, member, o) ==> acked_all(
                m,
                acks,
                member,
                now,
            )[o] == m[o],
    decreases acks.len(),
{
    if acks.len() > 0 {
        let before = acked_all(m, acks.drop_last(), member, now);
        only_the_holder_answers(m, acks.drop_last(), member, now);
        assert(acked_all(m, acks, member, now).dom() =~= m.dom());
        assert forall|o: u64|
            m.contains_key(o) && !#[trigger] held(m, member, o) implies acked_all(
            m,
            acks,
            member,
            now,
        )[o] == m[o] by {
            assert(before.dom().contains(o));
            assert(!held(before, member, o));
        }
        assert forall|o: u64| #[trigger] m.contains_key(o) implies acked_all(
            m,
            acks,
            member,
            now,
        )[o].delivery_count == m[o].delivery_count by {
            assert(before.dom().contains(o));
        }
    }
}

/// A record that was acknowledged or archived stays so, whoever acknowledges what and whichever
/// leases run out.
pub proof fn finished_is_final(
    m: Map<u64, Lease>,
    acks: Seq<AckBatch>,
    member: Seq<char>,
    now: u64,
    max_delivery_attempts: u16,
)
    ensures
        forall|o: u64| #[trigger]
            finished(m, o) ==> acked_all(m, acks, member, now)[o] == m[o] && swept(
                m,
                now,
                max_delivery_attempts,
            )[o] == m[o],
{
    only_the_holder_answers(m, acks, member, now);
    assert forall|o: u64| #[trigger] finished(m, o) implies acked_all(m, acks, member, now)[o]
        == m[o] && swept(m, now, max_delivery_attempts)[o] == m[o] by {
        assert(!held(m, member, o));
    }
}

proof fn lemma_held_in(m: Map<u64, Lease>, member: Seq<char>, lo: int, hi: int)
    requires
        0 <= lo,
        hi <= u64::MAX + 1,
    ensures
        forall|o: u64| #[trigger]
            held_in(m, member, lo, hi).contains(o) ==> lo <= o < hi && held(m, member, o),
    decreases hi - lo,
{
    if lo < hi {
        lemma_held_in(m, member, lo, hi - 1);
        let rest = held_in(m, member, lo, hi - 1);
        assert forall|o: u64| #[trigger] held_in(m, member, lo, hi).contains(o) implies lo <= o < hi
            && held(m, member, o) by {
            let s = held_in(m, member, lo, hi);
            let k = choose|k: int| 0 <= k < s.len() && s[k] == o;
            if s == rest.push((hi - 1) as u64) && k < rest.len() {
                assert(rest[k] == o);
                assert(rest.contains(o));
            }
        }
    }
}

/// Only what the member held goes to the dead-letter queue, and whatever goes there is finished.
pub proof fn only_held_records_are_rejected(
    m: Map<u64, Lease>,
    acks: Seq<AckBatch>,
    member: Seq<char>,
    now: u64,
)
    ensures
        forall|o: u64| #[trigger]
            rejected_all(m, acks, member, now).contains(o) ==> held(m, member, o) && finished(
                acked_all(m, acks, member, now),
                o,
            ),
    decreases acks.len(),
{
    if acks.len() > 0 {
        let before = acked_all(m, acks.drop_last(), member, now);
        let earlier = rejected_all(m, acks.drop_last(), member, now);
        let last = rejected(before, acks.last(), member);
        only_held_records_are_rejected(m, acks.drop_last(), member, now);
        only_the_holder_answers(m, acks.drop_last(), member, now);
        assert forall|o: u64| #[trigger]
            rejected_all(m, acks, member, now).contains(o) implies held(m, member, o) && finished(
            acked_all(m, acks, member, now),
            o,
        ) by {
            let s = rejected_all(m, acks, member, now);
            assert(s == earlier + last);
            let k = choose|k: int| 0 <= k < s.len() && s[k] == o;
            if k < earlier.len() {
                assert(earlier[k] == o);
                assert(earlier.contains(o));
                assert(!held(before, member, o));
            } else {
                assert(last[k - earlier.len()] == o);
                assert(last.contains(o));
                lemma_held_in(
                    before,
                    member,
                    acks.last().first_offset as int,
                    acks.last().last_offset + 1,
                );
                assert(before.dom().contains(o));
                assert(held(m, member, o));
            }
        }
    }
}

/// The leases from which records are handed out, in which nothing that was unfinished at the
/// time is missing.
proof fn lemma_lapsed(
    before: SharePartition,
    after: SharePartition,
    member: Seq<char>,
    max_records: int,
    lock_timeout: Option<u64>,
    now: u64,
    infos: Seq<AcquiredRecordInfo>,
    o: u64,
) -> (base: Map<u64, Lease>)
    requires
        before.wf(),
        handed_to(before, after, member, max_records, lock_timeout, now, infos),
        max_records != 0,
        before.leases().contains_key(o),
        !finished(swept(before.leases(), now, before.max_delivery_attempts), o),
    ensures
        o < before.next_fetch_offset,
        base.contains_key(o),
        forall|p: u64|
            #![trigger base[p]]
            base.contains_key(p) ==> before.leases().contains_key(p) && base[p] == swept(
                before.leases(),
                now,
                before.max_delivery_attempts,
            )[p],
        acquired_from(
            base,
            before.next_fetch_offset,
            after,
            member,
            now,
            match lock_timeout {
                Some(t) => t,
                None => before.default_lock_timeout,
            },
            max_records,
            infos,
        ),
{
    let m = before.leases();
    let base = choose|base: SharePartition| #[trigger]
        base.lapsed(before, now) && after.start_offset == base.start_offset && acquired_from(
            base.leases(),
            before.next_fetch_offset,
            after,
            member,
            now,
            match lock_timeout {
                Some(t) => t,
                None => before.default_lock_timeout,
            },
            max_records,
            infos,
        );
    let k = covering(before.batches@, o);
    assert(covered_at(before.batches@, k, o));
    if !(exists|p: u64| m.contains_key(p) && ran_out(#[trigger] m[p], now)) {
        assert(base == before);
        assert(swept(m, now, before.max_delivery_attempts) =~= m);
    }
    base.leases()
}

/// A record has one holder at a time: what a member holds, and whose lease has not run out, is
/// handed to nobody, and stays with that member. Whatever is handed out is held by the member
/// that it was handed to.
pub proof fn a_record_has_one_holder(
    before: SharePartition,
    after: SharePartition,
    member: Seq<char>,
    max_records: int,
    lock_timeout: Option<u64>,
    now: u64,
    infos: Seq<AcquiredRecordInfo>,
    holder: Seq<char>,
    o: u64,
)
    requires
        before.wf(),
        handed_to(before, after, member, max_records, lock_timeout, now, infos),
    ensures
        forall|k: int|
            0 <= k < infos.len() ==> held(after.leases(), member, (#[trigger] infos[k]).offset),
        held(before.leases(), holder, o) && !ran_out(before.leases()[o], now) ==> held(
            after.leases(),
            holder,
            o,
        ) && forall|k: int| 0 <= k < infos.len() ==> (#[trigger] infos[k]).offset != o,
{
    if max_records != 0 && held(before.leases(), holder, o) && !ran_out(before.leases()[o], now) {
        let base = lemma_lapsed(before, after, member, max_records, lock_timeout, now, infos, o);
        let _ = after.leases()[o];
    }
}

/// Two requests in a row share no record, as long as no lease that the first was given has run
/// out by the second. Neither holds a record twice, or more records than were asked for, and a
/// request for none changes nothing.
pub proof fn two_requests_share_nothing(
    before: SharePartition,
    between: SharePartition,
    after: SharePartition,
    first: (Seq<char>, int, Option<u64>, u64),
    second: (Seq<char>, int, Option<u64>, u64),
    a: Seq<AcquiredRecordInfo>,
    b: Seq<AcquiredRecordInfo>,
)
    requires
        between.wf(),
        handed_to(before, between, first.0, first.1, first.2, first.3, a),
        handed_to(between, after, second.0, second.1, second.2, second.3, b),
        forall|i: int|
            0 <= i < a.len() ==> !ran_out(
                between.leases()[(#[trigger] a[i]).offset],
                second.3,
            ),
    ensures
        forall|i: int, j: int|
            0 <= i < a.len() && 0 <= j < b.len() ==> (#[trigger] a[i]).offset != (
            #[trigger] b[j]).offset,
        forall|i: int, j: int|
            0 <= i < j < a.len() ==> (#[trigger] a[i]).offset != (#[trigger] a[j]).offset,
        forall|i: int, j: int|
            0 <= i < j < b.len() ==> (#[trigger] b[i]).offset != (#[trigger] b[j]).offset,
        a.len() <= first.1,
        b.len() <= second.1,
        second.1 == 0 ==> b.len() == 0 && after == between,
{
    assert forall|i: int, j: int| 0 <= i < a.len() && 0 <= j < b.len() implies (
    #[trigger] a[i]).offset != (#[trigger] b[j]).offset by {
        let o = a[i].offset;
        assert(held(between.leases(), first.0, o));
        a_record_has_one_holder(
            between,
            after,
            second.0,
            second.1,
            second.2,
            second.3,
            b,
            first.0,
            o,
        );
    }
}

proof fn lemma_nothing_again(
    bs: Seq<InFlightBatch>,
    reads: Map<u64, Option<Vec<Record>>>,
    max_records: int,
    n: int,
)
    requires
        0 <= n <= bs.len(),
        forall|i: int| 0 <= i < bs.len() ==> !((#[trigger] bs[i]).state is Available),
    ensures
        found_again(bs, reads, max_records, n).len() == 0,
    decreases n,
{
    if n > 0 {
        lemma_nothing_again(bs, reads, max_records, n - 1);
    }
}

/// Where nothing is available again, a member is handed the next records of the log, as many as
/// it asked for and the read gave, each for the first time.
pub proof fn fresh_records_come_in_order(
    base: SharePartition,
    after: SharePartition,
    member: Seq<char>,
    max_records: int,
    timeout: u64,
    now: u64,
    reads: Map<u64, Option<Vec<Record>>>,
    infos: Seq<AcquiredRecordInfo>,
)
    requires
        read_from(base, after, member, max_records, timeout, now, reads, infos),
        max_records > 0,
        forall|i: int|
            0 <= i < base.batches@.len() ==> !((#[trigger] base.batches@[i]).state is Available),
    ensures
        reads.contains_key(base.next_fetch_offset),
        infos == (match reads[base.next_fetch_offset] {
            Some(records) => handed_out(fresh(records@, base.next_fetch_offset, max_records), 1),
            None => Seq::empty(),
        }),
{
    let bs = base.batches@;
    let n = bs.len() as int;
    lemma_nothing_again(bs, reads, max_records, n);
    assert(found_again(bs, reads, max_records, n) =~= Seq::empty());
    assert(handed_out(Seq::empty(), 1) =~= Seq::empty());
    assert(infos =~= match reads[base.next_fetch_offset] {
        Some(records) => handed_out(fresh(records@, base.next_fetch_offset, max_records), 1),
        None => Seq::empty(),
    });
}

/// Handing records out never moves the start of the partition back.
pub proof fn the_start_never_moves_back(
    before: SharePartition,
    after: SharePartition,
    member: Seq<char>,
    max_records: int,
    lock_timeout: Option<u64>,
    now: u64,
    infos: Seq<AcquiredRecordInfo>,
)
    requires
        handed_to(before, after, member, max_records, lock_timeout, now, infos),
    ensures
        before.start_offset <= after.start_offset,
{
}

/// A record that nobody answered for in time is delivered again, and counted once more, unless
/// it was delivered as often as it may be: of those that are available then, the lowest goes to
/// the next member that asks.
pub proof fn what_ran_out_is_delivered_again(
    before: SharePartition,
    after: SharePartition,
    member: Seq<char>,
    max_records: int,
    lock_timeout: Option<u64>,
    now: u64,
    infos: Seq<AcquiredRecordInfo>,
    o: u64,
)
    requires
        before.wf(),
        handed_to(before, after, member, max_records, lock_timeout, now, infos),
        max_records > 0,
        before.leases().contains_key(o),
        ran_out(before.leases()[o], now),
        before.leases()[o].delivery_count < before.max_delivery_attempts,
        forall|p: u64|
            before.leases().contains_key(p) && p < o ==> !(#[trigger] before.leases()[p].state is Available)
                && !ran_out(before.leases()[p], now),
    ensures
        held(after.leases(), member, o),
        after.leases()[o].delivery_count == before.leases()[o].delivery_count + 1,
{
    let base = lemma_lapsed(before, after, member, max_records, lock_timeout, now, infos, o);
    let m = before.leases();
    assert forall|p: u64| #[trigger] available(base, p) implies o <= p by {
        if p < o {
            assert(!(m[p].state is Available));
        }
    }
    assert(lowest_available(base, o));
    let _ = after.leases()[o];
}

/// What is left of some runs without the last one.
proof fn lemma_without_last(bs: Seq<InFlightBatch>)
    requires
        ordered(bs),
        bs.len() > 0,
    ensures
        ordered(bs.drop_last()),
        forall|o: u64| #[trigger]
            starts(bs.drop_last()).contains(o) <==> starts(bs).contains(o) && o
                < bs.last().first_offset,
        forall|o: u64| #[trigger]
            leases(bs.drop_last()).dom().contains(o) <==> leases(bs).dom().contains(o) && o
                < bs.last().first_offset,
{
    let rest = bs.drop_last();
    let n = rest.len() as int;
    assert forall|o: u64| #[trigger]
        starts(rest).contains(o) <==> starts(bs).contains(o) && o < bs.last().first_offset by {
        if starts(rest).contains(o) {
            let k = choose|k: int| 0 <= k < rest.len() && (#[trigger] rest[k]).first_offset == o;
            assert(bs[k].wf() && bs[k].last_offset < bs[n].first_offset);
        }
        if starts(bs).contains(o) && o < bs.last().first_offset {
            let k = choose|k: int| 0 <= k < bs.len() && (#[trigger] bs[k]).first_offset == o;
            assert(rest[k].first_offset == o);
        }
    }
    assert forall|o: u64| #[trigger]
        leases(rest).dom().contains(o) <==> leases(bs).dom().contains(o) && o
            < bs.last().first_offset by {
        if leases(rest).contains_key(o) {
            let k = covering(rest, o);
            assert(covered_at(rest, k, o));
            assert(covered_at(bs, k, o));
            assert(bs[k].last_offset < bs[n].first_offset);
        }
        if leases(bs).contains_key(o) && o < bs.last().first_offset {
            let k = covering(bs, o);
            assert(covered_at(bs, k, o));
            assert(covered_at(rest, k, o));
        }
    }
}

/// The runs `bs` have the bounds of the last of the runs `cs`.
pub open spec fn bounded_as_last(bs: Seq<InFlightBatch>, cs: Seq<InFlightBatch>) -> bool {
    &&& bs.len() <= cs.len()
    &&& forall|i: int|
        0 <= i < bs.len() ==> (#[trigger] bs[i]).first_offset == cs[i + cs.len()
            - bs.len()].first_offset && bs[i].last_offset == cs[i + cs.len() - bs.len()].last_offset
}

/// Runs that begin where others do, from `start` on, and cover the same offsets, have the same
/// bounds.
proof fn lemma_same_bounds(bs: Seq<InFlightBatch>, cs: Seq<InFlightBatch>, start: u64)
    requires
        ordered(bs),
        ordered(cs),
        starts(bs) == not_before(starts(cs), start),
        forall|o: u64| #[trigger]
            leases(bs).dom().contains(o) <==> leases(cs).dom().contains(o) && start <= o,
    ensures
        bounded_as_last(bs, cs),
    decreases cs.len(),
{
    if bs.len() > 0 {
        let b = bs.last();
        let n = bs.len() - 1;
        assert(bs[n].first_offset == b.first_offset);
        assert(starts(bs).contains(b.first_offset));
        let k = choose|k: int|
            0 <= k < cs.len() && (#[trigger] cs[k]).first_offset == b.first_offset;
        let c = cs.last();
        let l = cs.len() - 1;
        assert(cs[l].wf() && bs[n].wf() && cs[k].wf());
        if k < l {
            assert(cs[k].last_offset < cs[l].first_offset);
        }
        assert(starts(cs).contains(c.first_offset)) by {
            assert(cs[l].first_offset == c.first_offset);
        }
        assert(starts(bs).contains(c.first_offset));
        let q = choose|q: int|
            0 <= q < bs.len() && (#[trigger] bs[q]).first_offset == c.first_offset;
        assert(bs[q].wf());
        if q < n {
            assert(bs[q].last_offset < bs[n].first_offset);
        }
        assert(b.first_offset == c.first_offset);
        assert(covered_at(cs, l, c.last_offset));
        lemma_lease_at(cs, l, c.last_offset);
        assert(leases(cs).dom().contains(c.last_offset));
        assert(leases(bs).dom().contains(c.last_offset));
        let x = covering(bs, c.last_offset);
        assert(covered_at(bs, x, c.last_offset));
        if x < n {
            assert(bs[x].last_offset < bs[n].first_offset);
        }
        assert(covered_at(bs, n, b.last_offset));
        lemma_lease_at(bs, n, b.last_offset);
        assert(leases(bs).dom().contains(b.last_offset));
        let y = covering(cs, b.last_offset);
        assert(covered_at(cs, y, b.last_offset));
        if y < l {
            assert(cs[y].last_offset < cs[l].first_offset);
        }
        assert(b.last_offset == c.last_offset);
        lemma_without_last(bs);
        lemma_without_last(cs);
        let bs1 = bs.drop_last();
        let cs1 = cs.drop_last();
        assert(starts(bs1) =~= not_before(starts(cs1), start));
        lemma_same_bounds(bs1, cs1, start);
        assert forall|i: int| 0 <= i < bs.len() implies (#[trigger] bs[i]).first_offset == cs[i
            + cs.len() - bs.len()].first_offset && bs[i].last_offset == cs[i + cs.len()
            - bs.len()].last_offset by {
            if i < n {
                assert(bs1[i].first_offset == cs1[i + cs1.len() - bs1.len()].first_offset);
            }
        }
    }
}

/// The leases of the records and where the runs begin say everything of the runs.
pub proof fn leases_and_starts_fix_the_runs(bs: Seq<InFlightBatch>, cs: Seq<InFlightBatch>)
    requires
        ordered(bs),
        ordered(cs),
        starts(bs) == starts(cs),
        leases(bs) == leases(cs),
    ensures
        bs.len() == cs.len(),
        forall|i: int|
            0 <= i < bs.len() ==> (#[trigger] bs[i]).first_offset == cs[i].first_offset
                && bs[i].last_offset == cs[i].last_offset && bs[i].lease() == cs[i].lease(),
{
    assert(starts(bs) =~= not_before(starts(cs), 0));
    assert(cs.len() <= bs.len()) by {
        lemma_same_bounds(cs, bs, 0);
    }
    lemma_same_bounds(bs, cs, 0);
    assert forall|i: int| 0 <= i < bs.len() implies (#[trigger] bs[i]).first_offset
        == cs[i].first_offset && bs[i].last_offset == cs[i].last_offset && bs[i].lease()
        == cs[i].lease() by {
        let o = bs[i].first_offset;
        assert(bs[i].wf());
        assert(covered_at(bs, i, o));
        assert(covered_at(cs, i, o));
        lemma_lease_at(bs, i, o);
        lemma_lease_at(cs, i, o);
    }
}

/// Ending overdue leases cuts no run and joins none: the runs from the new start on keep their
/// bounds.
pub proof fn a_sweep_keeps_the_runs(before: SharePartition, after: SharePartition, now: u64)
    requires
        before.wf(),
        after.wf(),
        after.lapsed(before, now),
    ensures
        bounded_as_last(after.batches@, before.batches@),
{
    let m = before.leases();
    if exists|o: u64| m.contains_key(o) && ran_out(#[trigger] m[o], now) {
        let swept_leases = swept(m, now, before.max_delivery_attempts);
        assert forall|o: u64| #[trigger]
            after.leases().dom().contains(o) <==> m.dom().contains(o) && after.start_offset <= o by {
            assert(swept_leases.dom().contains(o) == m.dom().contains(o));
        }
        lemma_same_bounds(after.batches@, before.batches@, after.start_offset);
    }
}

/// How many records the first `n` batches hold.
pub open spec fn records_before(runs: Seq<DeliveredRun>, n: int) -> int
    decreases n,
{
    if n <= 0 {
        0
    } else {
        records_before(runs, n - 1) + runs[n - 1].records.len()
    }
}

/// The `i`-th record of the `b`-th batch is the record that was handed out in its turn: at the
/// offset that the batch says, on the delivery that the batch says.
pub open spec fn holds_record(
    runs: Seq<DeliveredRun>,
    infos: Seq<AcquiredRecordInfo>,
    b: int,
    i: int,
) -> bool {
    let info = infos[records_before(runs, b) + i];
    &&& 0 <= records_before(runs, b) + i < infos.len()
    &&& info.frame == runs[b].records[i]
    &&& info.offset == runs[b].first + i
    &&& info.delivery_count == runs[b].delivery_count
}

proof fn lemma_before_is_local(a: Seq<DeliveredRun>, b: Seq<DeliveredRun>, n: int)
    requires
        0 <= n <= a.len(),
        n <= b.len(),
        forall|k: int| 0 <= k < n ==> (#[trigger] a[k]).records.len() == b[k].records.len(),
    ensures
        records_before(a, n) == records_before(b, n),
        records_before(a, n) >= 0,
    decreases n,
{
    if n > 0 {
        lemma_before_is_local(a, b, n - 1);
        assert(a[n - 1].records.len() == b[n - 1].records.len());
    }
}

/// Each batch that is handed out covers exactly the offsets of its records, and its records are on
/// the delivery that it tells. The records of the batches, in order, are all that were handed out,
/// and no two batches could have been one.
pub proof fn batches_hold_what_was_handed_out(infos: Seq<AcquiredRecordInfo>)
    ensures
        ({
            let runs = grouped(infos);
            &&& records_before(runs, runs.len() as int) == infos.len()
            &&& forall|b: int|
                0 <= b < runs.len() ==> (#[trigger] runs[b]).records.len() > 0 && runs[b].last
                    - runs[b].first + 1 == runs[b].records.len()
            &&& forall|b: int, i: int|
                0 <= b < runs.len() && 0 <= i < runs[b].records.len() ==> #[trigger] holds_record(
                    runs,
                    infos,
                    b,
                    i,
                )
            &&& forall|b: int|
                0 < b < runs.len() ==> runs[b - 1].last + 1 != (#[trigger] runs[b]).first || runs[b
                    - 1].delivery_count != runs[b].delivery_count
        }),
    decreases infos.len(),
{
    if infos.len() > 0 {
        let less = infos.drop_last();
        let info = infos.last();
        batches_hold_what_was_handed_out(less);
        let before = grouped(less);
        let runs = grouped(infos);
        let n = before.len() as int;
        let m = runs.len() as int;
        lemma_before_is_local(before, runs, m - 1);
        assert forall|b: int| 0 <= b < m implies records_before(runs, b) == records_before(
            before,
            b,
        ) by {
            lemma_before_is_local(before, runs, b);
        }
        if m == n {
            assert(holds_record(before, less, n - 1, 0));
        }
        assert forall|b: int, i: int| 0 <= b < m && 0 <= i < runs[b].records.len() implies
            #[trigger] holds_record(runs, infos, b, i) by {
            if b < n && i < before[b].records.len() {
                assert(holds_record(before, less, b, i));
            }
        }
        assert forall|b: int| 0 < b < m implies runs[b - 1].last + 1 != (#[trigger] runs[b]).first
            || runs[b - 1].delivery_count != runs[b].delivery_count by {
            if b < n {
                assert(before[b - 1].last + 1 != before[b].first || before[b - 1].delivery_count
                    != before[b].delivery_count);
            }
        }
    }
}

} // verus!
