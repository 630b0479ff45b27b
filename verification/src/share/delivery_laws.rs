//! What becomes of single records: when they are handed out, taken back, and done with.
use crate::records::{in_log_order, lemma_within, within, Record};
use crate::share::acquire::{
    acquired_from, found_again, found_in, fresh, grant, granted_in, granted_to, handed_out,
    handed_to, read_from, split_after, AcquiredRecordInfo,
};
use crate::share::batches::{InFlightBatch, Lease};
use crate::share::manager::{
    acknowledged_by, answered_to, dead_letters, inflight_of, lowest_start, records_size,
    recovered_as, runs_size, stored, swept_to, write_of, written, AcquiredRecordBatch, PendingWrite,
    ShareEntry, ShareGroupManager, ShareStateSyncPolicy, SweptPartition,
};
use crate::share::partition::{
    acked, acked_all, cut, cut_all, finished, held_in, rejected, rejected_all, settled, swept,
    swept_out, AckBatch, SharePartition,
};
use crate::share::snapshot::{kept, kept_lease, run_lengths};
use crate::share::state_log::{entries_of, latest, StoredState};
use vstd::prelude::*;

verus! {

/// Whether the member has the record at `o` on lease.
pub open spec fn has_on_lease(m: Map<u64, Lease>, member: Seq<char>, o: u64) -> bool {
    m.contains_key(o) && m[o].state is Acquired && m[o].owner == Some(member)
}

/// An acknowledgement concerns exactly the records of its range that the member has on lease. One
/// that is accepted is done with, one that is released can be handed out again, one that is
/// rejected goes nowhere any more, and the lease of one that is renewed starts anew. No other
/// record changes.
pub proof fn an_answer_does_what_it_says(
    m: Map<u64, Lease>,
    ack: AckBatch,
    member: Seq<char>,
    now: u64,
    o: u64,
)
    requires
        m.contains_key(o),
    ensures
        ({
            let after = acked(m, ack, member, now);
            let meant = ack.first_offset <= o && o <= ack.last_offset && has_on_lease(m, member, o);
            &&& after.contains_key(o)
            &&& after.dom() =~= m.dom()
            &&& !meant ==> after[o] == m[o]
            &&& after[o].delivery_count == m[o].delivery_count && after[o].lock_timeout
                == m[o].lock_timeout
            &&& meant && ack.ack_type is Accept ==> after[o].state is Acknowledged
                && after[o].owner is None
            &&& meant && ack.ack_type is Release ==> after[o].state is Available
                && after[o].owner is None
            &&& meant && ack.ack_type is Reject ==> after[o].state is Archived
                && after[o].owner is None
            &&& meant && ack.ack_type is Renew ==> after[o].state is Acquired && after[o].owner
                == Some(member) && after[o].acquired_at == Some(now)
            &&& meant && !(ack.ack_type is Renew) ==> after[o].acquired_at is None
        }),
{
}

/// Acknowledgements take effect one after the other.
pub proof fn answers_come_in_turn(
    m: Map<u64, Lease>,
    acks: Seq<AckBatch>,
    member: Seq<char>,
    now: u64,
    n: int,
)
    requires
        0 <= n <= acks.len(),
    ensures
        acked_all(m, acks, member, now) == acked_all(
            acked_all(m, acks.take(n), member, now),
            acks.skip(n),
            member,
            now,
        ),
        rejected_all(m, acks, member, now) == rejected_all(m, acks.take(n), member, now)
            + rejected_all(acked_all(m, acks.take(n), member, now), acks.skip(n), member, now),
        acks.len() == 1 ==> acked_all(m, acks, member, now) == acked(m, acks[0], member, now)
            && rejected_all(m, acks, member, now) == rejected(m, acks[0], member),
        acks.len() == 0 ==> acked_all(m, acks, member, now) == m && rejected_all(
            m,
            acks,
            member,
            now,
        ).len() == 0,
    decreases acks.len(),
{
    if acks.len() == 1 {
        assert(acks.drop_last() =~= Seq::empty());
        assert(acked_all(m, acks.drop_last(), member, now) == m);
        assert(rejected_all(m, acks.drop_last(), member, now) =~= Seq::empty());
        assert(rejected_all(m, acks, member, now) =~= rejected(m, acks[0], member));
    }
    if n == acks.len() {
        assert(acks.take(n) =~= acks);
        assert(acks.skip(n) =~= Seq::empty());
        assert(rejected_all(m, acks, member, now) =~= rejected_all(m, acks, member, now)
            + Seq::empty());
    } else {
        let less = acks.drop_last();
        answers_come_in_turn(m, less, member, now, n);
        assert(less.take(n) =~= acks.take(n));
        assert(less.skip(n) =~= acks.skip(n).drop_last());
        assert(acks.skip(n).last() == acks.last());
        assert(rejected_all(m, acks, member, now) =~= rejected_all(m, acks.take(n), member, now)
            + rejected_all(acked_all(m, acks.take(n), member, now), acks.skip(n), member, now));
    }
}

proof fn lemma_held_in(m: Map<u64, Lease>, member: Seq<char>, lo: int, hi: int)
    requires
        0 <= lo,
        hi <= u64::MAX + 1,
    ensures
        forall|o: u64| #[trigger]
            held_in(m, member, lo, hi).contains(o) <==> lo <= o < hi && has_on_lease(m, member, o),
        forall|a: int, b: int|
            0 <= a < b < held_in(m, member, lo, hi).len() ==> #[trigger] held_in(
                m,
                member,
                lo,
                hi,
            )[a] < #[trigger] held_in(m, member, lo, hi)[b],
    decreases hi - lo,
{
    if lo < hi {
        lemma_held_in(m, member, lo, hi - 1);
        let before = held_in(m, member, lo, hi - 1);
        let after = held_in(m, member, lo, hi);
        let x = (hi - 1) as u64;
        assert forall|o: u64| #[trigger] after.contains(o) <==> lo <= o < hi && has_on_lease(
            m,
            member,
            o,
        ) by {
            if after.contains(o) {
                let k = choose|k: int| 0 <= k < after.len() && after[k] == o;
                if k < before.len() {
                    assert(before[k] == o);
                    assert(before.contains(o));
                }
            }
            if lo <= o < hi && has_on_lease(m, member, o) {
                if o < x {
                    assert(before.contains(o));
                    let k = choose|k: int| 0 <= k < before.len() && before[k] == o;
                    assert(after[k] == o);
                } else {
                    assert(after[after.len() - 1] == o);
                }
            }
        }
        assert forall|a: int, b: int| 0 <= a < b < after.len() implies #[trigger] after[a]
            < #[trigger] after[b] by {
            assert(after[a] == before[a]);
            assert(before.contains(before[a]));
            if b < before.len() {
                assert(before[a] < before[b]);
            }
        }
    }
}

/// What is rejected goes to the dead letters: exactly the records of the range that the member has
/// on lease, in order, and nothing if they are not rejected.
pub proof fn the_rejected_are_dead_letters(m: Map<u64, Lease>, ack: AckBatch, member: Seq<char>)
    ensures
        forall|o: u64| #[trigger]
            rejected(m, ack, member).contains(o) <==> ack.ack_type is Reject && ack.first_offset
                <= o <= ack.last_offset && has_on_lease(m, member, o),
        forall|a: int, b: int|
            0 <= a < b < rejected(m, ack, member).len() ==> #[trigger] rejected(m, ack, member)[a]
                < #[trigger] rejected(m, ack, member)[b],
{
    lemma_held_in(m, member, ack.first_offset as int, ack.last_offset + 1);
}

/// A lease ends by itself once its time is over, and not before. The record can be handed out
/// again, unless it was delivered as often as it may be: then it is given up. Nothing else changes.
pub proof fn a_lease_ends_in_time(
    m: Map<u64, Lease>,
    now: u64,
    max_delivery_attempts: u16,
    o: u64,
)
    requires
        m.contains_key(o),
    ensures
        ({
            let after = swept(m, now, max_delivery_attempts);
            let over = m[o].state is Acquired && m[o].acquired_at->0 + m[o].lock_timeout <= now;
            &&& after.contains_key(o)
            &&& after.dom() =~= m.dom()
            &&& !over ==> after[o] == m[o]
            &&& over ==> after[o].owner is None && after[o].acquired_at is None
                && after[o].delivery_count == m[o].delivery_count
            &&& over && m[o].delivery_count < max_delivery_attempts ==> after[o].state is Available
            &&& over && m[o].delivery_count >= max_delivery_attempts ==> after[o].state is Archived
        }),
{
}

/// What a sweep gives up goes to the dead letters: exactly the records whose last lease is over.
pub proof fn the_given_up_are_dead_letters(
    m: Map<u64, Lease>,
    now: u64,
    max_delivery_attempts: u16,
    out: Seq<u64>,
)
    requires
        swept_out(m, now, max_delivery_attempts, out),
    ensures
        forall|o: u64| #[trigger]
            out.contains(o) <==> m.contains_key(o) && m[o].state is Acquired
                && m[o].acquired_at->0 + m[o].lock_timeout <= now && m[o].delivery_count
                >= max_delivery_attempts,
        forall|a: int, b: int|
            0 <= a < b < out.len() ==> m[#[trigger] out[a]].acquired_at->0 + m[out[a]].lock_timeout
                <= m[#[trigger] out[b]].acquired_at->0 + m[out[b]].lock_timeout,
{
    assert forall|a: int, b: int| 0 <= a < b < out.len() implies m[#[trigger] out[a]].acquired_at->0
        + m[out[a]].lock_timeout <= m[#[trigger] out[b]].acquired_at->0
        + m[out[b]].lock_timeout by {}
}

/// The start of a partition moves past records that are done with or given up, and stops at the
/// first that is neither.
pub proof fn the_start_stops_at_open_records(m: Map<u64, Lease>, start: u64, to: u64, o: u64)
    requires
        settled(m, start, to),
    ensures
        start <= to,
        start <= o < to ==> m.contains_key(o) && (m[o].state is Acknowledged
            || m[o].state is Archived),
        m.contains_key(to) ==> m[to].state is Available || m[to].state is Acquired,
{
    if start <= o < to {
        assert(finished(m, o));
    }
    assert(!finished(m, to));
}

/// Whoever is handed a record has it on lease from now on, for the time that was asked for, on
/// one delivery more.
pub proof fn a_grant_is_a_lease(member: Seq<char>, now: u64, timeout: u64, delivered: u16)
    requires
        delivered < u16::MAX,
    ensures
        ({
            let l = grant(member, now, timeout, delivered as int);
            &&& l.state is Acquired
            &&& l.owner == Some(member)
            &&& l.acquired_at == Some(now)
            &&& l.lock_timeout == timeout
            &&& l.delivery_count == delivered + 1
        }),
{
}

/// Every record between two offsets is selected, and no other.
pub proof fn every_record_between_is_selected(records: Seq<Record>, from: u64, to: u64)
    ensures
        forall|i: int|
            0 <= i < records.len() && from <= records[i].offset <= to ==> within(
                records,
                from,
                to,
            ).contains(#[trigger] records[i]),
        forall|k: int|
            0 <= k < within(records, from, to).len() ==> from <= (#[trigger] within(
                records,
                from,
                to,
            )[k]).offset <= to && records.contains(within(records, from, to)[k]),
    decreases records.len(),
{
    if records.len() > 0 {
        let less = records.drop_last();
        let n = records.len() - 1;
        every_record_between_is_selected(less, from, to);
        let before = within(less, from, to);
        let after = within(records, from, to);
        assert forall|i: int|
            0 <= i < records.len() && from <= records[i].offset <= to implies after.contains(
            #[trigger] records[i],
        ) by {
            if i < n {
                assert(before.contains(less[i]));
                let k = choose|k: int| 0 <= k < before.len() && before[k] == less[i];
                assert(after[k] == records[i]);
            } else {
                assert(after[after.len() - 1] == records[i]);
            }
        }
        assert forall|k: int| 0 <= k < after.len() implies from <= (#[trigger] after[k]).offset
            <= to && records.contains(after[k]) by {
            if k < before.len() {
                assert(after[k] == before[k]);
                let j = choose|j: int| 0 <= j < less.len() && less[j] == before[k];
                assert(records[j] == after[k]);
            } else {
                assert(records[n] == after[k]);
            }
        }
    }
}

/// The record was handed out, on that delivery.
pub open spec fn was_handed(infos: Seq<AcquiredRecordInfo>, r: Record, delivery_count: int) -> bool {
    exists|k: int|
        0 <= k < infos.len() && (#[trigger] infos[k]).frame == r && infos[k].offset == r.offset
            && infos[k].delivery_count == delivery_count
}

/// Of a run that can be handed out again, a request gets the records that the log has from its
/// first offset on, for as many offsets as it still needs or as the run has, all on one delivery
/// more. Where the log cannot be read it gets none.
pub proof fn a_run_is_handed_out_again(
    b: InFlightBatch,
    needed: int,
    read: Option<Vec<Record>>,
)
    requires
        b.first_offset <= b.last_offset,
        needed > 0,
        b.delivery_count < u16::MAX,
    ensures
        ({
            let infos = found_in(b, needed, read);
            let end = b.first_offset + needed;
            &&& read is None ==> infos.len() == 0
            &&& read matches Some(records) ==> (forall|i: int|
                0 <= i < records@.len() && b.first_offset <= records@[i].offset <= b.last_offset
                    && records@[i].offset < end ==> was_handed(
                    infos,
                    #[trigger] records@[i],
                    b.delivery_count + 1,
                ))
            &&& read matches Some(records) ==> (forall|k: int|
                0 <= k < infos.len() ==> records@.contains((#[trigger] infos[k]).frame)
                    && infos[k].offset == infos[k].frame.offset && b.first_offset
                    <= infos[k].offset <= b.last_offset && infos[k].offset < end
                    && infos[k].delivery_count == b.delivery_count + 1)
        }),
{
    if read is Some {
        let records = read->0@;
        let to = granted_to(b, needed);
        every_record_between_is_selected(records, b.first_offset, to);
        let w = within(records, b.first_offset, to);
        let c = (b.delivery_count + 1) as u16;
        let infos = found_in(b, needed, read);
        assert(infos == handed_out(w, c));
        assert forall|i: int|
            0 <= i < records.len() && b.first_offset <= records[i].offset <= b.last_offset
                && records[i].offset < b.first_offset + needed implies was_handed(
            infos,
            #[trigger] records[i],
            b.delivery_count + 1,
        ) by {
            assert(w.contains(records[i]));
            let k = choose|k: int| 0 <= k < w.len() && w[k] == records[i];
            assert(infos[k].frame == records[i]);
        }
        assert forall|k: int| 0 <= k < infos.len() implies records.contains(
            (#[trigger] infos[k]).frame,
        ) && infos[k].offset == infos[k].frame.offset && b.first_offset <= infos[k].offset
            <= b.last_offset && infos[k].offset < b.first_offset + needed
            && infos[k].delivery_count == b.delivery_count + 1 by {
            assert(infos[k].frame == w[k]);
        }
    }
}

/// What was found in the runs before stays found.
proof fn lemma_found_prefix(
    bs: Seq<InFlightBatch>,
    reads: Map<u64, Option<Vec<Record>>>,
    max_records: int,
    j: int,
    n: int,
)
    requires
        0 <= j <= n <= bs.len(),
    ensures
        found_again(bs, reads, max_records, j).len() <= found_again(bs, reads, max_records, n).len(),
        found_again(bs, reads, max_records, n).take(
            found_again(bs, reads, max_records, j).len() as int,
        ) == found_again(bs, reads, max_records, j),
    decreases n - j,
{
    let a = found_again(bs, reads, max_records, j);
    let c = found_again(bs, reads, max_records, n);
    if j < n {
        lemma_found_prefix(bs, reads, max_records, j, n - 1);
        let b = found_again(bs, reads, max_records, n - 1);
        assert(c.take(a.len() as int) =~= b.take(a.len() as int));
    } else {
        assert(c.take(a.len() as int) =~= a);
    }
}

/// Every run that can be handed out again, from the lowest on, is gone through until the request
/// has enough: what the log has of it is handed out.
pub proof fn available_runs_come_first(
    bs: Seq<InFlightBatch>,
    reads: Map<u64, Option<Vec<Record>>>,
    max_records: int,
    j: int,
    i: int,
)
    requires
        0 <= j < bs.len(),
        bs[j].first_offset <= bs[j].last_offset,
        bs[j].state is Available,
        bs[j].delivery_count < u16::MAX,
        found_again(bs, reads, max_records, j).len() < max_records,
        reads[bs[j].first_offset] is Some,
        0 <= i < reads[bs[j].first_offset]->0@.len(),
        bs[j].first_offset <= reads[bs[j].first_offset]->0@[i].offset <= bs[j].last_offset,
        reads[bs[j].first_offset]->0@[i].offset < bs[j].first_offset + max_records - found_again(
            bs,
            reads,
            max_records,
            j,
        ).len(),
    ensures
        was_handed(
            found_again(bs, reads, max_records, bs.len() as int),
            reads[bs[j].first_offset]->0@[i],
            bs[j].delivery_count + 1,
        ),
{
    let n = bs.len() as int;
    let before = found_again(bs, reads, max_records, j);
    let with = found_again(bs, reads, max_records, j + 1);
    let all = found_again(bs, reads, max_records, n);
    let needed = max_records - before.len();
    let read = reads[bs[j].first_offset];
    let r = read->0@[i];
    a_run_is_handed_out_again(bs[j], needed, read);
    let own = found_in(bs[j], needed, read);
    assert(was_handed(own, r, bs[j].delivery_count + 1));
    let k = choose|k: int|
        0 <= k < own.len() && (#[trigger] own[k]).frame == r && own[k].offset == r.offset
            && own[k].delivery_count == bs[j].delivery_count + 1;
    assert(with == before + own);
    assert(with[before.len() + k] == own[k]);
    lemma_found_prefix(bs, reads, max_records, j + 1, n);
    assert(all.take(with.len() as int)[before.len() + k] == all[before.len() + k]);
}

/// Nothing is handed out of a run that is on lease or done with.
pub proof fn only_available_runs_are_handed_out_again(
    bs: Seq<InFlightBatch>,
    reads: Map<u64, Option<Vec<Record>>>,
    max_records: int,
    n: int,
)
    requires
        0 <= n <= bs.len(),
        forall|j: int|
            0 <= j < bs.len() ==> (#[trigger] bs[j]).first_offset <= bs[j].last_offset
                && bs[j].delivery_count < u16::MAX,
    ensures
        forall|k: int|
            0 <= k < found_again(bs, reads, max_records, n).len() ==> of_available_run(
                bs,
                n,
                #[trigger] found_again(bs, reads, max_records, n)[k],
            ),
    decreases n,
{
    if n > 0 {
        only_available_runs_are_handed_out_again(bs, reads, max_records, n - 1);
        let before = found_again(bs, reads, max_records, n - 1);
        let all = found_again(bs, reads, max_records, n);
        let b = bs[n - 1];
        if b.state is Available && before.len() < max_records {
            a_run_is_handed_out_again(b, max_records - before.len(), reads[b.first_offset]);
        }
        assert forall|k: int| 0 <= k < all.len() implies of_available_run(
            bs,
            n,
            #[trigger] all[k],
        ) by {
            if k < before.len() {
                assert(all[k] == before[k]);
                assert(of_available_run(bs, n - 1, before[k]));
                let j = choose|j: int|
                    0 <= j < n - 1 && (#[trigger] bs[j]).state is Available && bs[j].first_offset
                        <= before[k].offset <= bs[j].last_offset && before[k].delivery_count
                        == bs[j].delivery_count + 1;
                assert(bs[j].state is Available);
            } else {
                assert(all[k] == found_in(
                    b,
                    max_records - before.len(),
                    reads[b.first_offset],
                )[k - before.len()]);
                assert(bs[n - 1].state is Available);
            }
        }
    }
}

/// The record is one of an available run among the first `n`, on one delivery more.
pub open spec fn of_available_run(bs: Seq<InFlightBatch>, n: int, info: AcquiredRecordInfo) -> bool {
    exists|j: int|
        0 <= j < n && (#[trigger] bs[j]).state is Available && bs[j].first_offset <= info.offset
            <= bs[j].last_offset && info.delivery_count == bs[j].delivery_count + 1
}

/// Fresh records are the first ones of the log from where it was read last: none is left out, and
/// there are as many as are needed, or all that there are.
pub proof fn fresh_records_are_the_next_ones(records: Seq<Record>, next: u64, needed: int)
    requires
        in_log_order(records),
        needed >= 0,
    ensures
        ({
            let f = fresh(records, next, needed);
            &&& f.len() <= needed
            &&& in_log_order(f)
            &&& forall|k: int|
                0 <= k < f.len() ==> (#[trigger] f[k]).offset >= next && records.contains(f[k])
            &&& forall|i: int|
                0 <= i < records.len() && records[i].offset >= next && (f.len() < needed || (
                f.len() > 0 && records[i].offset <= f.last().offset)) ==> f.contains(
                    #[trigger] records[i],
                )
        }),
{
    lemma_within(records, next, u64::MAX);
    every_record_between_is_selected(records, next, u64::MAX);
    let w = within(records, next, u64::MAX);
    let f = fresh(records, next, needed);
    assert forall|k: int| 0 <= k < f.len() implies (#[trigger] f[k]).offset >= next
        && records.contains(f[k]) by {
        assert(f[k] == w[k]);
    }
    assert forall|a: int, b: int| 0 <= a < b < f.len() implies (#[trigger] f[a]).offset < (
    #[trigger] f[b]).offset by {
        assert(w[a].offset < w[b].offset);
    }
    assert forall|a: int| 0 <= a < f.len() implies (#[trigger] f[a]).offset < u64::MAX by {
        assert(w[a].offset < u64::MAX);
    }
    assert forall|i: int|
        0 <= i < records.len() && records[i].offset >= next && (f.len() < needed || (f.len() > 0
            && records[i].offset <= f.last().offset)) implies f.contains(#[trigger] records[i]) by {
        assert(w.contains(records[i]));
        let k = choose|k: int| 0 <= k < w.len() && w[k] == records[i];
        if k >= f.len() {
            assert(w[f.len() - 1].offset < w[k].offset);
        }
        assert(f[k] == records[i]);
    }
}

/// The records in flight of a group are those of all its partitions, and of no other.
pub proof fn every_partition_of_a_group_counts(es: Seq<ShareEntry>, group: Seq<char>, n: int)
    requires
        0 <= n <= es.len(),
    ensures
        inflight_of(es, group) == inflight_of(es.take(n), group) + inflight_of(es.skip(n), group),
        es.len() == 0 ==> inflight_of(es, group) == 0,
        es.len() == 1 ==> inflight_of(es, group) == (if es[0].partition.group_id@ == group {
            run_lengths(es[0].partition.batches@)
        } else {
            0
        }),
    decreases es.len(),
{
    if es.len() == 1 {
        assert(es.drop_last() =~= Seq::empty());
        assert(inflight_of(es.drop_last(), group) == 0);
    }
    if n == es.len() {
        assert(es.take(n) =~= es);
        assert(es.skip(n) =~= Seq::empty());
    } else {
        every_partition_of_a_group_counts(es.drop_last(), group, n);
        assert(es.drop_last().take(n) =~= es.take(n));
        assert(es.drop_last().skip(n) =~= es.skip(n).drop_last());
        assert(es.skip(n).last() == es.last());
    }
}

/// Runs cover as many offsets as they have, first and last included.
pub proof fn every_offset_of_a_run_counts(bs: Seq<InFlightBatch>, n: int)
    requires
        0 <= n <= bs.len(),
    ensures
        run_lengths(bs) == run_lengths(bs.take(n)) + run_lengths(bs.skip(n)),
        bs.len() == 0 ==> run_lengths(bs) == 0,
        bs.len() == 1 ==> run_lengths(bs) == bs[0].last_offset + 1 - bs[0].first_offset,
    decreases bs.len(),
{
    if bs.len() == 1 {
        assert(bs.drop_last() =~= Seq::empty());
        assert(run_lengths(bs.drop_last()) == 0);
    }
    if n == bs.len() {
        assert(bs.take(n) =~= bs);
        assert(bs.skip(n) =~= Seq::empty());
    } else {
        every_offset_of_a_run_counts(bs.drop_last(), n);
        assert(bs.drop_last().take(n) =~= bs.take(n));
        assert(bs.drop_last().skip(n) =~= bs.skip(n).drop_last());
        assert(bs.skip(n).last() == bs.last());
    }
}

/// A group starts where the first of its partitions starts; without partitions it starts nowhere.
pub proof fn a_group_starts_at_its_lowest_start(es: Seq<ShareEntry>, group: Seq<char>)
    ensures
        match lowest_start(es, group) {
            Some(o) => (forall|i: int|
                0 <= i < es.len() && es[i].partition.group_id@ == group ==> o <= (
                #[trigger] es[i]).partition.start_offset) && (exists|i: int|
                0 <= i < es.len() && es[i].partition.group_id@ == group && (
                #[trigger] es[i]).partition.start_offset == o),
            None => forall|i: int|
                0 <= i < es.len() ==> (#[trigger] es[i]).partition.group_id@ != group,
        },
    decreases es.len(),
{
    if es.len() > 0 {
        let less = es.drop_last();
        let n = es.len() - 1;
        a_group_starts_at_its_lowest_start(less, group);
        let before = lowest_start(less, group);
        if before is Some {
            let i = choose|i: int|
                0 <= i < less.len() && less[i].partition.group_id@ == group && (
                #[trigger] less[i]).partition.start_offset == before->0;
            assert(es[i].partition.start_offset == before->0);
        }
        if es[n].partition.group_id@ == group {
            assert(es[n].partition.start_offset == es.last().partition.start_offset);
        }
        assert forall|i: int| 0 <= i < n implies #[trigger] es[i] == less[i] by {}
    }
}

/// Records count for the bytes of their keys and values, and twenty-four more each.
pub proof fn every_byte_counts(s: Seq<Record>, n: int)
    requires
        0 <= n <= s.len(),
    ensures
        records_size(s) == records_size(s.take(n)) + records_size(s.skip(n)),
        s.len() == 0 ==> records_size(s) == 0,
        s.len() == 1 ==> records_size(s) == 24 + (if s[0].key is Some {
            s[0].key->0@.len()
        } else {
            0
        }) + (if s[0].value is Some {
            s[0].value->0@.len()
        } else {
            0
        }),
    decreases s.len(),
{
    if s.len() == 1 {
        assert(s.drop_last() =~= Seq::empty());
        assert(records_size(s.drop_last()) == 0);
    }
    if n == s.len() {
        assert(s.take(n) =~= s);
        assert(s.skip(n) =~= Seq::empty());
    } else {
        every_byte_counts(s.drop_last(), n);
        assert(s.drop_last().take(n) =~= s.take(n));
        assert(s.drop_last().skip(n) =~= s.skip(n).drop_last());
        assert(s.skip(n).last() == s.last());
    }
}

/// Batches count for their records.
pub proof fn every_batch_counts(s: Seq<AcquiredRecordBatch>, n: int)
    requires
        0 <= n <= s.len(),
    ensures
        runs_size(s) == runs_size(s.take(n)) + runs_size(s.skip(n)),
        s.len() == 0 ==> runs_size(s) == 0,
        s.len() == 1 ==> runs_size(s) == records_size(s[0].records@),
    decreases s.len(),
{
    if s.len() == 1 {
        assert(s.drop_last() =~= Seq::empty());
        assert(runs_size(s.drop_last()) == 0);
    }
    if n == s.len() {
        assert(s.take(n) =~= s);
        assert(s.skip(n) =~= Seq::empty());
    } else {
        every_batch_counts(s.drop_last(), n);
        assert(s.drop_last().take(n) =~= s.take(n));
        assert(s.drop_last().skip(n) =~= s.skip(n).drop_last());
        assert(s.skip(n).last() == s.last());
    }
}

/// What a log says of a partition is what its last record of that partition says.
pub proof fn the_last_state_counts(records: Seq<StoredState>, i: int)
    requires
        0 <= i < records.len(),
        forall|j: int|
            i < j < records.len() ==> !((#[trigger] records[j]).group == records[i].group
                && records[j].topic == records[i].topic && records[j].partition
                == records[i].partition),
    ensures
        latest(records).contains_key((records[i].group, records[i].topic, records[i].partition)),
        latest(records)[(records[i].group, records[i].topic, records[i].partition)] == (
            records[i].start_offset,
            records[i].batches,
        ),
    decreases records.len(),
{
    if i < records.len() - 1 {
        let less = records.drop_last();
        assert(less[i] == records[i]);
        the_last_state_counts(less, i);
        let n = records.len() - 1;
        assert(!(records[n].group == records[i].group && records[n].topic == records[i].topic
            && records[n].partition == records[i].partition));
    }
}

/// A log says nothing of a partition that it holds no record of.
pub proof fn what_was_never_kept_is_unknown(
    records: Seq<StoredState>,
    k: (Seq<char>, Seq<char>, u32),
)
    requires
        latest(records).contains_key(k),
    ensures
        exists|i: int|
            0 <= i < records.len() && (#[trigger] records[i]).group == k.0 && records[i].topic
                == k.1 && records[i].partition == k.2,
    decreases records.len(),
{
    if records.len() > 0 {
        let n = records.len() - 1;
        let less = records.drop_last();
        if !(records[n].group == k.0 && records[n].topic == k.1 && records[n].partition == k.2) {
            what_was_never_kept_is_unknown(less, k);
            let i = choose|i: int|
                0 <= i < less.len() && (#[trigger] less[i]).group == k.0 && less[i].topic == k.1
                    && less[i].partition == k.2;
            assert(records[i] == less[i]);
        }
    }
}

/// A restart frees what was on lease: it can be handed out again. What is done with stays so, and
/// no delivery is forgotten.
pub proof fn a_restart_frees_what_was_on_lease(b: InFlightBatch, lock_timeout: u64)
    ensures
        ({
            let l = kept_lease(kept(b), lock_timeout);
            &&& kept(b).first_offset == b.first_offset && kept(b).last_offset == b.last_offset
            &&& l.owner is None && l.acquired_at is None && l.lock_timeout == lock_timeout
            &&& l.delivery_count == b.delivery_count
            &&& b.state is Acquired || b.state is Available ==> l.state is Available
            &&& b.state is Acknowledged ==> l.state is Acknowledged
            &&& b.state is Archived ==> l.state is Archived
        }),
{
}

/// A write is synced at once where every write is, never by itself where writes are buffered, and
/// otherwise once the interval since the last sync has passed.
pub proof fn syncs_follow_the_policy(m: ShareGroupManager, now: u64)
    ensures
        m.sync_policy is EveryWrite ==> m.wants_sync(now),
        m.sync_policy is Buffered ==> !m.wants_sync(now),
        m.sync_policy matches ShareStateSyncPolicy::Interval(d) ==> (m.wants_sync(now) <==> d == 0
            || now >= m.last_sync + d),
{
}

/// Dead letters of two topics do not mix, and none go back into the topic that they came from.
pub proof fn dead_letters_are_kept_apart(a: Seq<char>, b: Seq<char>)
    ensures
        dead_letters(a) == dead_letters(b) ==> a == b,
        dead_letters(a) != a,
        dead_letters(a).len() == a.len() + 4,
{
    reveal_strlit("-dlq");
    let n = a.len() as int;
    assert(dead_letters(a).len() == a.len() + 4);
    assert(dead_letters(b).len() == b.len() + 4);
    if dead_letters(a) == dead_letters(b) {
        assert(dead_letters(a).take(n) =~= a);
        assert(dead_letters(b).take(n) =~= b);
    }
}

/// Acknowledgements concern one partition of one group; every other one is left alone.
pub proof fn answers_stay_in_their_partition(
    before: ShareGroupManager,
    after: ShareGroupManager,
    group_id: Seq<char>,
    member_id: Seq<char>,
    topic: Seq<char>,
    partition: u32,
    acks: Seq<AckBatch>,
    now: u64,
    r: (Vec<u64>, Option<PendingWrite>),
    k: Seq<char>,
)
    requires
        acknowledged_by(before, after, group_id, member_id, topic, partition, acks, now, r),
        k != crate::keys::triple_key(group_id, topic, partition as nat),
    ensures
        after.partitions@.contains_key(k) == before.partitions@.contains_key(k),
        before.partitions@.contains_key(k) ==> after.partitions@[k] == before.partitions@[k],
{
}

/// What is handed out is on lease to the member from now on, for the time that was asked for or
/// the default, and counts as delivered as often as it is told; the records come in order, and no
/// more than were asked for.
pub proof fn what_is_handed_out_is_on_lease(
    before: SharePartition,
    after: SharePartition,
    member: Seq<char>,
    max_records: int,
    lock_timeout: Option<u64>,
    now: u64,
    infos: Seq<AcquiredRecordInfo>,
    k: int,
)
    requires
        handed_to(before, after, member, max_records, lock_timeout, now, infos),
        max_records > 0,
        0 <= k < infos.len(),
        infos[k].delivery_count > 0,
    ensures
        ({
            let o = infos[k].offset;
            let m = after.leases();
            &&& infos.len() <= max_records
            &&& infos[k].frame.offset == o
            &&& m.contains_key(o)
            &&& m[o].state is Acquired
            &&& m[o].owner == Some(member)
            &&& m[o].acquired_at == Some(now)
            &&& m[o].delivery_count == infos[k].delivery_count
            &&& lock_timeout is Some ==> m[o].lock_timeout == lock_timeout->0
            &&& lock_timeout is None ==> m[o].lock_timeout == before.default_lock_timeout
            &&& k > 0 ==> infos[k - 1].offset < o
        }),
{
    let base = choose|base: SharePartition| #[trigger]
        base.lapsed(before, now) && after.start_offset == base.start_offset && acquired_from(
            base.leases(),
            before.next_fetch_offset,
            after,
            member,
            now,
            match lock_timeout {
                Some(t) => t,
                None => before.default_lock_timeout,
            },
            max_records,
            infos,
        );
    let cur = after.leases();
    assert(cur.contains_key(infos[k].offset));
    if k > 0 {
        assert(infos[k - 1].offset < infos[k].offset);
    }
}

/// Once no run is left to be handed out again, the log is read on from where it was read last:
/// its next records are handed out for the first time, none is passed over, and the next request
/// goes on behind the last of them.
pub proof fn a_request_reads_on(
    base: SharePartition,
    after: SharePartition,
    member: Seq<char>,
    max_records: int,
    timeout: u64,
    now: u64,
    reads: Map<u64, Option<Vec<Record>>>,
    infos: Seq<AcquiredRecordInfo>,
    i: int,
)
    requires
        read_from(base, after, member, max_records, timeout, now, reads, infos),
        found_again(base.batches@, reads, max_records, base.batches@.len() as int).len()
            < max_records,
        reads[base.next_fetch_offset] is Some,
        in_log_order(reads[base.next_fetch_offset]->0@),
        0 <= i < reads[base.next_fetch_offset]->0@.len(),
        reads[base.next_fetch_offset]->0@[i].offset >= base.next_fetch_offset,
    ensures
        ({
            let r = reads[base.next_fetch_offset]->0@[i];
            &&& infos.len() < max_records || r.offset < after.next_fetch_offset ==> was_handed(
                infos,
                r,
                1,
            )
            &&& infos.len() > 0 && infos.last().offset == r.offset ==> after.next_fetch_offset
                == r.offset + 1
            &&& was_handed(infos, r, 1) && infos.len() < max_records ==> r.offset
                < after.next_fetch_offset
        }),
{
    let n = base.batches@.len() as int;
    let next = base.next_fetch_offset;
    let again = found_again(base.batches@, reads, max_records, n);
    let records = reads[next]->0@;
    let needed = max_records - again.len();
    let taken = fresh(records, next, needed);
    let r = records[i];
    fresh_records_are_the_next_ones(records, next, needed);
    assert(infos == again + handed_out(taken, 1));
    if taken.len() < needed || (taken.len() > 0 && r.offset <= taken.last().offset) {
        assert(taken.contains(r));
        let k = choose|k: int| 0 <= k < taken.len() && taken[k] == r;
        assert(infos[again.len() + k] == handed_out(taken, 1)[k]);
        assert(was_handed(infos, r, 1));
        assert(r.offset <= taken.last().offset) by {
            if k < taken.len() - 1 {
                assert(taken[k].offset < taken[taken.len() - 1].offset);
            }
        }
    }
    assert(taken.len() > 0);
    assert(infos.last().offset == taken.last().offset);
}

/// One acknowledgement changes, of the records that stay in the partition, exactly those that it
/// means, and as it says; everything below the new start was done with or given up.
pub proof fn an_answer_reaches_its_records(
    before: SharePartition,
    after: SharePartition,
    ack: AckBatch,
    member: Seq<char>,
    now: u64,
    dlq: Seq<u64>,
    o: u64,
)
    requires
        answered_to(before, after, seq![ack], member, now, dlq),
        before.leases().contains_key(o),
    ensures
        ({
            let m = before.leases();
            let w = after.leases();
            let meant = ack.first_offset <= o && o <= ack.last_offset && has_on_lease(m, member, o);
            &&& after.topic == before.topic && after.partition == before.partition
                && after.group_id == before.group_id
            &&& after.next_fetch_offset == before.next_fetch_offset
            &&& after.start_offset >= before.start_offset
            &&& w.contains_key(o) <==> o >= after.start_offset
            &&& w.contains_key(o) && !meant ==> w[o] == m[o]
            &&& w.contains_key(o) && meant && ack.ack_type is Accept ==> w[o].state is Acknowledged
            &&& w.contains_key(o) && meant && ack.ack_type is Release ==> w[o].state is Available
            &&& w.contains_key(o) && meant && ack.ack_type is Reject ==> w[o].state is Archived
            &&& w.contains_key(o) && meant && ack.ack_type is Renew ==> w[o].state is Acquired
                && w[o].acquired_at == Some(now)
            &&& before.start_offset <= o < after.start_offset && !meant ==> m[o].state
                is Acknowledged || m[o].state is Archived
            &&& before.start_offset <= o < after.start_offset && meant ==> ack.ack_type is Accept
                || ack.ack_type is Reject
            &&& dlq.contains(o) <==> meant && ack.ack_type is Reject
        }),
{
    let acks = seq![ack];
    let m = before.leases();
    answers_come_in_turn(m, acks, member, now, 0);
    let x = acked_all(m, acks, member, now);
    assert(x == acked(m, ack, member, now));
    an_answer_does_what_it_says(m, ack, member, now, o);
    the_rejected_are_dead_letters(m, ack, member);
    the_start_stops_at_open_records(x, before.start_offset, after.start_offset, o);
}

/// A partition that a group has not read from before begins at the first record, with nothing on
/// lease.
pub proof fn a_new_partition_begins_at_the_first_record(
    m: ShareGroupManager,
    e: ShareEntry,
    group: Seq<char>,
    topic: Seq<char>,
    partition: u32,
    o: u64,
)
    requires
        m.is_new(e, group, topic, partition),
    ensures
        e.partition.group_id@ == group,
        e.partition.topic@ == topic,
        e.partition.partition == partition,
        e.partition.start_offset == 0,
        e.partition.next_fetch_offset == 0,
        !e.partition.leases().contains_key(o),
        e.partition.default_lock_timeout == m.default_lock_timeout,
        e.partition.max_delivery_attempts == m.max_delivery_attempts,
{
}

/// A member is heard of when it asks for something, and no other member by that.
pub proof fn a_member_is_heard_of(
    before: ShareGroupManager,
    after: ShareGroupManager,
    group: Seq<char>,
    member: Seq<char>,
    now: u64,
    k: Seq<char>,
)
    requires
        after.heard(before, group, member, now),
    ensures
        ({
            let own = crate::keys::pair_key(group, member);
            &&& after.heartbeats@.contains_key(own)
            &&& after.heartbeats@[own].at == now
            &&& after.heartbeats@[own].group_id@ == group
            &&& after.heartbeats@[own].member_id@ == member
            &&& k != own ==> after.heartbeats@.contains_key(k) == before.heartbeats@.contains_key(k)
                && after.heartbeats@[k] == before.heartbeats@[k]
        }),
{
}

/// Whatever changed of a partition is written, and reads back as what the partition is: its place,
/// where it starts, and each of its runs with its state and deliveries.
pub proof fn what_changed_is_written(e: ShareEntry, w: Option<PendingWrite>, i: int)
    requires
        write_of(e, w),
        crate::share::state_log::storable(stored(e.partition)),
        e.partition.version != e.persisted_version,
    ensures
        w is Some,
        entries_of(w->0.bytes@).len() == 1,
        ({
            let r = entries_of(w->0.bytes@)[0];
            let sp = e.partition;
            &&& w->0.version == sp.version
            &&& r.group == sp.group_id@ && r.topic == sp.topic@ && r.partition == sp.partition
            &&& r.start_offset == sp.start_offset
            &&& r.batches.len() == sp.batches@.len()
            &&& 0 <= i < r.batches.len() ==> r.batches[i].first_offset == sp.batches@[i].first_offset
                && r.batches[i].last_offset == sp.batches@[i].last_offset
                && r.batches[i].delivery_count == sp.batches@[i].delivery_count
        }),
{
    let r = stored(e.partition);
    let one = seq![r];
    crate::share::state_log_laws::log_round_trip(one);
    assert(one.skip(1) =~= Seq::empty());
    assert(crate::share::state_log_laws::log_of(one.skip(1)) =~= Seq::empty());
    assert(crate::share::state_log_laws::log_of(one)
        =~= crate::share::state_log::entry_bytes(r));
}

/// What was kept of a partition is what it is after a restart: the same place, start and runs, with
/// nothing on lease any more, nothing that was done with undone, and the log read on behind the
/// last run.
pub proof fn a_restart_brings_the_partition_back(
    sp: SharePartition,
    e: ShareEntry,
    default_lock_timeout: u64,
    max_delivery_attempts: u16,
    i: int,
)
    requires
        recovered_as(stored(sp), e, default_lock_timeout, max_delivery_attempts),
    ensures
        e.partition.group_id@ == sp.group_id@,
        e.partition.topic@ == sp.topic@,
        e.partition.partition == sp.partition,
        e.partition.start_offset == sp.start_offset,
        e.partition.default_lock_timeout == default_lock_timeout,
        e.partition.max_delivery_attempts == max_delivery_attempts,
        e.partition.batches@.len() == sp.batches@.len(),
        sp.batches@.len() == 0 ==> e.partition.next_fetch_offset == sp.start_offset,
        sp.batches@.len() > 0 ==> e.partition.next_fetch_offset == sp.batches@.last().last_offset
            + 1,
        0 <= i < sp.batches@.len() ==> ({
            let b = sp.batches@[i];
            let c = e.partition.batches@[i];
            &&& c.first_offset == b.first_offset && c.last_offset == b.last_offset
            &&& c.delivery_count == b.delivery_count
            &&& b.state is Acquired || b.state is Available ==> c.state is Available
            &&& b.state is Acknowledged ==> c.state is Acknowledged
            &&& b.state is Archived ==> c.state is Archived
        }),
{
    let r = stored(sp);
    if 0 <= i < sp.batches@.len() {
        assert(r.batches[i] == kept(sp.batches@[i]));
        let c = e.partition.batches@[i];
        assert(c.lease() == kept_lease(r.batches[i], default_lock_timeout));
        a_restart_frees_what_was_on_lease(sp.batches@[i], default_lock_timeout);
    }
    if sp.batches@.len() > 0 {
        let n = sp.batches@.len() - 1;
        assert(r.batches[n] == kept(sp.batches@[n]));
    }
}

/// A sweep ends the leases that are over in one partition, and nothing else in it.
pub proof fn a_sweep_ends_what_is_over(
    before: ShareEntry,
    after: ShareEntry,
    now: u64,
    out: SweptPartition,
    o: u64,
)
    requires
        swept_to(before, after, now, out),
        before.partition.leases().contains_key(o),
    ensures
        ({
            let sp = before.partition;
            let m = sp.leases();
            let w = after.partition.leases();
            let over = m[o].state is Acquired && m[o].acquired_at->0 + m[o].lock_timeout <= now;
            &&& out.topic@ == sp.topic@ && out.partition == sp.partition && out.group_id@
                == sp.group_id@
            &&& after.partition.topic == sp.topic && after.partition.partition == sp.partition
                && after.partition.group_id == sp.group_id
            &&& after.partition.max_delivery_attempts == sp.max_delivery_attempts
                && after.partition.default_lock_timeout == sp.default_lock_timeout
            &&& after.partition.next_fetch_offset == sp.next_fetch_offset
            &&& w.contains_key(o) <==> o >= after.partition.start_offset
            &&& w.contains_key(o) && !over ==> w[o] == m[o]
            &&& w.contains_key(o) && over && m[o].delivery_count < sp.max_delivery_attempts
                ==> w[o].state is Available && w[o].owner is None
            &&& w.contains_key(o) && over && m[o].delivery_count >= sp.max_delivery_attempts
                ==> w[o].state is Archived
            &&& sp.start_offset <= o < after.partition.start_offset ==> m[o].state is Acknowledged
                || m[o].state is Archived || (over && m[o].delivery_count
                >= sp.max_delivery_attempts)
            &&& o == after.partition.start_offset ==> w[o].state is Available
                || w[o].state is Acquired
            &&& after.persisted_version == before.persisted_version
            &&& out.dlq@.contains(o) <==> over && m[o].delivery_count >= sp.max_delivery_attempts
        }),
{
    let sp = before.partition;
    let m = sp.leases();
    a_lease_ends_in_time(m, now, sp.max_delivery_attempts, o);
    the_given_up_are_dead_letters(m, now, sp.max_delivery_attempts, out.dlq@);
    the_start_stops_at_open_records(
        swept(m, now, sp.max_delivery_attempts),
        sp.start_offset,
        after.partition.start_offset,
        o,
    );
}

/// What the policy wants synced is synced, and what failed is tried again.
pub proof fn a_failed_sync_is_tried_again(
    before: ShareGroupManager,
    after: ShareGroupManager,
    now: u64,
    r: bool,
)
    requires
        written(before, after, now, r),
    ensures
        !r ==> after == before && before.wants_sync(now),
        r && before.wants_sync(now) && before.sync_policy is Interval ==> after.last_sync == now,
        !before.wants_sync(now) ==> r && after == before,
        after.partitions == before.partitions,
{
}

/// A lease is granted on the records between two offsets, on one delivery more, and on no others.
pub proof fn a_grant_covers_its_range(
    m: Map<u64, Lease>,
    from: u64,
    to: u64,
    member: Seq<char>,
    now: u64,
    timeout: u64,
    o: u64,
)
    requires
        m.contains_key(o),
        m[o].delivery_count < u16::MAX,
    ensures
        ({
            let w = granted_in(m, from, to, member, now, timeout);
            &&& w.dom() =~= m.dom()
            &&& from <= o <= to ==> w[o].state is Acquired && w[o].owner == Some(member)
                && w[o].delivery_count == m[o].delivery_count + 1
            &&& !(from <= o <= to) ==> w[o] == m[o]
        }),
{
}

/// What is left of a run of which only the beginning was taken is a run of its own.
pub proof fn what_is_left_of_a_run_is_a_run(s: Set<u64>, b: InFlightBatch, to: u64, x: u64)
    ensures
        split_after(s, b, to).contains(x) <==> s.contains(x) || (to < b.last_offset && x == to + 1),
{
}

/// Answers only cut runs: where a run began, one begins still, and without answers nothing is cut.
pub proof fn answers_only_cut_runs(
    m: Map<u64, Lease>,
    s: Set<u64>,
    acks: Seq<AckBatch>,
    member: Seq<char>,
    now: u64,
    x: u64,
)
    ensures
        s.contains(x) ==> cut_all(m, s, acks, member, now).contains(x),
        acks.len() == 0 ==> cut_all(m, s, acks, member, now) == s,
        acks.len() == 1 ==> cut_all(m, s, acks, member, now) == cut(m, s, acks[0], member),
    decreases acks.len(),
{
    if acks.len() > 0 {
        answers_only_cut_runs(m, s, acks.drop_last(), member, now, x);
    }
    if acks.len() == 1 {
        assert(acks.drop_last() =~= Seq::empty());
        assert(cut_all(m, s, acks.drop_last(), member, now) == s);
        assert(acked_all(m, acks.drop_last(), member, now) == m);
    }
}

/// An answer cuts the runs that its member holds in two places: where its range begins, and behind
/// where it ends.
pub proof fn a_run_is_cut_at_both_ends(
    m: Map<u64, Lease>,
    s: Set<u64>,
    ack: AckBatch,
    member: Seq<char>,
    x: u64,
)
    ensures
        cut(m, s, ack, member).contains(x) <==> s.contains(x) || (ack.first_offset
            <= ack.last_offset && ((x == ack.first_offset && has_on_lease(m, member, x)) || (x
            == ack.last_offset + 1 && has_on_lease(m, member, ack.last_offset)
            && m.contains_key(x)))),
{
}

/// After an answer runs begin where they began, and where the answer cut them, as far as that is
/// not below the new start.
pub proof fn runs_begin_where_they_were_cut(
    before: SharePartition,
    after: SharePartition,
    ack: AckBatch,
    member: Seq<char>,
    now: u64,
    dlq: Seq<u64>,
    x: u64,
)
    requires
        answered_to(before, after, seq![ack], member, now, dlq),
    ensures
        after.starts().contains(x) ==> x >= after.start_offset,
        x >= after.start_offset && before.starts().contains(x) ==> after.starts().contains(x),
        x >= after.start_offset && ack.first_offset <= ack.last_offset && x == ack.first_offset
            && has_on_lease(before.leases(), member, x) ==> after.starts().contains(x),
{
    let acks = seq![ack];
    answers_only_cut_runs(before.leases(), before.starts(), acks, member, now, x);
    a_run_is_cut_at_both_ends(before.leases(), before.starts(), ack, member, x);
}

/// Answers go to the partition that the group has, with everything that is on lease in it; only
/// where it has none they meet a new one.
pub proof fn answers_go_to_the_partition_there_is(
    before: ShareGroupManager,
    after: ShareGroupManager,
    group_id: Seq<char>,
    member_id: Seq<char>,
    topic: Seq<char>,
    partition: u32,
    acks: Seq<AckBatch>,
    now: u64,
    r: (Vec<u64>, Option<PendingWrite>),
)
    requires
        acknowledged_by(before, after, group_id, member_id, topic, partition, acks, now, r),
    ensures
        ({
            let k = crate::keys::triple_key(group_id, topic, partition as nat);
            &&& after.partitions@.contains_key(k)
            &&& before.partitions@.contains_key(k) ==> answered_to(
                before.partitions@[k].partition,
                after.partitions@[k].partition,
                acks,
                member_id,
                now,
                r.0@,
            ) && after.partitions@[k].persisted_version
                == before.partitions@[k].persisted_version
            &&& !before.partitions@.contains_key(k) ==> after.partitions@[k].partition.group_id@
                == group_id && after.partitions@[k].partition.topic@ == topic
                && after.partitions@[k].partition.next_fetch_offset == 0
        }),
{
    let k = crate::keys::triple_key(group_id, topic, partition as nat);
    let e = choose|e: ShareEntry| #[trigger]
        ShareGroupManager::found_or_new(before, e, group_id, topic, partition)
            && after.partitions@[k].persisted_version == e.persisted_version && answered_to(
            e.partition,
            after.partitions@[k].partition,
            acks,
            member_id,
            now,
            r.0@,
        );
    if before.partitions@.contains_key(k) {
        assert(e == before.partitions@[k]);
    }
}

/// How many bytes were delivered is told as it is, as far as it can be written down.
pub proof fn delivered_bytes_are_told(n: nat)
    ensures
        n <= u64::MAX ==> crate::share::manager::capped(n) == n,
        n > u64::MAX ==> crate::share::manager::capped(n) == u64::MAX,
{
}

} // verus!
