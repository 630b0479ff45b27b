//! Handing records of a share partition out to a member.
use crate::records::{in_log_order, lemma_within, within, Record};
use crate::share::batches::{
    adjoin, covered_at, covering, leases, lemma_lease_at, lemma_splice, ordered, part_of, pending,
    splice_run, starts, tiles, Expiry, InFlightBatch, Lease, ShareRecordState, MAX_TIME,
};
use crate::share::partition::{ran_out, swept, SharePartition};
use crate::share::timers::{add_timer, expiries, ExpiryTimer};
use crate::text::owned;
use vstd::prelude::*;

verus! {

/// A record handed out, and how often it has been delivered by now.
#[derive(Debug)]
pub struct AcquiredRecordInfo {
    pub offset: u64,
    pub delivery_count: u16,
    pub frame: Record,
}

/// The lease that `member` gets at `now` for `timeout`, on the delivery after `delivered`.
pub open spec fn grant(member: Seq<char>, now: u64, timeout: u64, delivered: int) -> Lease {
    Lease {
        state: ShareRecordState::Acquired,
        owner: Some(member),
        acquired_at: Some(now),
        lock_timeout: timeout,
        delivery_count: (delivered + 1) as u16,
    }
}

/// The leases with those from `from` to `to` granted.
pub open spec fn granted_in(
    m: Map<u64, Lease>,
    from: u64,
    to: u64,
    member: Seq<char>,
    now: u64,
    timeout: u64,
) -> Map<u64, Lease> {
    Map::new(
        |o: u64| m.contains_key(o),
        |o: u64|
            if from <= o <= to {
                grant(member, now, timeout, m[o].delivery_count as int)
            } else {
                m[o]
            },
    )
}

/// `records` as handed out on delivery number `delivery_count`.
pub open spec fn handed_out(records: Seq<Record>, delivery_count: u16) -> Seq<AcquiredRecordInfo> {
    records.map_values(
        |r: Record| AcquiredRecordInfo { offset: r.offset, delivery_count, frame: r },
    )
}

/// Hands out those of `frames` that lie between `from` and `to`.
fn hand_out(
    frames: Vec<Record>,
    from: u64,
    to: u64,
    delivery_count: u16,
    infos: &mut Vec<AcquiredRecordInfo>,
)
    ensures
        final(infos)@ == old(infos)@ + handed_out(within(frames@, from, to), delivery_count),
{
    let ghost all = frames@;
    proof {
        assert(infos@ =~= old(infos)@ + handed_out(within(all.take(0), from, to), delivery_count));
    }
    for frame in it: frames
        invariant
            it.seq() == all,
            infos@ == old(infos)@ + handed_out(
                within(all.take(it.index() as int), from, to),
                delivery_count,
            ),
    {
        proof {
            assert(all.take(it.index() + 1).drop_last() =~= all.take(it.index() as int));
        }
        if from <= frame.offset && frame.offset <= to {
            infos.push(AcquiredRecordInfo { offset: frame.offset, delivery_count, frame });
        }
        assert(infos@ =~= old(infos)@ + handed_out(
            within(all.take(it.index() + 1), from, to),
            delivery_count,
        ));
    }
    assert(all.take(all.len() as int) =~= all);
}

/// The last offset of an available run that a request for `needed` records takes.
pub open spec fn granted_to(b: InFlightBatch, needed: int) -> u64 {
    if b.last_offset - b.first_offset < needed {
        b.last_offset
    } else {
        (b.first_offset + needed - 1) as u64
    }
}

/// Where the runs begin after the available run `b` was granted up to `to`: what is left of it is
/// a run of its own.
pub open spec fn split_after(s: Set<u64>, b: InFlightBatch, to: u64) -> Set<u64> {
    if to < b.last_offset {
        s.insert((to + 1) as u64)
    } else {
        s
    }
}

/// The first `needed` of the records from offset `next` on.
pub open spec fn fresh(records: Seq<Record>, next: u64, needed: int) -> Seq<Record> {
    let w = within(records, next, u64::MAX);
    if w.len() <= needed {
        w
    } else {
        w.take(needed)
    }
}

/// The leases with `l` begun on each offset from `first` to `last`.
pub open spec fn begun(m: Map<u64, Lease>, first: u64, last: u64, l: Lease) -> Map<u64, Lease> {
    Map::new(
        |o: u64| m.contains_key(o) || first <= o <= last,
        |o: u64|
            if first <= o <= last {
                l
            } else {
                m[o]
            },
    )
}

/// A selection takes everything where everything lies within its bounds.
proof fn lemma_all_within(records: Seq<Record>, from: u64, to: u64)
    requires
        forall|i: int| 0 <= i < records.len() ==> from <= (#[trigger] records[i]).offset <= to,
    ensures
        within(records, from, to) == records,
    decreases records.len(),
{
    if records.len() > 0 {
        let rest = records.drop_last();
        lemma_all_within(rest, from, to);
        assert(records =~= rest.push(records.last()));
    }
}

/// A new run after all others adds its own leases, and its expiry if it is acquired.
proof fn lemma_new_run(bs: Seq<InFlightBatch>, b: InFlightBatch)
    requires
        ordered(bs),
        b.wf(),
        b.acquired(),
        forall|i: int| 0 <= i < bs.len() ==> (#[trigger] bs[i]).last_offset < b.first_offset,
    ensures
        ordered(bs.push(b)),
        leases(bs.push(b)) == begun(leases(bs), b.first_offset, b.last_offset, b.lease()),
        pending(bs.push(b)) == pending(bs).insert(b.expiry()),
        starts(bs.push(b)) == starts(bs).insert(b.first_offset),
{
    let out = bs.push(b);
    let n = bs.len() as int;
    assert forall|o: u64| starts(out).contains(o) == starts(bs).insert(b.first_offset).contains(o) by {
        if starts(out).contains(o) {
            let k = choose|k: int| 0 <= k < out.len() && (#[trigger] out[k]).first_offset == o;
            if k < n {
                assert(bs[k].first_offset == o);
            }
        }
        if starts(bs).contains(o) {
            let k = choose|k: int| 0 <= k < bs.len() && (#[trigger] bs[k]).first_offset == o;
            assert(out[k].first_offset == o);
        }
        if o == b.first_offset {
            assert(out[n].first_offset == o);
        }
    }
    assert(starts(out) =~= starts(bs).insert(b.first_offset));
    let want = begun(leases(bs), b.first_offset, b.last_offset, b.lease());
    assert(ordered(out));
    assert forall|o: u64|
        #![trigger leases(out).dom().contains(o)]
        #![trigger want.dom().contains(o)]
        leases(out).dom().contains(o) == want.dom().contains(o) && (want.dom().contains(o)
            ==> leases(out)[o] == want[o]) by {
        if b.covers(o) {
            assert(covered_at(out, n, o));
            lemma_lease_at(out, n, o);
        } else if leases(bs).contains_key(o) {
            let k = covering(bs, o);
            assert(covered_at(bs, k, o));
            assert(out[k] == bs[k]);
            assert(covered_at(out, k, o));
            lemma_lease_at(out, k, o);
        } else if leases(out).contains_key(o) {
            let k = covering(out, o);
            assert(covered_at(out, k, o));
            assert(covered_at(bs, k, o));
        }
    }
    assert(leases(out) =~= want);
    assert forall|t: Expiry| pending(out).contains(t) == pending(bs).insert(b.expiry()).contains(t) by {
        if pending(out).contains(t) {
            let k = choose|k: int|
                0 <= k < out.len() && #[trigger] out[k].acquired() && out[k].expiry() == t;
            if k < n {
                assert(bs[k].acquired());
            }
        }
        if pending(bs).contains(t) {
            let k = choose|k: int|
                0 <= k < bs.len() && #[trigger] bs[k].acquired() && bs[k].expiry() == t;
            assert(out[k].acquired());
        }
        if t == b.expiry() {
            assert(out[n].acquired());
        }
    }
    assert(pending(out) =~= pending(bs).insert(b.expiry()));
}

/// The pieces of an available run whose offsets up to `to` go to `member`.
fn grant_run(b: &InFlightBatch, to: u64, member: &str, now: u64, timeout: u64) -> (r: Vec<
    InFlightBatch,
>)
    requires
        b.wf(),
        b.state is Available,
        b.delivery_count < u16::MAX,
        b.first_offset <= to <= b.last_offset,
        now <= MAX_TIME,
        timeout <= MAX_TIME,
    ensures
        tiles(r@, b.first_offset, b.last_offset),
        r@.len() == (if to < b.last_offset { 2nat } else { 1nat }),
        r@[0].last_offset == to,
        r@[0].lease() == grant(member@, now, timeout, b.delivery_count as int),
        to < b.last_offset ==> r@[1].lease() == b.lease(),
        starts(r@) == split_after(Set::empty().insert(b.first_offset), *b, to),
        pending(r@) == Set::empty().insert(
            Expiry {
                expire_at: (now + timeout) as u64,
                first: b.first_offset,
                last: to,
                member: member@,
            },
        ),
{
    let mut pieces: Vec<InFlightBatch> = Vec::new();
    pieces.push(
        InFlightBatch {
            first_offset: b.first_offset,
            last_offset: to,
            state: ShareRecordState::Acquired,
            acquired_by: Some(owned(member)),
            acquired_at: Some(now),
            lock_timeout: timeout,
            delivery_count: b.delivery_count + 1,
        },
    );
    if to < b.last_offset {
        pieces.push(part_of(b, to + 1, b.last_offset));
    }
    proof {
        let ps = pieces@;
        assert(ordered(ps));
        assert forall|k: int| 0 <= k < ps.len() - 1 implies #[trigger] adjoin(ps, k) by {}
        let t = ps[0].expiry();
        assert(ps[0].acquired());
        assert(pending(ps).contains(t));
        assert(pending(ps) =~= Set::empty().insert(t));
        let want = split_after(Set::empty().insert(b.first_offset), *b, to);
        assert forall|o: u64| want.contains(o) implies starts(ps).contains(o) by {
            assert(ps[if o == b.first_offset { 0int } else { 1int }].first_offset == o);
        }
        assert(starts(ps) =~= want);
    }
    pieces
}

/// Whether the record at `o` can be handed out again.
pub open spec fn available(m: Map<u64, Lease>, o: u64) -> bool {
    m.contains_key(o) && m[o].state is Available
}

/// Whether `o` is the lowest record that can be handed out again.
pub open spec fn lowest_available(m: Map<u64, Lease>, o: u64) -> bool {
    available(m, o) && forall|p: u64| #[trigger] available(m, p) ==> o <= p
}

/// One more delivery of whatever is available can still be counted.
pub open spec fn fits(m: Map<u64, Lease>) -> bool {
    forall|o: u64| #[trigger] available(m, o) ==> m[o].delivery_count < u16::MAX
}

/// Only available records went to `member`, none from `done` on, and the lowest one if it lies
/// before `done`.
pub open spec fn reused(
    m: Map<u64, Lease>,
    cur: Map<u64, Lease>,
    member: Seq<char>,
    now: u64,
    timeout: u64,
    done: int,
) -> bool {
    &&& cur.dom() == m.dom()
    &&& forall|o: u64|
        #![trigger cur[o]]
        m.contains_key(o) ==> cur[o] == m[o] || (o < done && available(m, o) && cur[o] == grant(
            member,
            now,
            timeout,
            m[o].delivery_count as int,
        ))
    &&& forall|o: u64| #[trigger]
        lowest_available(m, o) && o < done ==> cur[o] == grant(
            member,
            now,
            timeout,
            m[o].delivery_count as int,
        )
}

/// Each record in `infos` is under the lease that it was handed out with, and they stand in
/// order of offset.
pub open spec fn all_handed(
    cur: Map<u64, Lease>,
    member: Seq<char>,
    now: u64,
    timeout: u64,
    infos: Seq<AcquiredRecordInfo>,
) -> bool {
    &&& forall|k: int|
        0 <= k < infos.len() ==> cur.contains_key((#[trigger] infos[k]).offset)
            && cur[infos[k].offset] == grant(member, now, timeout, infos[k].delivery_count - 1)
            && infos[k].frame.offset == infos[k].offset
    &&& forall|a: int, b: int|
        0 <= a < b < infos.len() ==> (#[trigger] infos[a]).offset < (#[trigger] infos[b]).offset
}

/// What holds after records were handed out from the leases `base` and, from offset `next` on,
/// from the log.
pub open spec fn acquired_from(
    base: Map<u64, Lease>,
    next: u64,
    after: SharePartition,
    member: Seq<char>,
    now: u64,
    timeout: u64,
    max_records: int,
    infos: Seq<AcquiredRecordInfo>,
) -> bool {
    let cur = after.leases();
    &&& infos.len() <= max_records
    &&& all_handed(cur, member, now, timeout, infos)
    &&& forall|k: int|
        0 <= k < infos.len() ==> available(base, (#[trigger] infos[k]).offset) || next
            <= infos[k].offset
    &&& next <= after.next_fetch_offset
    &&& forall|o: u64|
        #![trigger cur[o]]
        base.contains_key(o) ==> cur.contains_key(o) && (cur[o] == base[o] || (available(base, o)
            && cur[o] == grant(member, now, timeout, base[o].delivery_count as int)))
    &&& forall|o: u64|
        #![trigger cur[o]]
        cur.contains_key(o) && !base.contains_key(o) ==> next <= o < after.next_fetch_offset
            && cur[o] == grant(member, now, timeout, 0)
    &&& forall|o: u64| #[trigger]
        lowest_available(base, o) ==> cur[o] == grant(
            member,
            now,
            timeout,
            base[o].delivery_count as int,
        )
}

/// What holds of a partition before and after a request of `member` for `max_records` records
/// was answered with `infos`.
pub open spec fn handed_to(
    before: SharePartition,
    after: SharePartition,
    member: Seq<char>,
    max_records: int,
    lock_timeout: Option<u64>,
    now: u64,
    infos: Seq<AcquiredRecordInfo>,
) -> bool {
    if max_records == 0 {
        infos.len() == 0 && after == before
    } else {
        exists|base: SharePartition| #[trigger]
            base.lapsed(before, now) && after.start_offset == base.start_offset && acquired_from(
                base.leases(),
                before.next_fetch_offset,
                after,
                member,
                now,
                match lock_timeout {
                    Some(t) => t,
                    None => before.default_lock_timeout,
                },
                max_records,
                infos,
            )
    }
}

/// What a request for `needed` records gets of the available run `b`, where a read of the log
/// from the run's first offset on gave `read`.
pub open spec fn found_in(b: InFlightBatch, needed: int, read: Option<Vec<Record>>) -> Seq<
    AcquiredRecordInfo,
> {
    match read {
        Some(records) => handed_out(
            within(records@, b.first_offset, granted_to(b, needed)),
            (b.delivery_count + 1) as u16,
        ),
        None => Seq::empty(),
    }
}

/// What a request for `max_records` records gets of the first `n` of the runs `bs`, where reads
/// of the log from an offset on gave `reads`.
pub open spec fn found_again(
    bs: Seq<InFlightBatch>,
    reads: Map<u64, Option<Vec<Record>>>,
    max_records: int,
    n: int,
) -> Seq<AcquiredRecordInfo>
    decreases n,
{
    if n <= 0 {
        Seq::empty()
    } else {
        let found = found_again(bs, reads, max_records, n - 1);
        let b = bs[n - 1];
        if b.state is Available && found.len() < max_records {
            found + found_in(b, max_records - found.len(), reads[b.first_offset])
        } else {
            found
        }
    }
}

/// The log was read at each of the first `n` runs that the request took from.
pub open spec fn read_again(
    bs: Seq<InFlightBatch>,
    reads: Map<u64, Option<Vec<Record>>>,
    max_records: int,
    n: int,
) -> bool
    decreases n,
{
    n <= 0 || (read_again(bs, reads, max_records, n - 1) && (bs[n - 1].state is Available
        && found_again(bs, reads, max_records, n - 1).len() < max_records
        ==> reads.contains_key(bs[n - 1].first_offset)))
}

/// The leases of the runs `bs` after `member` was granted what the request took of the first `n`.
pub open spec fn granted_again(
    bs: Seq<InFlightBatch>,
    reads: Map<u64, Option<Vec<Record>>>,
    max_records: int,
    n: int,
    member: Seq<char>,
    now: u64,
    timeout: u64,
) -> Map<u64, Lease>
    decreases n,
{
    if n <= 0 {
        leases(bs)
    } else {
        let granted = granted_again(bs, reads, max_records, n - 1, member, now, timeout);
        let found = found_again(bs, reads, max_records, n - 1);
        let b = bs[n - 1];
        if b.state is Available && found.len() < max_records {
            let to = granted_to(b, max_records - found.len());
            granted_in(granted, b.first_offset, to, member, now, timeout)
        } else {
            granted
        }
    }
}

/// Where the runs begin after a member was granted what the request took of the first `n` of the
/// runs `bs`.
pub open spec fn split_again(
    bs: Seq<InFlightBatch>,
    reads: Map<u64, Option<Vec<Record>>>,
    max_records: int,
    n: int,
) -> Set<u64>
    decreases n,
{
    if n <= 0 {
        starts(bs)
    } else {
        let split = split_again(bs, reads, max_records, n - 1);
        let found = found_again(bs, reads, max_records, n - 1);
        let b = bs[n - 1];
        if b.state is Available && found.len() < max_records {
            split_after(split, b, granted_to(b, max_records - found.len()))
        } else {
            split
        }
    }
}

/// Each of `reads` is what `fetch` gives for its offset.
pub open spec fn answered_by<F: Fn(u64) -> Option<Vec<Record>>>(
    fetch: F,
    reads: Map<u64, Option<Vec<Record>>>,
) -> bool {
    forall|o: u64| #[trigger] reads.contains_key(o) ==> call_ensures(fetch, (o,), reads[o])
}

/// Exactly what a request of `member` does to the partition `base`, in which no lease is overdue,
/// where reads of the log gave `reads`: available runs come first, then fresh records.
pub open spec fn read_from(
    base: SharePartition,
    after: SharePartition,
    member: Seq<char>,
    max_records: int,
    timeout: u64,
    now: u64,
    reads: Map<u64, Option<Vec<Record>>>,
    infos: Seq<AcquiredRecordInfo>,
) -> bool {
    let bs = base.batches@;
    let n = bs.len() as int;
    let next = base.next_fetch_offset;
    let again = found_again(bs, reads, max_records, n);
    let granted = granted_again(bs, reads, max_records, n, member, now, timeout);
    let split = split_again(bs, reads, max_records, n);
    let taken = if again.len() < max_records && reads[next] is Some {
        fresh(reads[next]->0@, next, max_records - again.len())
    } else {
        Seq::empty()
    };
    &&& read_again(bs, reads, max_records, n)
    &&& again.len() < max_records ==> reads.contains_key(next)
    &&& infos == again + handed_out(taken, 1)
    &&& taken.len() == 0 ==> after.leases() == granted && after.next_fetch_offset == next
        && after.starts() == split
    &&& taken.len() > 0 ==> after.next_fetch_offset == taken.last().offset + 1 && after.leases()
        == begun(granted, taken[0].offset, taken.last().offset, grant(member, now, timeout, 0))
        && after.starts() == split.insert(taken[0].offset)
}

/// What a request of `member` for `max_records` records does and hands out, by what `fetch`
/// gives of the log.
pub open spec fn handed_by<F: Fn(u64) -> Option<Vec<Record>>>(
    fetch: F,
    before: SharePartition,
    after: SharePartition,
    member: Seq<char>,
    max_records: int,
    lock_timeout: Option<u64>,
    now: u64,
    infos: Seq<AcquiredRecordInfo>,
) -> bool {
    let timeout = match lock_timeout {
        Some(t) => t,
        None => before.default_lock_timeout,
    };
    max_records == 0 || exists|base: SharePartition, reads: Map<u64, Option<Vec<Record>>>|
        base.wf() && #[trigger] base.lapsed(before, now) && base.next_fetch_offset
            == before.next_fetch_offset && #[trigger] answered_by(fetch, reads) && read_from(
            base,
            after,
            member,
            max_records,
            timeout,
            now,
            reads,
            infos,
        )
}

/// A read at another offset does not change what was found before.
proof fn lemma_read_more(
    bs: Seq<InFlightBatch>,
    known: Map<u64, Option<Vec<Record>>>,
    more: Map<u64, Option<Vec<Record>>>,
    max_records: int,
    n: int,
    member: Seq<char>,
    now: u64,
    timeout: u64,
)
    requires
        0 <= n <= bs.len(),
        known.submap_of(more),
        read_again(bs, known, max_records, n),
    ensures
        read_again(bs, more, max_records, n),
        found_again(bs, more, max_records, n) == found_again(bs, known, max_records, n),
        split_again(bs, more, max_records, n) == split_again(bs, known, max_records, n),
        granted_again(bs, more, max_records, n, member, now, timeout) == granted_again(
            bs,
            known,
            max_records,
            n,
            member,
            now,
            timeout,
        ),
    decreases n,
{
    if n > 0 {
        lemma_read_more(bs, known, more, max_records, n - 1, member, now, timeout);
        let b = bs[n - 1];
        if known.contains_key(b.first_offset) {
            assert(more.contains_key(b.first_offset));
        }
    }
}

/// A request that has enough takes nothing of the runs that follow.
proof fn lemma_enough(
    bs: Seq<InFlightBatch>,
    reads: Map<u64, Option<Vec<Record>>>,
    max_records: int,
    j: int,
    n: int,
    member: Seq<char>,
    now: u64,
    timeout: u64,
)
    requires
        0 <= j <= n <= bs.len(),
        found_again(bs, reads, max_records, j).len() >= max_records,
        read_again(bs, reads, max_records, j),
    ensures
        read_again(bs, reads, max_records, n),
        found_again(bs, reads, max_records, n) == found_again(bs, reads, max_records, j),
        split_again(bs, reads, max_records, n) == split_again(bs, reads, max_records, j),
        granted_again(bs, reads, max_records, n, member, now, timeout) == granted_again(
            bs,
            reads,
            max_records,
            j,
            member,
            now,
            timeout,
        ),
    decreases n - j,
{
    if j < n {
        lemma_enough(bs, reads, max_records, j, n - 1, member, now, timeout);
    }
}

/// Whatever is handed out lies before the end of the offsets.
pub proof fn lemma_handed_offsets(
    before: SharePartition,
    after: SharePartition,
    member: Seq<char>,
    max_records: int,
    lock_timeout: Option<u64>,
    now: u64,
    infos: Seq<AcquiredRecordInfo>,
)
    requires
        after.wf(),
        handed_to(before, after, member, max_records, lock_timeout, now, infos),
    ensures
        forall|k: int| 0 <= k < infos.len() ==> (#[trigger] infos[k]).offset < u64::MAX,
{
    assert forall|k: int| 0 <= k < infos.len() implies (#[trigger] infos[k]).offset < u64::MAX by {
        assert(after.leases().contains_key(infos[k].offset));
        let j = covering(after.batches@, infos[k].offset);
        assert(covered_at(after.batches@, j, infos[k].offset));
    }
}

proof fn lemma_fit_after_sweep(before: SharePartition, base: SharePartition, now: u64)
    requires
        fits(before.leases()),
        base.lapsed(before, now),
    ensures
        fits(base.leases()),
{
    let m = before.leases();
    let after = swept(m, now, before.max_delivery_attempts);
    assert forall|o: u64| #[trigger] available(base.leases(), o) implies base.leases()[o].delivery_count
        < u16::MAX by {
        if !ran_out(m[o], now) {
            assert(available(m, o));
        }
    }
}

/// What the run at `i`, and the offsets before it from `done` on, are in `m`.
proof fn lemma_run_unchanged(
    sp: SharePartition,
    m: Map<u64, Lease>,
    member: Seq<char>,
    now: u64,
    timeout: u64,
    i: int,
    done: int,
)
    requires
        sp.wf(),
        0 <= i < sp.batches@.len(),
        done == (if i == 0 { 0 } else { sp.batches@[i - 1].last_offset + 1 }),
        reused(m, sp.leases(), member, now, timeout, done),
    ensures
        run_as_in(m, sp.leases(), sp.batches@[i], done),
{
    let bs = sp.batches@;
    let cur = sp.leases();
    assert(bs[i].wf());
    if i > 0 {
        assert(bs[i - 1].last_offset < bs[i].first_offset);
    }
    assert forall|o: u64| done <= o < bs[i].first_offset implies !#[trigger] m.dom().contains(o) by {
        if m.contains_key(o) {
            assert(cur.dom().contains(o));
            let k = covering(bs, o);
            assert(covered_at(bs, k, o));
            if k < i {
                if k < i - 1 {
                    assert(bs[k].last_offset < bs[i - 1].first_offset);
                }
            } else if i < k {
                assert(bs[i].last_offset < bs[k].first_offset);
            }
        }
    }
    assert forall|o: u64| bs[i].covers(o) implies #[trigger] m.dom().contains(o) && cur[o] == m[o] && m[o]
        == bs[i].lease() by {
        assert(covered_at(bs, i, o));
        lemma_lease_at(bs, i, o);
        assert(cur.dom().contains(o));
    }
    assert(done <= bs[i].first_offset <= bs[i].last_offset);
    assert(run_as_in(m, cur, bs[i], done));
}

/// The offsets of `b` have its lease both before and now, and there is nothing in flight between
/// `done` and `b`.
spec fn run_as_in(m: Map<u64, Lease>, cur: Map<u64, Lease>, b: InFlightBatch, done: int) -> bool {
    &&& done <= b.first_offset <= b.last_offset
    &&& forall|o: u64| done <= o < b.first_offset ==> !#[trigger] m.dom().contains(o)
    &&& forall|o: u64|
        b.covers(o) ==> #[trigger] m.dom().contains(o) && cur[o] == m[o] && m[o] == b.lease()
}

proof fn lemma_reused_more(
    m: Map<u64, Lease>,
    cur: Map<u64, Lease>,
    member: Seq<char>,
    now: u64,
    timeout: u64,
    done: int,
    b: InFlightBatch,
    to: u64,
)
    requires
        reused(m, cur, member, now, timeout, done),
        run_as_in(m, cur, b, done),
        b.state is Available,
        b.first_offset <= to <= b.last_offset,
    ensures
        reused(
            m,
            granted_in(cur, b.first_offset, to, member, now, timeout),
            member,
            now,
            timeout,
            b.last_offset + 1,
        ),
{
    let after = granted_in(cur, b.first_offset, to, member, now, timeout);
    assert(after.dom() =~= m.dom());
    assert forall|o: u64| #[trigger]
        lowest_available(m, o) && o < b.last_offset + 1 implies after[o] == grant(
        member,
        now,
        timeout,
        m[o].delivery_count as int,
    ) by {
        if o < done {
            assert(cur[o] == grant(member, now, timeout, m[o].delivery_count as int));
        } else {
            assert(m.dom().contains(o));
            assert(m.dom().contains(b.first_offset));
            assert(available(m, b.first_offset));
        }
    }
    assert forall|o: u64|
        #![trigger after[o]]
        m.contains_key(o) implies after[o] == m[o] || (o < b.last_offset + 1 && available(m, o)
        && after[o] == grant(member, now, timeout, m[o].delivery_count as int)) by {
        let _ = cur[o];
        assert(m.dom().contains(o));
    }
}

proof fn lemma_reused_skip(
    m: Map<u64, Lease>,
    cur: Map<u64, Lease>,
    member: Seq<char>,
    now: u64,
    timeout: u64,
    done: int,
    b: InFlightBatch,
)
    requires
        reused(m, cur, member, now, timeout, done),
        run_as_in(m, cur, b, done),
        !(b.state is Available),
    ensures
        reused(m, cur, member, now, timeout, b.last_offset + 1),
{
    assert forall|o: u64| #[trigger]
        lowest_available(m, o) && o < b.last_offset + 1 implies cur[o] == grant(
        member,
        now,
        timeout,
        m[o].delivery_count as int,
    ) by {
        assert(m.dom().contains(o));
    }
}

/// Handing out more records, all of them from `from` to `to` and under one new lease, after
/// those that lie below `from`.
proof fn lemma_handed_more(
    cur: Map<u64, Lease>,
    after: Map<u64, Lease>,
    member: Seq<char>,
    now: u64,
    timeout: u64,
    infos: Seq<AcquiredRecordInfo>,
    added: Seq<Record>,
    from: u64,
    to: u64,
    delivery_count: u16,
)
    requires
        all_handed(cur, member, now, timeout, infos),
        forall|k: int| 0 <= k < infos.len() ==> (#[trigger] infos[k]).offset < from,
        in_log_order(added),
        forall|k: int| 0 <= k < added.len() ==> from <= (#[trigger] added[k]).offset <= to,
        forall|o: u64|
            #![trigger after[o]]
            from <= o <= to ==> after.contains_key(o) && after[o] == grant(
                member,
                now,
                timeout,
                delivery_count - 1,
            ),
        forall|o: u64|
            #![trigger after[o]]
            cur.contains_key(o) && !(from <= o <= to) ==> after.contains_key(o) && after[o]
                == cur[o],
    ensures
        all_handed(after, member, now, timeout, infos + handed_out(added, delivery_count)),
        forall|k: int|
            infos.len() <= k < infos.len() + added.len() ==> (#[trigger] (infos + handed_out(
                added,
                delivery_count,
            ))[k]).offset == added[k - infos.len()].offset,
{
    let all = infos + handed_out(added, delivery_count);
    assert forall|k: int| 0 <= k < all.len() implies after.contains_key((#[trigger] all[k]).offset)
        && after[all[k].offset] == grant(member, now, timeout, all[k].delivery_count - 1)
        && all[k].frame.offset == all[k].offset by {
        let _ = after[all[k].offset];
        if k < infos.len() {
            assert(all[k] == infos[k]);
        } else {
            assert(all[k].offset == added[k - infos.len()].offset);
        }
    }
    assert forall|a: int, b: int| 0 <= a < b < all.len() implies (#[trigger] all[a]).offset < (
    #[trigger] all[b]).offset by {
        if b < infos.len() {
            assert(infos[a].offset < infos[b].offset);
        } else if a < infos.len() {
            assert(all[a] == infos[a]);
            assert(all[b].offset == added[b - infos.len()].offset);
        } else {
            assert(added[a - infos.len()].offset < added[b - infos.len()].offset);
        }
    }
}

impl SharePartition {
    /// Whether one more delivery of whatever is available can still be counted.
    pub fn check_deliveries(&self) -> (r: bool)
        requires
            self.wf(),
        ensures
            r == self.deliveries_fit(),
    {
        let ghost m = self.leases();
        let mut i: usize = 0;
        while i < self.batches.len()
            invariant
                i <= self.batches@.len(),
                self.wf(),
                m == self.leases(),
                forall|k: int|
                    0 <= k < i && (#[trigger] self.batches@[k]).state is Available
                        ==> self.batches@[k].delivery_count < u16::MAX,
            decreases self.batches@.len() - i,
        {
            if self.batches[i].state == ShareRecordState::Available
                && self.batches[i].delivery_count == u16::MAX {
                proof {
                    let o = self.batches@[i as int].first_offset;
                    assert(self.batches@[i as int].wf());
                    assert(covered_at(self.batches@, i as int, o));
                    lemma_lease_at(self.batches@, i as int, o);
                    assert(available(m, o));
                }
                return false;
            }
            i = i + 1;
        }
        proof {
            assert forall|o: u64| #[trigger] available(m, o) implies m[o].delivery_count
                < u16::MAX by {
                let k = covering(self.batches@, o);
                assert(covered_at(self.batches@, k, o));
                lemma_lease_at(self.batches@, k, o);
            }
        }
        true
    }

    /// One more delivery of whatever is available can still be counted.
    pub open spec fn deliveries_fit(self) -> bool {
        fits(self.leases())
    }

    /// Grants the available run at `i`, or its first `needed` offsets, to `member_id`, and hands
    /// out those of `frames` that lie there. Returns the number of pieces that the run is in now.
    pub fn acquire_run(
        &mut self,
        i: usize,
        needed: usize,
        frames: Option<Vec<Record>>,
        member_id: &str,
        now: u64,
        timeout: u64,
        infos: &mut Vec<AcquiredRecordInfo>,
    ) -> (pieces: usize)
        requires
            old(self).wf(),
            i < old(self).batches@.len(),
            old(self).batches@[i as int].state is Available,
            old(self).batches@[i as int].delivery_count < u16::MAX,
            needed > 0,
            now <= MAX_TIME,
            timeout <= MAX_TIME,
        ensures
            final(self).wf(),
            final(self).same_place(*old(self)),
            final(self).start_offset == old(self).start_offset,
            final(self).next_fetch_offset == old(self).next_fetch_offset,
            final(self).version == old(self).version,
            1 <= pieces <= 2,
            i + pieces <= final(self).batches@.len(),
            final(self).batches@.len() - (i + pieces) == old(self).batches@.len() - (i + 1),
            final(self).batches@[i + pieces - 1].last_offset == old(
                self,
            ).batches@[i as int].last_offset,
            final(self).batches@.skip(i + pieces) == old(self).batches@.skip(i + 1),
            ({
                let b = old(self).batches@[i as int];
                let to = granted_to(b, needed as int);
                &&& final(self).leases() == granted_in(
                    old(self).leases(),
                    b.first_offset,
                    to,
                    member_id@,
                    now,
                    timeout,
                )
                &&& final(self).starts() == split_after(old(self).starts(), b, to)
                &&& final(infos)@ == old(infos)@ + (match frames {
                    Some(records) => handed_out(
                        within(records@, b.first_offset, to),
                        (b.delivery_count + 1) as u16,
                    ),
                    None => Seq::empty(),
                })
            }),
    {
        let ghost bs = self.batches@;
        let ghost b = bs[i as int];
        let first: u64 = self.batches[i].first_offset;
        let last: u64 = self.batches[i].last_offset;
        let count: u16 = self.batches[i].delivery_count;
        let to: u64 = if last - first < needed as u64 {
            last
        } else {
            first + (needed as u64 - 1)
        };
        let pieces: Vec<InFlightBatch> = grant_run(&self.batches[i], to, member_id, now, timeout);
        let n: usize = pieces.len();
        let ghost ps = pieces@;
        match frames {
            Some(records) => hand_out(records, first, to, count + 1, infos),
            None => {},
        }
        proof {
            lemma_splice(bs, i as int, ps);
            assert forall|e: Expiry| #[trigger] expiries(self.timers@).contains(e) implies e.first
                != first by {
                let j = choose|j: int|
                    0 <= j < bs.len() && #[trigger] bs[j].acquired() && bs[j].expiry() == e;
                if j < i {
                    assert(bs[j].last_offset < bs[i as int].first_offset);
                } else if i < j {
                    assert(bs[i as int].last_offset < bs[j].first_offset);
                }
            }
        }
        add_timer(
            &mut self.timers,
            ExpiryTimer {
                expire_at: now + timeout,
                first_offset: first,
                last_offset: to,
                member_id: owned(member_id),
            },
        );
        splice_run(&mut self.batches, i, pieces);
        proof {
            assert(self.batches@.skip(i + n) =~= bs.skip(i + 1));
            assert(expiries(self.timers@) =~= pending(bs).union(pending(ps)));
            let want = granted_in(leases(bs), first, to, member_id@, now, timeout);
            assert forall|o: u64|
                #![trigger self.leases().dom().contains(o)]
                #![trigger want.dom().contains(o)]
                self.leases().dom().contains(o) == want.dom().contains(o) && (want.dom().contains(o)
                    ==> self.leases()[o] == want[o]) by {
                if b.covers(o) {
                    assert(covered_at(bs, i as int, o));
                    lemma_lease_at(bs, i as int, o);
                    assert(leases(ps).contains_key(o));
                    let k = if o <= to { 0int } else { 1int };
                    assert(covered_at(ps, k, o));
                    lemma_lease_at(ps, k, o);
                } else {
                    assert(!leases(ps).contains_key(o));
                }
            }
            assert(self.leases() =~= want);
            assert(bs[i as int].first_offset == first);
            assert(starts(bs).contains(first));
            assert(self.starts() =~= split_after(starts(bs), b, to));
        }
        n
    }

    /// Grants the offsets of the first `needed` of `frames` that nobody was handed before to
    /// `member_id`, and hands them out. Returns whether there were any.
    pub fn acquire_fresh(
        &mut self,
        needed: usize,
        frames: Vec<Record>,
        member_id: &str,
        now: u64,
        timeout: u64,
        infos: &mut Vec<AcquiredRecordInfo>,
    ) -> (any: bool)
        requires
            old(self).wf(),
            in_log_order(frames@),
            needed > 0,
            now <= MAX_TIME,
            timeout <= MAX_TIME,
        ensures
            final(self).wf(),
            final(self).same_place(*old(self)),
            final(self).start_offset == old(self).start_offset,
            final(self).version == old(self).version,
            ({
                let taken = fresh(frames@, old(self).next_fetch_offset, needed as int);
                &&& any == (taken.len() > 0)
                &&& final(infos)@ == old(infos)@ + handed_out(taken, 1)
                &&& any ==> final(self).next_fetch_offset == taken.last().offset + 1
                &&& any ==> final(self).leases() == begun(
                    old(self).leases(),
                    taken[0].offset,
                    taken.last().offset,
                    grant(member_id@, now, timeout, 0),
                )
                &&& any ==> final(self).starts() == old(self).starts().insert(taken[0].offset)
                &&& !any ==> *final(self) == *old(self)
            }),
    {
        let next: u64 = self.next_fetch_offset;
        let ghost bs = self.batches@;
        let ghost taken = fresh(frames@, next, needed as int);
        let mut valid: Vec<Record> = Vec::new();
        let ghost all = frames@;
        proof {
            lemma_within(all, next, u64::MAX);
            assert(valid@ =~= fresh(all.take(0), next, needed as int));
        }
        for frame in it: frames
            invariant
                it.seq() == all,
                needed > 0,
                valid@ == fresh(all.take(it.index() as int), next, needed as int),
        {
            proof {
                assert(all.take(it.index() + 1).drop_last() =~= all.take(it.index() as int));
            }
            if frame.offset >= next && valid.len() < needed {
                valid.push(frame);
            }
            assert(valid@ =~= fresh(all.take(it.index() + 1), next, needed as int));
        }
        assert(all.take(all.len() as int) =~= all);
        if valid.len() == 0 {
            assert(handed_out(taken, 1) =~= Seq::empty());
            assert(infos@ =~= old(infos)@ + handed_out(taken, 1));
            return false;
        }
        let first: u64 = valid[0].offset;
        let last: u64 = valid[valid.len() - 1].offset;
        proof {
            assert(taken[0].offset == within(all, next, u64::MAX)[0].offset);
            let w = within(all, next, u64::MAX);
            if taken.len() > 1 {
                assert(w[0].offset < w[taken.len() - 1].offset);
            }
            assert(w[taken.len() - 1].offset < u64::MAX);
        }
        hand_out(valid, first, last, 1, infos);
        proof {
            lemma_all_within(taken, first, last);
        }
        self.batches.push(
            InFlightBatch {
                first_offset: first,
                last_offset: last,
                state: ShareRecordState::Acquired,
                acquired_by: Some(owned(member_id)),
                acquired_at: Some(now),
                lock_timeout: timeout,
                delivery_count: 1,
            },
        );
        self.next_fetch_offset = last + 1;
        proof {
            lemma_new_run(bs, self.batches@.last());
            assert(self.batches@ =~= bs.push(self.batches@.last()));
            assert(self.batches@.last().lease() == grant(member_id@, now, timeout, 0));
            assert forall|e: Expiry| #[trigger] expiries(self.timers@).contains(e) implies e.first
                != first by {
                let j = choose|j: int|
                    0 <= j < bs.len() && #[trigger] bs[j].acquired() && bs[j].expiry() == e;
                assert(bs[j].last_offset < next);
            }
        }
        add_timer(
            &mut self.timers,
            ExpiryTimer {
                expire_at: now + timeout,
                first_offset: first,
                last_offset: last,
                member_id: owned(member_id),
            },
        );
        true
    }

    /// Hands out what is available again, from the lowest offset on. Returns whether there was
    /// anything, and what was read of the log.
    #[verifier::rlimit(50)]
    fn acquire_again<F: Fn(u64) -> Option<Vec<Record>>>(
        &mut self,
        member_id: &str,
        max_records: usize,
        timeout: u64,
        now: u64,
        fetch: &F,
        infos: &mut Vec<AcquiredRecordInfo>,
    ) -> (r: (bool, Ghost<Map<u64, Option<Vec<Record>>>>))
        requires
            old(self).wf(),
            old(infos)@.len() == 0,
            max_records > 0,
            now <= MAX_TIME,
            timeout <= MAX_TIME,
            old(self).deliveries_fit(),
            forall|o: u64| call_requires(*fetch, (o,)),
            forall|o: u64, records: Vec<Record>| #[trigger]
                call_ensures(*fetch, (o,), Some(records)) ==> in_log_order(records@),
        ensures
            final(self).wf(),
            final(self).same_place(*old(self)),
            final(self).start_offset == old(self).start_offset,
            final(self).next_fetch_offset == old(self).next_fetch_offset,
            final(self).version == old(self).version,
            answered_by(*fetch, r.1@),
            ({
                let bs = old(self).batches@;
                let n = bs.len() as int;
                let max = max_records as int;
                &&& read_again(bs, r.1@, max, n)
                &&& final(infos)@ == found_again(bs, r.1@, max, n)
                &&& final(self).starts() == split_again(bs, r.1@, max, n)
                &&& final(self).leases() == granted_again(
                    bs,
                    r.1@,
                    max,
                    n,
                    member_id@,
                    now,
                    timeout,
                )
            }),
            forall|o: u64| #[trigger] r.1@.contains_key(o) ==> o < old(self).next_fetch_offset,
            reused(
                old(self).leases(),
                final(self).leases(),
                member_id@,
                now,
                timeout,
                old(self).next_fetch_offset as int,
            ),
            final(infos)@.len() <= max_records,
            all_handed(final(self).leases(), member_id@, now, timeout, final(infos)@),
            forall|k: int|
                0 <= k < final(infos)@.len() ==> (#[trigger] final(infos)@[k]).offset < old(
                    self,
                ).next_fetch_offset && available(old(self).leases(), final(infos)@[k].offset),
            forall|o: u64| #[trigger]
                final(self).leases().contains_key(o) ==> o < old(self).next_fetch_offset,
            !r.0 ==> *final(self) == *old(self) && final(infos)@.len() == 0,
    {
        let ghost base = *self;
        let ghost m = self.leases();
        let ghost next = self.next_fetch_offset;
        let mut any: bool = false;
        let ghost mut reads: Map<u64, Option<Vec<Record>>> = Map::empty();
        let ghost mut j: int = 0;
        let ghost mut done: int = 0;
        proof {
            assert(self.batches@.skip(0) =~= base.batches@.skip(0));
        }
        let mut i: usize = 0;
        while i < self.batches.len() && infos.len() < max_records
            invariant
                max_records > 0,
                now <= MAX_TIME,
                timeout <= MAX_TIME,
                forall|o: u64| call_requires(*fetch, (o,)),
                forall|o: u64, records: Vec<Record>| #[trigger]
                    call_ensures(*fetch, (o,), Some(records)) ==> in_log_order(records@),
                self.wf(),
                self.same_place(base),
                self.start_offset == base.start_offset,
                self.next_fetch_offset == next,
                self.version == base.version,
                m == base.leases(),
                fits(m),
                i <= self.batches.len(),
                base.wf(),
                0 <= j <= base.batches@.len(),
                self.batches@.skip(i as int) == base.batches@.skip(j),
                answered_by(*fetch, reads),
                forall|o: u64| #[trigger] reads.contains_key(o) ==> o < done,
                read_again(base.batches@, reads, max_records as int, j),
                infos@ == found_again(base.batches@, reads, max_records as int, j),
                self.starts() == split_again(base.batches@, reads, max_records as int, j),
                self.leases() == granted_again(
                    base.batches@,
                    reads,
                    max_records as int,
                    j,
                    member_id@,
                    now,
                    timeout,
                ),
                done == (if i == 0 { 0 } else { self.batches@[i - 1].last_offset + 1 }),
                reused(m, self.leases(), member_id@, now, timeout, done),
                infos.len() <= max_records,
                all_handed(self.leases(), member_id@, now, timeout, infos@),
                forall|k: int|
                    0 <= k < infos@.len() ==> (#[trigger] infos@[k]).offset < done && available(
                        m,
                        infos@[k].offset,
                    ),
                infos@.len() > 0 ==> exists|o: u64| o < done && #[trigger] available(m, o),
                !any ==> *self == base && infos@.len() == 0,
            decreases self.batches.len() - i,
        {
            let ghost cur = self.leases();
            proof {
                assert(self.batches@.skip(i as int)[0] == base.batches@.skip(j)[0]);
                assert(self.batches@.skip(i as int).skip(1) =~= self.batches@.skip(i + 1));
                assert(base.batches@.skip(j).skip(1) =~= base.batches@.skip(j + 1));
            }
            if self.batches[i].state == ShareRecordState::Available {
                let needed: usize = max_records - infos.len();
                let ghost b = self.batches@[i as int];
                let ghost to = granted_to(b, needed as int);
                let ghost infos0 = infos@;
                proof {
                    lemma_run_unchanged(*self, m, member_id@, now, timeout, i as int, done);
                    assert(m.dom().contains(b.first_offset));
                    assert(available(m, b.first_offset));
                }
                let frames: Option<Vec<Record>> = (*fetch)(self.batches[i].first_offset);
                let ghost added = if frames is Some {
                    within(frames->0@, b.first_offset, to)
                } else {
                    Seq::empty()
                };
                let ghost known = reads;
                proof {
                    if frames is Some {
                        lemma_within(frames->0@, b.first_offset, to);
                    }
                    reads = known.insert(b.first_offset, frames);
                    lemma_read_more(
                        base.batches@,
                        known,
                        reads,
                        max_records as int,
                        j,
                        member_id@,
                        now,
                        timeout,
                    );
                    j = j + 1;
                }
                let pieces: usize = self.acquire_run(
                    i,
                    needed,
                    frames,
                    member_id,
                    now,
                    timeout,
                    infos,
                );
                any = true;
                proof {
                    let c = (b.delivery_count + 1) as u16;
                    assert(infos@ =~= infos0 + handed_out(added, c));
                    assert forall|o: u64|
                        #![trigger self.leases()[o]]
                        b.first_offset <= o <= to implies self.leases().contains_key(o)
                        && self.leases()[o] == grant(member_id@, now, timeout, c - 1) by {
                        assert(m.dom().contains(o));
                    }
                    lemma_handed_more(
                        cur,
                        self.leases(),
                        member_id@,
                        now,
                        timeout,
                        infos0,
                        added,
                        b.first_offset,
                        to,
                        c,
                    );
                    lemma_reused_more(m, cur, member_id@, now, timeout, done, b, to);
                    assert forall|k: int| 0 <= k < infos@.len() implies available(
                        m,
                        (#[trigger] infos@[k]).offset,
                    ) && infos@[k].offset < b.last_offset + 1 by {
                        if k < infos0.len() {
                            assert(infos@[k] == infos0[k]);
                        } else {
                            assert(b.covers(infos@[k].offset));
                            assert(m.dom().contains(infos@[k].offset));
                        }
                    }
                    assert(available(m, b.first_offset));
                    done = b.last_offset + 1;
                    assert(i + pieces <= self.batches.len());
                }
                i = i + pieces;
            } else {
                proof {
                    lemma_run_unchanged(*self, m, member_id@, now, timeout, i as int, done);
                    lemma_reused_skip(m, cur, member_id@, now, timeout, done, self.batches@[i as int]);
                    done = self.batches@[i as int].last_offset + 1;
                    j = j + 1;
                }
                i = i + 1;
            }
        }
        let ghost n = base.batches@.len() as int;
        proof {
            if infos@.len() < max_records {
                assert(self.batches@.skip(i as int).len() == 0);
                assert(j == n);
            } else {
                lemma_enough(
                    base.batches@,
                    reads,
                    max_records as int,
                    j,
                    n,
                    member_id@,
                    now,
                    timeout,
                );
            }
            assert forall|o: u64| #[trigger] lowest_available(m, o) implies o < done by {
                if infos@.len() < max_records {
                    assert(self.leases().dom().contains(o));
                    let k = covering(self.batches@, o);
                    assert(covered_at(self.batches@, k, o));
                    if k < i - 1 {
                        assert(self.batches@[k].last_offset < self.batches@[i - 1].first_offset);
                    }
                }
            }
            assert forall|o: u64| self.leases().dom().contains(o) implies o < next by {
                let k = covering(self.batches@, o);
                assert(covered_at(self.batches@, k, o));
            }
        }
        (any, Ghost(reads))
    }

    /// Hands out up to `max_records` records to `member_id`: first those that are available
    /// again, from the lowest offset on, then fresh ones from the log. `fetch` reads the log from
    /// an offset on, and gives nothing where the read fails.
    ///
    /// What comes back depends on the log. Whatever it holds, only available and fresh records
    /// change hands, at most `max_records` are handed out, each under a lease of its own, and
    /// the lowest available record is granted.
    #[verifier::rlimit(50)]
    pub fn acquire_records<F: Fn(u64) -> Option<Vec<Record>>>(
        &mut self,
        member_id: &str,
        max_records: usize,
        lock_timeout: Option<u64>,
        now: u64,
        fetch: F,
    ) -> (r: Vec<AcquiredRecordInfo>)
        requires
            old(self).wf(),
            now <= MAX_TIME,
            lock_timeout matches Some(t) ==> t <= MAX_TIME,
            old(self).deliveries_fit(),
            forall|o: u64| call_requires(fetch, (o,)),
            forall|o: u64, records: Vec<Record>| #[trigger]
                call_ensures(fetch, (o,), Some(records)) ==> in_log_order(records@),
        ensures
            final(self).wf(),
            final(self).same_place(*old(self)),
            final(self).versioned(*old(self)),
            handed_to(*old(self), *final(self), member_id@, max_records as int, lock_timeout, now, r@),
            handed_by(
                fetch,
                *old(self),
                *final(self),
                member_id@,
                max_records as int,
                lock_timeout,
                now,
                r@,
            ),
    {
        let mut infos: Vec<AcquiredRecordInfo> = Vec::new();
        if max_records == 0 {
            return infos;
        }
        let timeout: u64 = match lock_timeout {
            Some(t) => t,
            None => self.default_lock_timeout,
        };
        self.sweep_timers_inline(now);
        let ghost base = *self;
        let ghost m = self.leases();
        let ghost next = self.next_fetch_offset;
        proof {
            lemma_fit_after_sweep(*old(self), base, now);
        }
        let (again, Ghost(known)) = self.acquire_again(
            member_id,
            max_records,
            timeout,
            now,
            &fetch,
            &mut infos,
        );
        let mut any: bool = again;
        let ghost mut reads: Map<u64, Option<Vec<Record>>> = known;
        let ghost reused_leases = self.leases();
        let ghost infos1 = infos@;
        let ghost n = base.batches@.len() as int;
        let ghost mut taken: Seq<Record> = Seq::empty();
        if infos.len() < max_records {
            let needed: usize = max_records - infos.len();
            let read: Option<Vec<Record>> = fetch(self.next_fetch_offset);
            proof {
                reads = known.insert(next, read);
                lemma_read_more(
                    base.batches@,
                    known,
                    reads,
                    max_records as int,
                    n,
                    member_id@,
                    now,
                    timeout,
                );
            }
            match read {
                Some(frames) => {
                    proof {
                        lemma_within(frames@, next, u64::MAX);
                        taken = fresh(frames@, next, needed as int);
                    }
                    let more: bool = self.acquire_fresh(
                        needed,
                        frames,
                        member_id,
                        now,
                        timeout,
                        &mut infos,
                    );
                    if more {
                        any = true;
                    }
                    proof {
                        if more {
                            lemma_handed_more(
                                reused_leases,
                                self.leases(),
                                member_id@,
                                now,
                                timeout,
                                infos1,
                                taken,
                                taken[0].offset,
                                taken.last().offset,
                                1,
                            );
                            assert forall|k: int| 0 <= k < infos@.len() implies available(
                                m,
                                (#[trigger] infos@[k]).offset,
                            ) || next <= infos@[k].offset by {
                                if k < infos1.len() {
                                    assert(infos@[k] == infos1[k]);
                                }
                            }
                        } else {
                            assert(infos@ =~= infos1);
                        }
                    }
                },
                None => {},
            }
        }
        proof {
            let cur = self.leases();
            assert forall|o: u64|
                #![trigger cur[o]]
                (m.contains_key(o) ==> cur.contains_key(o) && (cur[o] == m[o] || (available(m, o)
                    && cur[o] == grant(member_id@, now, timeout, m[o].delivery_count as int)))) && (
                cur.contains_key(o) && !m.contains_key(o) ==> next <= o < self.next_fetch_offset
                    && cur[o] == grant(member_id@, now, timeout, 0)) by {
                assert(reused_leases.dom().contains(o) == m.dom().contains(o));
                let _ = reused_leases[o];
            }
            assert(acquired_from(
                m,
                next,
                *self,
                member_id@,
                now,
                timeout,
                max_records as int,
                infos@,
            ));
            assert(base.lapsed(*old(self), now));
            assert(infos@ =~= infos1 + handed_out(taken, 1));
            assert(read_from(
                base,
                *self,
                member_id@,
                max_records as int,
                timeout,
                now,
                reads,
                infos@,
            ));
            assert(answered_by(fetch, reads));
        }
        if any {
            self.version = self.version.wrapping_add(1);
        }
        infos
    }
}

} // verus!
