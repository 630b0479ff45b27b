//! In-flight batches: runs of consecutive offsets that share one lease.
//!
//! A partition's in-flight records are kept as a list of such runs, in order of offset. What
//! the list says of each single offset is its lease; cutting a run in two changes no lease, only
//! where runs begin.
use crate::text::same_text;
use vstd::prelude::*;

verus! {

/// Where a record stands in its delivery.
#[derive(Debug, Clone, Copy, PartialEq, Eq, Structural)]
pub enum ShareRecordState {
    Available,
    Acquired,
    Acknowledged,
    Archived,
}

/// A run of consecutive offsets under one lease. Times are nanoseconds.
#[derive(Debug, Clone)]
pub struct InFlightBatch {
    pub first_offset: u64,
    pub last_offset: u64,
    pub state: ShareRecordState,
    pub acquired_by: Option<String>,
    pub acquired_at: Option<u64>,
    pub lock_timeout: u64,
    pub delivery_count: u16,
}

/// The latest time that the library is asked about, and the longest lock that it is asked
/// to give: their sum is still a `u64`.
pub const MAX_TIME: u64 = 0x4000_0000_0000_0000;

/// What is known of one record: its state, who holds it since when, and how often it was
/// delivered.
pub struct Lease {
    pub state: ShareRecordState,
    pub owner: Option<Seq<char>>,
    pub acquired_at: Option<u64>,
    pub lock_timeout: u64,
    pub delivery_count: u16,
}

/// A pending expiry: when, which run of offsets, and whose.
pub struct Expiry {
    pub expire_at: u64,
    pub first: u64,
    pub last: u64,
    pub member: Seq<char>,
}

impl InFlightBatch {
    pub open spec fn owner(self) -> Option<Seq<char>> {
        match self.acquired_by {
            Some(s) => Some(s@),
            None => None,
        }
    }

    pub open spec fn lease(self) -> Lease {
        Lease {
            state: self.state,
            owner: self.owner(),
            acquired_at: self.acquired_at,
            lock_timeout: self.lock_timeout,
            delivery_count: self.delivery_count,
        }
    }

    pub open spec fn covers(self, o: u64) -> bool {
        self.first_offset <= o <= self.last_offset
    }

    pub open spec fn acquired(self) -> bool {
        self.state is Acquired
    }

    /// When the lease of an acquired run ends, and whose it is.
    pub open spec fn expiry(self) -> Expiry {
        Expiry {
            expire_at: (self.acquired_at->0 + self.lock_timeout) as u64,
            first: self.first_offset,
            last: self.last_offset,
            member: self.owner()->0,
        }
    }

    /// A holder and a time of acquisition are there exactly while the run is acquired.
    pub open spec fn wf(self) -> bool {
        &&& self.first_offset <= self.last_offset
        &&& self.acquired() <==> self.acquired_by is Some
        &&& self.acquired() <==> self.acquired_at is Some
        &&& self.acquired() ==> self.acquired_at->0 <= MAX_TIME
        &&& self.lock_timeout <= MAX_TIME
    }

    /// Whether `member` holds the run.
    pub fn held_by(&self, member: &str) -> (r: bool)
        requires
            self.wf(),
        ensures
            r == (self.acquired() && self.owner() == Some(member@)),
    {
        match &self.acquired_by {
            Some(owner) => same_text(owner.as_str(), member),
            None => false,
        }
    }
}

/// The part of `b` from `first` to `last`, under the same lease.
pub fn part_of(b: &InFlightBatch, first: u64, last: u64) -> (r: InFlightBatch)
    ensures
        r.first_offset == first,
        r.last_offset == last,
        r.lease() == b.lease(),
        r.acquired_by is Some == b.acquired_by is Some,
{
    let acquired_by: Option<String> = match &b.acquired_by {
        Some(owner) => Some(owner.clone()),
        None => None,
    };
    InFlightBatch {
        first_offset: first,
        last_offset: last,
        state: b.state,
        acquired_by,
        acquired_at: b.acquired_at,
        lock_timeout: b.lock_timeout,
        delivery_count: b.delivery_count,
    }
}

/// Puts `pieces` in place of the run at `i`.
pub fn splice_run(batches: &mut Vec<InFlightBatch>, i: usize, pieces: Vec<InFlightBatch>)
    requires
        i < old(batches)@.len(),
    ensures
        final(batches)@ == spliced(old(batches)@, i as int, pieces@),
{
    let mut left = pieces;
    let ghost all = left@;
    let ghost before = batches@;
    let _ = batches.remove(i);
    assert(batches@ =~= before.take(i as int) + all.skip(left@.len() as int) + before.skip(i + 1));
    while left.len() > 0
        invariant
            i < before.len(),
            left@.len() <= all.len(),
            left@ == all.take(left@.len() as int),
            batches@ == before.take(i as int) + all.skip(left@.len() as int) + before.skip(i + 1),
        decreases left@.len(),
    {
        let n: usize = left.len();
        match left.pop() {
            Some(piece) => {
                batches.insert(i, piece);
                assert(all.skip(n - 1) =~= seq![all[n - 1]] + all.skip(n as int));
                assert(batches@ =~= before.take(i as int) + all.skip(n - 1) + before.skip(i + 1));
            },
            None => {},
        }
    }
    assert(all.skip(0) =~= all);
}

/// The runs stand in order of offset and do not overlap.
pub open spec fn ordered(bs: Seq<InFlightBatch>) -> bool {
    &&& forall|i: int| 0 <= i < bs.len() ==> (#[trigger] bs[i]).wf()
    &&& forall|i: int, j: int|
        0 <= i < j < bs.len() ==> (#[trigger] bs[i]).last_offset < (#[trigger] bs[j]).first_offset
}

pub open spec fn covered_at(bs: Seq<InFlightBatch>, i: int, o: u64) -> bool {
    0 <= i < bs.len() && bs[i].covers(o)
}

pub open spec fn covering(bs: Seq<InFlightBatch>, o: u64) -> int {
    choose|i: int| covered_at(bs, i, o)
}

/// The lease of each offset that some run covers.
pub open spec fn leases(bs: Seq<InFlightBatch>) -> Map<u64, Lease> {
    Map::new(
        |o: u64| exists|i: int| covered_at(bs, i, o),
        |o: u64| bs[covering(bs, o)].lease(),
    )
}

/// Where the runs begin.
pub open spec fn starts(bs: Seq<InFlightBatch>) -> Set<u64> {
    Set::new(|o: u64| exists|i: int| 0 <= i < bs.len() && (#[trigger] bs[i]).first_offset == o)
}

/// The expiries of the acquired runs.
pub open spec fn pending(bs: Seq<InFlightBatch>) -> Set<Expiry> {
    Set::new(|t: Expiry| exists|i: int| 0 <= i < bs.len() && #[trigger] bs[i].acquired() && bs[i].expiry() == t)
}

/// `bs` with `ps` in place of the run at `i`.
pub open spec fn spliced(bs: Seq<InFlightBatch>, i: int, ps: Seq<InFlightBatch>) -> Seq<
    InFlightBatch,
> {
    bs.take(i) + ps + bs.skip(i + 1)
}

/// The run after the one at `k` begins where that one ends.
pub open spec fn adjoin(ps: Seq<InFlightBatch>, k: int) -> bool {
    ps[k].last_offset + 1 == ps[k + 1].first_offset
}

/// The runs `ps` cover the offsets from `first` to `last` without a gap.
pub open spec fn tiles(ps: Seq<InFlightBatch>, first: u64, last: u64) -> bool {
    &&& ps.len() > 0
    &&& ordered(ps)
    &&& ps[0].first_offset == first
    &&& ps.last().last_offset == last
    &&& forall|k: int| 0 <= k < ps.len() - 1 ==> #[trigger] adjoin(ps, k)
}

pub proof fn lemma_lease_at(bs: Seq<InFlightBatch>, i: int, o: u64)
    requires
        ordered(bs),
        covered_at(bs, i, o),
    ensures
        leases(bs).contains_key(o),
        covering(bs, o) == i,
        leases(bs)[o] == bs[i].lease(),
{
    let j = covering(bs, o);
    assert(covered_at(bs, j, o));
    if i < j {
        assert(bs[i].last_offset < bs[j].first_offset);
    } else if j < i {
        assert(bs[j].last_offset < bs[i].first_offset);
    }
}

proof fn lemma_tiles_cover(ps: Seq<InFlightBatch>, first: u64, last: u64, o: u64)
    requires
        tiles(ps, first, last),
        first <= o <= last,
    ensures
        exists|k: int| covered_at(ps, k, o),
    decreases ps.len(),
{
    if o <= ps[0].last_offset {
        assert(covered_at(ps, 0, o));
    } else {
        let rest = ps.skip(1);
        assert(ps.len() > 1);
        assert(rest.last() == ps.last());
        assert forall|k: int| 0 <= k < rest.len() - 1 implies #[trigger] adjoin(rest, k) by {
            assert(adjoin(ps, k + 1));
        }
        assert(adjoin(ps, 0));
        lemma_tiles_cover(rest, ps[1].first_offset, last, o);
        let k = choose|k: int| covered_at(rest, k, o);
        assert(covered_at(ps, k + 1, o));
    }
}

proof fn lemma_tiles_bounds(ps: Seq<InFlightBatch>, first: u64, last: u64)
    requires
        tiles(ps, first, last),
    ensures
        forall|k: int| 0 <= k < ps.len() ==> first <= (#[trigger] ps[k]).first_offset && ps[k].last_offset <= last,
{
    assert forall|k: int| 0 <= k < ps.len() implies first <= (#[trigger] ps[k]).first_offset && ps[k].last_offset
        <= last by {
        if k > 0 {
            assert(ps[0].last_offset < ps[k].first_offset);
        }
        if k < ps.len() - 1 {
            assert(ps[k].last_offset < ps[ps.len() - 1].first_offset);
        }
    }
}

/// Cutting one run into pieces changes the leases of its offsets to those of the pieces, and
/// the expiries to those of the acquired pieces.
pub proof fn lemma_splice(bs: Seq<InFlightBatch>, i: int, ps: Seq<InFlightBatch>)
    requires
        ordered(bs),
        0 <= i < bs.len(),
        tiles(ps, bs[i].first_offset, bs[i].last_offset),
    ensures
        ordered(spliced(bs, i, ps)),
        leases(spliced(bs, i, ps)) == leases(bs).union_prefer_right(leases(ps)),
        starts(spliced(bs, i, ps)) == starts(bs).union(starts(ps)),
        forall|o: u64| #[trigger] leases(ps).contains_key(o) <==> bs[i].covers(o),
        bs[i].acquired() ==> pending(spliced(bs, i, ps)) == pending(bs).remove(
            bs[i].expiry(),
        ).union(pending(ps)),
        !bs[i].acquired() ==> pending(spliced(bs, i, ps)) == pending(bs).union(pending(ps)),
{
    let out = spliced(bs, i, ps);
    let n = ps.len() as int;
    lemma_tiles_bounds(ps, bs[i].first_offset, bs[i].last_offset);
    assert forall|k: int| 0 <= k < out.len() implies out[k] == (if k < i {
        bs[k]
    } else if k < i + n {
        ps[k - i]
    } else {
        bs[k - n + 1]
    }) by {}
    assert(forall|k: int| 0 <= k < out.len() ==> (#[trigger] out[k]).wf());
    assert forall|a: int, b: int| 0 <= a < b < out.len() implies (#[trigger] out[a]).last_offset < (
    #[trigger] out[b]).first_offset by {
        if a < i {
            if b < i {
            } else if b < i + n {
                assert(bs[a].last_offset < bs[i].first_offset);
            } else {
                assert(bs[a].last_offset < bs[b - n + 1].first_offset);
            }
        } else if a < i + n {
            if b < i + n {
                assert(ps[a - i].last_offset < ps[b - i].first_offset);
            } else {
                assert(bs[i].last_offset < bs[b - n + 1].first_offset);
            }
        } else {
            assert(bs[a - n + 1].last_offset < bs[b - n + 1].first_offset);
        }
    }
    assert forall|o: u64| #[trigger] leases(ps).contains_key(o) <==> bs[i].covers(o) by {
        if bs[i].covers(o) {
            lemma_tiles_cover(ps, bs[i].first_offset, bs[i].last_offset, o);
        }
    }
    let both = leases(bs).union_prefer_right(leases(ps));
    assert forall|o: u64|
        #![trigger leases(out).dom().contains(o)]
        #![trigger both.dom().contains(o)]
        leases(out).dom().contains(o) == both.dom().contains(o) && (leases(out).dom().contains(o)
            ==> leases(out)[o] == both[o]) by {
        if leases(ps).contains_key(o) {
            let k = covering(ps, o);
            assert(covered_at(ps, k, o));
            assert(out[i + k] == ps[k]);
            assert(covered_at(out, i + k, o));
            lemma_lease_at(out, i + k, o);
        } else if leases(bs).contains_key(o) {
            let j = covering(bs, o);
            assert(covered_at(bs, j, o));
            assert(j != i);
            let k = if j < i { j } else { j + n - 1 };
            assert(out[k] == bs[j]);
            assert(covered_at(out, k, o));
            lemma_lease_at(out, k, o);
        } else if leases(out).contains_key(o) {
            let k = covering(out, o);
            assert(covered_at(out, k, o));
            if k < i {
                assert(covered_at(bs, k, o));
            } else if k < i + n {
                assert(covered_at(ps, k - i, o));
            } else {
                assert(covered_at(bs, k - n + 1, o));
            }
        }
    }
    assert(leases(out) =~= both);
    assert forall|o: u64| starts(out).contains(o) == starts(bs).union(starts(ps)).contains(o) by {
        if starts(out).contains(o) {
            let k = choose|k: int| 0 <= k < out.len() && (#[trigger] out[k]).first_offset == o;
            if i <= k < i + n {
                assert(ps[k - i].first_offset == o);
            } else {
                assert(bs[if k < i { k } else { k - n + 1 }].first_offset == o);
            }
        }
        if starts(ps).contains(o) {
            let k = choose|k: int| 0 <= k < ps.len() && (#[trigger] ps[k]).first_offset == o;
            assert(out[i + k].first_offset == o);
        } else if starts(bs).contains(o) {
            let j = choose|j: int| 0 <= j < bs.len() && (#[trigger] bs[j]).first_offset == o;
            assert(ps[0].first_offset == bs[i].first_offset);
            assert(out[if j < i { j } else { j + n - 1 }].first_offset == o);
        }
    }
    assert(starts(out) =~= starts(bs).union(starts(ps)));
    let kept = if bs[i].acquired() {
        pending(bs).remove(bs[i].expiry())
    } else {
        pending(bs)
    };
    assert forall|t: Expiry| pending(out).contains(t) == kept.union(pending(ps)).contains(t) by {
        if pending(out).contains(t) {
            let k = choose|k: int| 0 <= k < out.len() && #[trigger] out[k].acquired() && out[k].expiry() == t;
            if i <= k < i + n {
                assert(ps[k - i].acquired());
            } else {
                let j = if k < i { k } else { k - n + 1 };
                assert(bs[j].acquired());
                assert(bs[j].first_offset != bs[i].first_offset);
            }
        }
        if pending(ps).contains(t) {
            let k = choose|k: int| 0 <= k < ps.len() && #[trigger] ps[k].acquired() && ps[k].expiry() == t;
            assert(out[i + k].acquired());
        } else if kept.contains(t) {
            let j = choose|j: int| 0 <= j < bs.len() && #[trigger] bs[j].acquired() && bs[j].expiry() == t;
            if j != i {
                let k = if j < i { j } else { j + n - 1 };
                assert(out[k].acquired());
            }
        }
    }
    assert(pending(out) =~= kept.union(pending(ps)));
}

} // verus!
