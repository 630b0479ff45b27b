//! Pending lock expiries, earliest first.
use crate::share::batches::Expiry;
use vstd::prelude::*;

verus! {

/// A pending lock expiry.
#[derive(Debug)]
pub struct ExpiryTimer {
    pub expire_at: u64,
    pub first_offset: u64,
    pub last_offset: u64,
    pub member_id: String,
}

impl ExpiryTimer {
    pub open spec fn view(self) -> Expiry {
        Expiry {
            expire_at: self.expire_at,
            first: self.first_offset,
            last: self.last_offset,
            member: self.member_id@,
        }
    }
}

/// Earlier expiries come first; among those at one time, lower offsets come first.
pub open spec fn before(a: Expiry, b: Expiry) -> bool {
    a.expire_at < b.expire_at || (a.expire_at == b.expire_at && a.first < b.first)
}

/// The timers stand in that order.
pub open spec fn in_order(ts: Seq<ExpiryTimer>) -> bool {
    forall|i: int, j: int| 0 <= i < j < ts.len() ==> before((#[trigger] ts[i])@, (#[trigger] ts[j])@)
}

/// The expiries that the timers stand for.
pub open spec fn expiries(ts: Seq<ExpiryTimer>) -> Set<Expiry> {
    Set::new(|t: Expiry| exists|i: int| 0 <= i < ts.len() && (#[trigger] ts[i])@ == t)
}

/// Adds a timer at its place.
pub fn add_timer(ts: &mut Vec<ExpiryTimer>, t: ExpiryTimer)
    requires
        in_order(old(ts)@),
        forall|e: Expiry| #[trigger] expiries(old(ts)@).contains(e) ==> e.first != t.first_offset,
    ensures
        in_order(final(ts)@),
        expiries(final(ts)@) == expiries(old(ts)@).insert(t@),
{
    proof {
        assert forall|i: int| 0 <= i < ts@.len() implies (#[trigger] ts@[i]).first_offset
            != t.first_offset by {
            assert(expiries(ts@).contains(ts@[i]@));
        }
    }
    let mut i: usize = 0;
    while i < ts.len() && (ts[i].expire_at < t.expire_at || (ts[i].expire_at == t.expire_at
        && ts[i].first_offset < t.first_offset))
        invariant
            i <= ts.len(),
            forall|j: int| 0 <= j < i ==> before((#[trigger] ts@[j])@, t@),
        decreases ts.len() - i,
    {
        i = i + 1;
    }
    let ghost old_ts = ts@;
    ts.insert(i, t);
    proof {
        assert forall|a: int, b: int| 0 <= a < b < ts@.len() implies before(
            (#[trigger] ts@[a])@,
            (#[trigger] ts@[b])@,
        ) by {
            let a0 = if a < i { a } else { a - 1 };
            let b0 = if b < i { b } else { b - 1 };
            if a == i {
                assert(before(t@, old_ts[i as int]@));
                if b0 > i {
                    assert(before(old_ts[i as int]@, old_ts[b0]@));
                }
            } else if b == i {
            } else {
                assert(before(old_ts[a0]@, old_ts[b0]@));
            }
        }
        assert forall|e: Expiry| expiries(ts@).contains(e) == expiries(old_ts).insert(t@).contains(
            e,
        ) by {
            if expiries(old_ts).contains(e) {
                let k = choose|k: int| 0 <= k < old_ts.len() && (#[trigger] old_ts[k])@ == e;
                assert(ts@[if k < i { k } else { k + 1 }]@ == e);
            }
            if e == t@ {
                assert(ts@[i as int]@ == e);
            }
            if expiries(ts@).contains(e) {
                let k = choose|k: int| 0 <= k < ts@.len() && (#[trigger] ts@[k])@ == e;
                if k != i {
                    assert(old_ts[if k < i { k } else { k - 1 }]@ == e);
                }
            }
        }
        assert(expiries(ts@) =~= expiries(old_ts).insert(t@));
    }
}

/// Takes the timer at position `i` out.
pub fn take_timer(ts: &mut Vec<ExpiryTimer>, i: usize) -> (r: ExpiryTimer)
    requires
        in_order(old(ts)@),
        i < old(ts)@.len(),
    ensures
        r == old(ts)@[i as int],
        in_order(final(ts)@),
        final(ts)@ == old(ts)@.remove(i as int),
        expiries(final(ts)@) == expiries(old(ts)@).remove(r@),
{
    let ghost old_ts = ts@;
    let r = ts.remove(i);
    proof {
        assert forall|a: int, b: int| 0 <= a < b < ts@.len() implies before(
            (#[trigger] ts@[a])@,
            (#[trigger] ts@[b])@,
        ) by {
            assert(before(
                old_ts[if a < i { a } else { a + 1 }]@,
                old_ts[if b < i { b } else { b + 1 }]@,
            ));
        }
        assert forall|e: Expiry| expiries(ts@).contains(e) == expiries(old_ts).remove(r@).contains(
            e,
        ) by {
            if expiries(ts@).contains(e) {
                let k = choose|k: int| 0 <= k < ts@.len() && (#[trigger] ts@[k])@ == e;
                let k0 = if k < i { k } else { k + 1 };
                assert(old_ts[k0]@ == e);
                if k0 < i {
                    assert(before(old_ts[k0]@, old_ts[i as int]@));
                } else {
                    assert(before(old_ts[i as int]@, old_ts[k0]@));
                }
            }
            if expiries(old_ts).remove(r@).contains(e) {
                let k = choose|k: int| 0 <= k < old_ts.len() && (#[trigger] old_ts[k])@ == e;
                assert(ts@[if k < i { k } else { k - 1 }]@ == e);
            }
        }
        assert(expiries(ts@) =~= expiries(old_ts).remove(r@));
    }
    r
}

/// Takes out the timer of the run that begins at `first`, which ends at `expire_at`.
pub fn cancel_timer(ts: &mut Vec<ExpiryTimer>, expire_at: u64, first: u64)
    requires
        in_order(old(ts)@),
        exists|i: int| 0 <= i < old(ts)@.len() && (#[trigger] old(ts)@[i]).expire_at == expire_at && old(ts)@[i].first_offset == first,
    ensures
        in_order(final(ts)@),
        exists|i: int|
            0 <= i < old(ts)@.len() && (#[trigger] old(ts)@[i]).expire_at == expire_at && old(ts)@[i].first_offset == first
                && expiries(final(ts)@) == expiries(old(ts)@).remove(old(ts)@[i]@),
{
    let mut i: usize = 0;
    while !(ts[i].expire_at == expire_at && ts[i].first_offset == first)
        invariant
            ts@ == old(ts)@,
            i < ts.len(),
            exists|k: int| i <= k < ts@.len() && (#[trigger] ts@[k]).expire_at == expire_at && ts@[k].first_offset == first,
        decreases ts.len() - i,
    {
        i = i + 1;
    }
    let _ = take_timer(ts, i);
}

} // verus!
