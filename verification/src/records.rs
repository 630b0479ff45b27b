//! Records as the log hands them out.
use vstd::prelude::*;

verus! {

/// One record of a partition's log.
#[derive(Debug)]
pub struct Record {
    pub offset: u64,
    pub key: Option<Vec<u8>>,
    pub value: Option<Vec<u8>>,
}

/// A log hands records out in order of offset, and its offsets end before `u64::MAX`.
pub open spec fn in_log_order(records: Seq<Record>) -> bool {
    &&& forall|i: int, j: int|
        0 <= i < j < records.len() ==> (#[trigger] records[i]).offset < (#[trigger] records[j]).offset
    &&& forall|i: int| 0 <= i < records.len() ==> (#[trigger] records[i]).offset < u64::MAX
}

/// Whether records stand in the order in which a log hands them out.
pub fn is_in_log_order(records: &Vec<Record>) -> (r: bool)
    ensures
        r == in_log_order(records@),
{
    let mut i: usize = 0;
    while i < records.len()
        invariant
            i <= records.len(),
            in_log_order(records@.take(i as int)),
        decreases records.len() - i,
    {
        let ghost next = records@.take(i + 1);
        if records[i].offset == u64::MAX {
            assert(records@[i as int].offset == u64::MAX);
            return false;
        }
        if i > 0 && records[i - 1].offset >= records[i].offset {
            assert(records@[i - 1].offset >= records@[i as int].offset);
            return false;
        }
        proof {
            assert forall|a: int, b: int| 0 <= a < b < next.len() implies (#[trigger] next[a]).offset
                < (#[trigger] next[b]).offset by {
                let known = records@.take(i as int);
                if b < i {
                    assert(known[a].offset < known[b].offset);
                } else if a < i - 1 {
                    assert(known[a].offset < known[i - 1].offset);
                }
            }
            assert forall|a: int| 0 <= a < next.len() implies (#[trigger] next[a]).offset
                < u64::MAX by {
                let known = records@.take(i as int);
                if a < i {
                    assert(known[a].offset < u64::MAX);
                }
            }
        }
        i = i + 1;
    }
    assert(records@.take(i as int) =~= records@);
    true
}

/// The records from offset `from` to offset `to`, in order.
pub open spec fn within(records: Seq<Record>, from: u64, to: u64) -> Seq<Record>
    decreases records.len(),
{
    if records.len() == 0 {
        Seq::empty()
    } else if from <= records.last().offset <= to {
        within(records.drop_last(), from, to).push(records.last())
    } else {
        within(records.drop_last(), from, to)
    }
}

/// Selecting a range keeps the order of the log, and gives at most one record per offset.
pub proof fn lemma_within(records: Seq<Record>, from: u64, to: u64)
    requires
        in_log_order(records),
        from <= to,
    ensures
        in_log_order(within(records, from, to)),
        forall|i: int|
            0 <= i < within(records, from, to).len() ==> from <= (#[trigger] within(
                records,
                from,
                to,
            )[i]).offset <= to && records.contains(within(records, from, to)[i]),
        within(records, from, to).len() <= to - from + 1,
        within(records, from, to).len() <= records.len(),
    decreases records.len(),
{
    let w = within(records, from, to);
    if records.len() > 0 {
        let rest = records.drop_last();
        let v = within(rest, from, to);
        lemma_within(rest, from, to);
        assert forall|i: int| 0 <= i < v.len() implies records.contains(#[trigger] v[i])
            && v[i].offset < records.last().offset by {
            assert(rest.contains(v[i]));
            let k = choose|k: int| 0 <= k < rest.len() && rest[k] == v[i];
            assert(records[k] == v[i]);
        }
        assert(records.contains(records.last()));
        lemma_spread(w, from, to);
    }
}

/// Records in order between two offsets are at most as many as those offsets.
pub proof fn lemma_spread(w: Seq<Record>, from: u64, to: u64)
    requires
        in_log_order(w),
        from <= to,
        forall|i: int| 0 <= i < w.len() ==> from <= (#[trigger] w[i]).offset <= to,
    ensures
        w.len() <= to - from + 1,
    decreases w.len(),
{
    if w.len() > 1 {
        let n = w.len() as int;
        assert(w[n - 2].offset < w[n - 1].offset);
        let rest = w.drop_last();
        assert forall|i: int| 0 <= i < rest.len() implies from <= (#[trigger] rest[i]).offset <= (
        to - 1) as u64 by {
            if i < n - 2 {
                assert(w[i].offset < w[n - 1].offset);
            }
        }
        lemma_spread(rest, from, (to - 1) as u64);
    }
}

} // verus!
