//! What the log of share-group state promises: what was written is read back, in whatever
//! pieces it arrives, and a log that breaks off is not taken for a corrupt one.
use crate::checksum::crc32_of;
use crate::codec::{be, lemma_be_len, lemma_number_be, lemma_number_range, lemma_ranges, number};
use crate::share::snapshot::PersistedBatch;
use crate::share::state_log::{
    body_bytes, entries_of, entry_bytes, is_corrupt, num_at, parse, rest_of, run_at, run_bytes,
    runs_at, runs_bytes, state_byte_at, states_known, storable, Parsed, StoredState,
    SHARE_GROUP_STATE_MAGIC,
};
use vstd::prelude::*;
use vstd::utf8::*;

verus! {

proof fn lemma_run_len(b: PersistedBatch)
    ensures
        run_bytes(b).len() == 19,
{
    lemma_be_len(b.first_offset as int, 8);
    lemma_be_len(b.last_offset as int, 8);
    lemma_be_len(b.delivery_count as int, 2);
}

proof fn lemma_runs_len(bs: Seq<PersistedBatch>)
    ensures
        runs_bytes(bs).len() == 19 * bs.len(),
    decreases bs.len(),
{
    if bs.len() > 0 {
        lemma_runs_len(bs.drop_last());
        lemma_run_len(bs.last());
    }
}

proof fn lemma_runs_part(bs: Seq<PersistedBatch>, k: int)
    requires
        0 <= k < bs.len(),
    ensures
        19 * k + 19 <= runs_bytes(bs).len(),
        runs_bytes(bs).subrange(19 * k, 19 * k + 19) == run_bytes(bs[k]),
    decreases bs.len(),
{
    let rest = bs.drop_last();
    lemma_runs_len(bs);
    lemma_runs_len(rest);
    lemma_run_len(bs.last());
    if k < rest.len() {
        lemma_runs_part(rest, k);
        assert(runs_bytes(bs).subrange(19 * k, 19 * k + 19) =~= runs_bytes(rest).subrange(
            19 * k,
            19 * k + 19,
        ));
    } else {
        assert(runs_bytes(bs).subrange(19 * k, 19 * k + 19) =~= run_bytes(bs[k]));
    }
}

/// A run that stands at `at` is read back there.
proof fn lemma_run_read(s: Seq<u8>, at: int, b: PersistedBatch)
    requires
        0 <= at,
        at + 19 <= s.len(),
        s.subrange(at, at + 19) == run_bytes(b),
    ensures
        run_at(s, at) == b,
        s[at + 16] <= 3,
{
    let r = run_bytes(b);
    lemma_ranges();
    lemma_number_be(b.first_offset as int, 8);
    lemma_number_be(b.last_offset as int, 8);
    lemma_number_be(b.delivery_count as int, 2);
    assert(s.subrange(at, at + 8) =~= r.subrange(0, 8));
    assert(r.subrange(0, 8) =~= be(b.first_offset as int, 8));
    assert(s.subrange(at + 8, at + 8 + 8) =~= r.subrange(8, 16));
    assert(r.subrange(8, 16) =~= be(b.last_offset as int, 8));
    assert(s.subrange(at + 17, at + 17 + 2) =~= r.subrange(17, 19));
    assert(r.subrange(17, 19) =~= be(b.delivery_count as int, 2));
    assert(s[at + 16] == r[16]);
}

/// A record is read back as it was written, whatever follows it.
#[verifier::spinoff_prover]
#[verifier::rlimit(50)]
pub proof fn round_trip(r: StoredState, rest: Seq<u8>)
    requires
        storable(r),
    ensures
        parse(entry_bytes(r) + rest) == Parsed::Entry(r, entry_bytes(r).len() as int),
        entry_bytes(r).len() > 0,
{
    let s = entry_bytes(r) + rest;
    let g = encode_utf8(r.group);
    let t = encode_utf8(r.topic);
    let gl = g.len() as int;
    let tl = t.len() as int;
    let n = r.batches.len() as int;
    let sum = crc32_of(body_bytes(r)) as int;
    lemma_ranges();
    lemma_number_be(g.len() as int, 2);
    lemma_number_be(t.len() as int, 2);
    lemma_number_be(r.partition as int, 4);
    lemma_number_be(r.start_offset as int, 8);
    lemma_number_be(n, 4);
    lemma_number_be(sum, 4);
    lemma_runs_len(r.batches);
    encode_utf8_valid_utf8(r.group);
    encode_utf8_valid_utf8(r.topic);
    encode_utf8_decode_utf8(r.group);
    encode_utf8_decode_utf8(r.topic);
    let fixed = 5 + gl + tl;
    let runs = fixed + 16;
    let end = runs + 19 * n;
    assert(body_bytes(r).len() == end);
    assert(s.subrange(1, 3) =~= be(gl, 2));
    assert(s.subrange(3, 3 + gl) =~= g);
    assert(s.subrange(3 + gl, 3 + gl + 2) =~= be(tl, 2));
    assert(s.subrange(5 + gl, fixed) =~= t);
    assert(s.subrange(fixed, fixed + 4) =~= be(r.partition as int, 4));
    assert(s.subrange(fixed + 4, fixed + 4 + 8) =~= be(r.start_offset as int, 8));
    assert(s.subrange(fixed + 12, fixed + 12 + 4) =~= be(n, 4));
    assert(s.subrange(runs, end) =~= runs_bytes(r.batches));
    assert(s.take(end) =~= body_bytes(r));
    assert(s.subrange(end, end + 4) =~= be(sum, 4));
    assert forall|k: int| 0 <= k < n implies run_at(s, runs + 19 * k) == r.batches[k]
        && #[trigger] state_byte_at(s, runs, k) <= 3 by {
        lemma_runs_part(r.batches, k);
        assert(s.subrange(runs + 19 * k, runs + 19 * k + 19) =~= runs_bytes(r.batches).subrange(
            19 * k,
            19 * k + 19,
        ));
        lemma_run_read(s, runs + 19 * k, r.batches[k]);
    }
    assert(states_known(s, runs, n));
    assert forall|k: int| 0 <= k < n implies #[trigger] runs_at(s, runs, n)[k] == r.batches[k] by {
        let _ = state_byte_at(s, runs, k);
    }
    assert(runs_at(s, runs, n) =~= r.batches);
}

/// Once a record, or a corrupt one, is at the front, further bytes do not change that.
pub proof fn parse_is_stable(p: Seq<u8>, x: Seq<u8>)
    requires
        p.len() > 0,
        !(parse(p) is Incomplete),
    ensures
        parse(p + x) == parse(p),
        parse(p) matches Parsed::Entry(_, n) ==> 0 < n <= p.len(),
{
    let s = p + x;
    lemma_ranges();
    assert forall|a: int, n: int| 0 <= a <= n <= p.len() implies #[trigger] s.subrange(a, n) == p.subrange(
        a,
        n,
    ) by {
        assert(s.subrange(a, n) =~= p.subrange(a, n));
    }
    if s[0] == SHARE_GROUP_STATE_MAGIC {
        let group_len = num_at(p, 1, 2);
        lemma_number_range(p.subrange(1, 3));
        assert(num_at(s, 1, 2) == group_len);
        if valid_utf8(p.subrange(3, 3 + group_len)) {
            let topic_len = num_at(p, 3 + group_len, 2);
            lemma_number_range(p.subrange(3 + group_len, 5 + group_len));
            assert(num_at(s, 3 + group_len, 2) == topic_len);
            let fixed = 5 + group_len + topic_len;
            if valid_utf8(p.subrange(5 + group_len, fixed)) {
                let count = num_at(p, fixed + 12, 4);
                lemma_number_range(p.subrange(fixed + 12, fixed + 16));
                assert(num_at(s, fixed + 12, 4) == count);
                assert(num_at(s, fixed, 4) == num_at(p, fixed, 4));
                assert(num_at(s, fixed + 4, 8) == num_at(p, fixed + 4, 8));
                let runs = fixed + 16;
                let end = runs + 19 * count;
                assert forall|k: int| 0 <= k < count implies #[trigger] state_byte_at(s, runs, k)
                    == state_byte_at(p, runs, k) by {}
                assert forall|k: int| 0 <= k < count implies #[trigger] state_byte_at(p, runs, k)
                    == state_byte_at(s, runs, k) by {}
                assert(states_known(s, runs, count) == states_known(p, runs, count));
                assert(s.take(end) =~= p.take(end));
                assert(num_at(s, end, 4) == num_at(p, end, 4));
                assert forall|k: int| 0 <= k < count implies #[trigger] runs_at(s, runs, count)[k]
                    == runs_at(p, runs, count)[k] by {
                    let at = runs + 19 * k;
                    assert(num_at(s, at, 8) == num_at(p, at, 8));
                    assert(num_at(s, at + 8, 8) == num_at(p, at + 8, 8));
                    assert(num_at(s, at + 17, 2) == num_at(p, at + 17, 2));
                }
                assert(runs_at(s, runs, count) =~= runs_at(p, runs, count));
            }
        }
    }
}

/// A log that arrives in two pieces is read as if it had arrived in one: the records of the
/// first piece, then those of what was left of it followed by the second.
pub proof fn pieces_do_not_matter(p: Seq<u8>, x: Seq<u8>)
    ensures
        !is_corrupt(p) ==> entries_of(p + x) == entries_of(p) + entries_of(rest_of(p) + x),
        !is_corrupt(p) ==> is_corrupt(p + x) == is_corrupt(rest_of(p) + x),
        is_corrupt(p) ==> entries_of(p + x) == entries_of(p) && is_corrupt(p + x),
    decreases p.len(),
{
    if p.len() == 0 {
        assert(p + x =~= x);
        assert(rest_of(p) + x =~= x);
        assert(entries_of(p) + entries_of(x) =~= entries_of(x));
    } else if parse(p) is Incomplete {
        assert(entries_of(p) + entries_of(p + x) =~= entries_of(p + x));
    } else {
        parse_is_stable(p, x);
        if let Parsed::Entry(r, n) = parse(p) {
            pieces_do_not_matter(p.skip(n), x);
            assert((p + x).skip(n) =~= p.skip(n) + x);
            let more = p.skip(n);
            assert(entries_of(p + x) == seq![r] + entries_of(more + x));
            assert(entries_of(p) == seq![r] + entries_of(more));
            if !is_corrupt(p) {
                assert(seq![r] + (entries_of(more) + entries_of(rest_of(more) + x)) =~= (seq![r]
                    + entries_of(more)) + entries_of(rest_of(more) + x));
            }
        }
    }
}

/// The log that writing `records` one after the other gives.
pub open spec fn log_of(records: Seq<StoredState>) -> Seq<u8>
    decreases records.len(),
{
    if records.len() == 0 {
        Seq::empty()
    } else {
        entry_bytes(records[0]) + log_of(records.skip(1))
    }
}

/// A log is read back as it was written.
pub proof fn log_round_trip(records: Seq<StoredState>)
    requires
        forall|i: int| 0 <= i < records.len() ==> storable(#[trigger] records[i]),
    ensures
        entries_of(log_of(records)) == records,
        !is_corrupt(log_of(records)),
        rest_of(log_of(records)).len() == 0,
    decreases records.len(),
{
    if records.len() == 0 {
        assert(entries_of(log_of(records)) =~= records);
    } else {
        let first = records[0];
        let more = records.skip(1);
        let n = entry_bytes(first).len() as int;
        round_trip(first, log_of(more));
        log_round_trip(more);
        assert(log_of(records).skip(n) =~= log_of(more));
        assert(seq![first] + more =~= records);
    }
}

/// A log that breaks off anywhere is not taken for a corrupt one, and what is read of it is the
/// beginning of what was written.
pub proof fn broken_off_is_not_corrupt(records: Seq<StoredState>, k: int)
    requires
        forall|i: int| 0 <= i < records.len() ==> storable(#[trigger] records[i]),
        0 <= k <= log_of(records).len(),
    ensures
        !is_corrupt(log_of(records).take(k)),
        entries_of(log_of(records).take(k)).is_prefix_of(records),
{
    let whole = log_of(records);
    let p = whole.take(k);
    let x = whole.skip(k);
    assert(p + x =~= whole);
    log_round_trip(records);
    pieces_do_not_matter(p, x);
    if !is_corrupt(p) {
        assert(entries_of(p) + entries_of(rest_of(p) + x) == records);
        assert(entries_of(p) =~= records.subrange(0, entries_of(p).len() as int));
    }
}

/// A record is taken only if the checksum behind it is that of its bytes.
pub proof fn a_changed_record_is_not_taken(s: Seq<u8>, r: StoredState, n: int)
    requires
        s.len() > 0,
        parse(s) == Parsed::Entry(r, n),
    ensures
        n <= s.len(),
        crc32_of(s.take(n - 4)) == number(s.subrange(n - 4, n)),
{
}

} // verus!
