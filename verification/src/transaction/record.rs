//! Transactions as they are recorded in a log.
//!
//! A record is the status (1 byte), the producer (8), the transaction id, the number of
//! partitions (4), and for each partition its topic, its number (4), and the first (8) and end
//! (8) offset. Text has its length (2) in front.
use crate::codec::{
    be, get_be, lemma_number_be, lemma_ranges, number, pascal, put_pascal, put_u32, put_u64, put_u8,
    range,
};
use crate::text::{text_from_utf8_lossy, text_in};
use crate::transaction::manager::TxStatus;
use crate::transaction::ranges::{range_view, range_views, PartitionRangeList, RangeView};
use vstd::prelude::*;
use vstd::slice::*;
use vstd::string::*;
use vstd::utf8::*;

verus! {

/// A record.
pub struct TxRecord {
    pub status: TxStatus,
    pub producer_id: u64,
    pub id: Seq<char>,
    pub partitions: Seq<RangeView>,
}

pub type DecodedTxStateRecord = (TxStatus, u64, String, PartitionRangeList);

pub open spec fn record_view(d: DecodedTxStateRecord) -> TxRecord {
    TxRecord { status: d.0, producer_id: d.1, id: d.2@, partitions: range_views(d.3@) }
}

pub open spec fn status_byte(status: TxStatus) -> u8 {
    match status {
        TxStatus::Ongoing => 1,
        TxStatus::PrepareCommit => 2,
        TxStatus::PrepareAbort => 3,
        TxStatus::Committed => 4,
        TxStatus::Aborted => 5,
    }
}

pub open spec fn status_of(byte: u8) -> Option<TxStatus> {
    if byte == 1 {
        Some(TxStatus::Ongoing)
    } else if byte == 2 {
        Some(TxStatus::PrepareCommit)
    } else if byte == 3 {
        Some(TxStatus::PrepareAbort)
    } else if byte == 4 {
        Some(TxStatus::Committed)
    } else if byte == 5 {
        Some(TxStatus::Aborted)
    } else {
        None
    }
}

pub open spec fn range_bytes(r: RangeView) -> Seq<u8> {
    pascal(r.topic) + be(r.partition as int, 4) + be(r.start as int, 8) + be(r.end as int, 8)
}

pub open spec fn ranges_bytes(rs: Seq<RangeView>) -> Seq<u8>
    decreases rs.len(),
{
    if rs.len() == 0 {
        Seq::empty()
    } else {
        ranges_bytes(rs.drop_last()) + range_bytes(rs.last())
    }
}

/// A record in the log.
pub open spec fn record_bytes(r: TxRecord) -> Seq<u8> {
    seq![status_byte(r.status)] + be(r.producer_id as int, 8) + pascal(r.id) + be(
        r.partitions.len() as int,
        4,
    ) + ranges_bytes(r.partitions)
}

/// The lengths in the record can be written down.
pub open spec fn writable(r: TxRecord) -> bool {
    &&& encode_utf8(r.id).len() < 0x1_0000
    &&& r.partitions.len() < 0x1_0000_0000
    &&& forall|i: int|
        0 <= i < r.partitions.len() ==> encode_utf8((#[trigger] r.partitions[i]).topic).len()
            < 0x1_0000
}

/// The ranges, up to `count` of them, that `s` begins with.
pub open spec fn ranges_in(s: Seq<u8>, count: int) -> Seq<RangeView>
    decreases count,
{
    let topic_len = number(s.take(2));
    if count <= 0 || s.len() < 2 || s.len() - 2 < topic_len + 20 {
        Seq::empty()
    } else {
        let at = 2 + topic_len;
        seq![
            RangeView {
                topic: text_in(s.subrange(2, at)),
                partition: number(s.subrange(at, at + 4)) as u32,
                start: number(s.subrange(at + 4, at + 12)) as u64,
                end: number(s.subrange(at + 12, at + 20)) as u64,
            },
        ] + ranges_in(s.skip(at + 20), count - 1)
    }
}

/// The record that bytes read as. A list of ranges that breaks off is read as far as it goes.
pub open spec fn record_of(s: Seq<u8>) -> Option<TxRecord> {
    let id_len = number(s.subrange(9, 11));
    if s.len() < 11 || s.len() - 11 < id_len || status_of(s[0]) is None {
        None
    } else {
        let rest = s.skip(11 + id_len);
        Some(
            TxRecord {
                status: status_of(s[0])->0,
                producer_id: number(s.subrange(1, 9)) as u64,
                id: text_in(s.subrange(11, 11 + id_len)),
                partitions: if rest.len() >= 4 {
                    ranges_in(rest.skip(4), number(rest.take(4)))
                } else {
                    Seq::empty()
                },
            },
        )
    }
}

/// Encodes a record.
pub fn encode_tx_state_record(
    status: TxStatus,
    producer_id: u64,
    transaction_id: &str,
    partitions: &PartitionRangeList,
) -> (r: Vec<u8>)
    requires
        writable(
            (TxRecord {
                status,
                producer_id,
                id: transaction_id@,
                partitions: range_views(partitions@),
            }),
        ),
    ensures
        r@ == record_bytes(
            (TxRecord {
                status,
                producer_id,
                id: transaction_id@,
                partitions: range_views(partitions@),
            }),
        ),
{
    let ghost rs = range_views(partitions@);
    let ghost rec = TxRecord { status, producer_id, id: transaction_id@, partitions: rs };
    let mut buf: Vec<u8> = Vec::new();
    let byte: u8 = match status {
        TxStatus::Ongoing => 1,
        TxStatus::PrepareCommit => 2,
        TxStatus::PrepareAbort => 3,
        TxStatus::Committed => 4,
        TxStatus::Aborted => 5,
    };
    put_u8(&mut buf, byte);
    put_u64(&mut buf, producer_id);
    put_pascal(&mut buf, transaction_id);
    put_u32(&mut buf, partitions.len() as u32);
    let ghost head = buf@;
    let mut i: usize = 0;
    assert(buf@ =~= head + ranges_bytes(rs.take(0)));
    while i < partitions.len()
        invariant
            i <= partitions@.len(),
            rs == range_views(partitions@),
            forall|j: int|
                0 <= j < rs.len() ==> encode_utf8((#[trigger] rs[j]).topic).len() < 0x1_0000,
            buf@ == head + ranges_bytes(rs.take(i as int)),
        decreases partitions@.len() - i,
    {
        let ghost before = buf@;
        proof {
            assert(rs[i as int] == range_view(partitions@[i as int]));
            assert(rs.take(i + 1).drop_last() =~= rs.take(i as int));
        }
        put_pascal(&mut buf, partitions[i].0.as_str());
        put_u32(&mut buf, partitions[i].1);
        put_u64(&mut buf, partitions[i].2);
        put_u64(&mut buf, partitions[i].3);
        proof {
            assert(buf@ =~= before + range_bytes(rs[i as int]));
            assert(buf@ =~= head + ranges_bytes(rs.take(i + 1)));
        }
        i = i + 1;
    }
    proof {
        assert(rs.take(i as int) =~= rs);
        assert(buf@ =~= record_bytes(rec));
    }
    buf
}

fn read_status(byte: u8) -> (r: Option<TxStatus>)
    ensures
        r == status_of(byte),
{
    if byte == 1 {
        Some(TxStatus::Ongoing)
    } else if byte == 2 {
        Some(TxStatus::PrepareCommit)
    } else if byte == 3 {
        Some(TxStatus::PrepareAbort)
    } else if byte == 4 {
        Some(TxStatus::Committed)
    } else if byte == 5 {
        Some(TxStatus::Aborted)
    } else {
        None
    }
}

/// Reads up to `count` ranges from `at` on.
fn read_ranges(s: &[u8], at: usize, count: u32) -> (r: PartitionRangeList)
    requires
        at <= s@.len(),
    ensures
        range_views(r@) == ranges_in(s@.skip(at as int), count as int),
{
    let mut out: PartitionRangeList = Vec::new();
    let mut pos: usize = at;
    let mut left: u32 = count;
    let ghost want = ranges_in(s@.skip(at as int), count as int);
    proof {
        lemma_ranges();
        assert(range_views(out@) + want =~= want);
    }
    while left > 0
        invariant
            pos <= s.len(),
            range(2) == 0x1_0000,
            range(4) == 0x1_0000_0000,
            want == range_views(out@) + ranges_in(s@.skip(pos as int), left as int),
        ensures
            want == range_views(out@),
        decreases left,
    {
        let ghost tail = s@.skip(pos as int);
        if s.len() - pos < 2 {
            assert(range_views(out@) + Seq::<RangeView>::empty() =~= range_views(out@));
            break ;
        }
        let topic_len: usize = get_be(s, pos, 2) as usize;
        proof {
            assert(s@.subrange(pos as int, pos + 2) =~= tail.take(2));
        }
        if s.len() - pos - 2 < topic_len + 20 {
            assert(range_views(out@) + Seq::<RangeView>::empty() =~= range_views(out@));
            break ;
        }
        let mid: usize = pos + 2 + topic_len;
        let topic: String = text_from_utf8_lossy(slice_subrange(s, pos + 2, mid));
        let partition: u32 = get_be(s, mid, 4) as u32;
        let start: u64 = get_be(s, mid + 4, 8);
        let end: u64 = get_be(s, mid + 12, 8);
        let ghost before = range_views(out@);
        let ghost r = RangeView { topic: topic@, partition, start, end };
        out.push((topic, partition, start, end));
        proof {
            let t = 2 + topic_len as int;
            assert(s@.subrange(pos + 2, mid as int) =~= tail.subrange(2, t));
            assert(s@.subrange(mid as int, mid + 4) =~= tail.subrange(t, t + 4));
            assert(s@.subrange(mid + 4, mid + 4 + 8) =~= tail.subrange(t + 4, t + 12));
            assert(s@.subrange(mid + 12, mid + 12 + 8) =~= tail.subrange(t + 12, t + 20));
            assert(range_views(out@) =~= before.push(r));
            assert(tail.skip(t + 20) =~= s@.skip(mid + 20));
            let rest = ranges_in(s@.skip(mid + 20), left - 1);
            assert(before + (seq![r] + rest) =~= range_views(out@) + rest);
        }
        pos = mid + 20;
        left = left - 1;
        proof {
            if left == 0 {
                assert(range_views(out@) + Seq::<RangeView>::empty() =~= range_views(out@));
            }
        }
    }
    out
}

/// Decodes a record.
pub fn decode_tx_state_record(src: &[u8]) -> (r: Option<DecodedTxStateRecord>)
    ensures
        match r {
            Some(d) => record_of(src@) == Some(record_view(d)),
            None => record_of(src@) is None,
        },
{
    proof {
        lemma_ranges();
    }
    if src.len() < 11 {
        return None;
    }
    let producer_id: u64 = get_be(src, 1, 8);
    let id_len: usize = get_be(src, 9, 2) as usize;
    if src.len() - 11 < id_len {
        return None;
    }
    let rest_at: usize = 11 + id_len;
    let id: String = text_from_utf8_lossy(slice_subrange(src, 11, rest_at));
    let ghost rest = src@.skip(rest_at as int);
    let partitions: PartitionRangeList = if src.len() - rest_at >= 4 {
        let count: u32 = get_be(src, rest_at, 4) as u32;
        proof {
            assert(src@.subrange(rest_at as int, rest_at + 4) =~= rest.take(4));
            assert(rest.skip(4) =~= src@.skip(rest_at + 4));
        }
        read_ranges(src, rest_at + 4, count)
    } else {
        let none: PartitionRangeList = Vec::new();
        assert(range_views(none@) =~= Seq::empty());
        none
    };
    match read_status(src[0]) {
        Some(status) => Some((status, producer_id, id, partitions)),
        None => None,
    }
}

proof fn lemma_ranges_read(rs: Seq<RangeView>, rest: Seq<u8>, n: int)
    requires
        0 <= n <= rs.len(),
        forall|i: int| 0 <= i < rs.len() ==> encode_utf8((#[trigger] rs[i]).topic).len() < 0x1_0000,
        forall|i: int|
            0 <= i < rs.len() ==> text_in(encode_utf8((#[trigger] rs[i]).topic)) == rs[i].topic,
    ensures
        ranges_in(ranges_from(rs, n) + rest, rs.len() - n) == rs.skip(n),
    decreases rs.len() - n,
{
    let s = ranges_from(rs, n) + rest;
    if n < rs.len() {
        let r = rs[n];
        let t = encode_utf8(r.topic);
        let tl = t.len() as int;
        lemma_ranges();
        lemma_number_be(tl, 2);
        lemma_number_be(r.partition as int, 4);
        lemma_number_be(r.start as int, 8);
        lemma_number_be(r.end as int, 8);
        lemma_ranges_read(rs, rest, n + 1);
        let at = 2 + tl;
        assert(s.take(2) =~= be(tl, 2));
        assert(s.subrange(2, at) =~= t);
        assert(s.subrange(at, at + 4) =~= be(r.partition as int, 4));
        assert(s.subrange(at + 4, at + 12) =~= be(r.start as int, 8));
        assert(s.subrange(at + 12, at + 20) =~= be(r.end as int, 8));
        assert(s.skip(at + 20) =~= ranges_from(rs, n + 1) + rest);
        assert(rs.skip(n) =~= seq![r] + rs.skip(n + 1));
    } else {
        assert(rs.skip(n) =~= Seq::empty());
    }
}

/// The bytes of the ranges from the `n`-th on.
spec fn ranges_from(rs: Seq<RangeView>, n: int) -> Seq<u8>
    decreases rs.len() - n,
{
    if n >= rs.len() {
        Seq::empty()
    } else {
        range_bytes(rs[n]) + ranges_from(rs, n + 1)
    }
}

proof fn lemma_ranges_from(rs: Seq<RangeView>, n: int)
    requires
        0 <= n <= rs.len(),
    ensures
        ranges_bytes(rs.take(n)) + ranges_from(rs, n) == ranges_bytes(rs),
    decreases rs.len() - n,
{
    if n < rs.len() {
        lemma_ranges_from(rs, n + 1);
        assert(rs.take(n + 1).drop_last() =~= rs.take(n));
        assert(ranges_bytes(rs.take(n)) + ranges_from(rs, n) =~= ranges_bytes(rs.take(n + 1))
            + ranges_from(rs, n + 1));
    } else {
        assert(rs.take(n) =~= rs);
        assert(ranges_bytes(rs) + Seq::<u8>::empty() =~= ranges_bytes(rs));
    }
}

/// A record is read back as it was written.
pub proof fn record_round_trip(r: TxRecord)
    requires
        writable(r),
    ensures
        record_of(record_bytes(r)) == Some(r),
{
    let s = record_bytes(r);
    let t = encode_utf8(r.id);
    let tl = t.len() as int;
    let n = r.partitions.len() as int;
    lemma_ranges();
    lemma_number_be(r.producer_id as int, 8);
    lemma_number_be(tl, 2);
    lemma_number_be(n, 4);
    encode_utf8_valid_utf8(r.id);
    encode_utf8_decode_utf8(r.id);
    assert(s.subrange(1, 9) =~= be(r.producer_id as int, 8));
    assert(s.subrange(9, 11) =~= be(tl, 2));
    assert(s.subrange(11, 11 + tl) =~= t);
    let rest = s.skip(11 + tl);
    assert(rest.take(4) =~= be(n, 4));
    assert(rest.skip(4) =~= ranges_bytes(r.partitions));
    assert forall|i: int| 0 <= i < r.partitions.len() implies text_in(
        encode_utf8((#[trigger] r.partitions[i]).topic),
    ) == r.partitions[i].topic by {
        encode_utf8_valid_utf8(r.partitions[i].topic);
        encode_utf8_decode_utf8(r.partitions[i].topic);
    }
    lemma_ranges_from(r.partitions, 0);
    assert(r.partitions.take(0) =~= Seq::empty());
    assert(Seq::<u8>::empty() + ranges_from(r.partitions, 0) =~= ranges_from(r.partitions, 0));
    lemma_ranges_read(r.partitions, Seq::empty(), 0);
    assert(ranges_from(r.partitions, 0) + Seq::<u8>::empty() =~= ranges_from(r.partitions, 0));
    assert(r.partitions.skip(0) =~= r.partitions);
}

/// Writes a record, if its lengths can be written down.
pub fn state_record(
    status: TxStatus,
    producer_id: u64,
    transaction_id: &str,
    partitions: &PartitionRangeList,
) -> (r: Option<Vec<u8>>)
    ensures
        ({
            let rec = TxRecord {
                status,
                producer_id,
                id: transaction_id@,
                partitions: range_views(partitions@),
            };
            match r {
                Some(b) => writable(rec) && b@ == record_bytes(rec),
                None => !writable(rec),
            }
        }),
{
    let ghost views = range_views(partitions@);
    if transaction_id.as_bytes().len() >= 0x1_0000 || partitions.len() as u64 >= 0x1_0000_0000 {
        return None;
    }
    let mut i: usize = 0;
    while i < partitions.len()
        invariant
            i <= partitions.len(),
            views == range_views(partitions@),
            forall|j: int| 0 <= j < i ==> encode_utf8((#[trigger] views[j]).topic).len() < 0x1_0000,
        decreases partitions.len() - i,
    {
        assert(views[i as int] == range_view(partitions@[i as int]));
        if partitions[i].0.as_str().as_bytes().len() >= 0x1_0000 {
            return None;
        }
        i = i + 1;
    }
    Some(encode_tx_state_record(status, producer_id, transaction_id, partitions))
}

} // verus!
