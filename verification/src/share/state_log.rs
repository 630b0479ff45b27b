//! The log that share-group state is kept in.
//!
//! Each record is the full state of one partition of one group; a later record for the same
//! partition replaces an earlier one. A record is
//!
//! ```text
//! magic, group, topic, partition: 4, start offset: 8, run count: 4, runs, checksum: 4
//! ```
//!
//! where a run is its first offset (8), its last offset (8), its state (1) and its delivery
//! count (2), text has its length (2) in front, and the checksum covers all that comes before.
use crate::checksum::{crc32, crc32_of};
use crate::codec::{
    be, get_be, lemma_ranges, number, part, pascal, put_pascal, put_u16, put_u32, put_u64, put_u8,
    range,
};
use crate::share::batches::ShareRecordState;
use crate::share::snapshot::{state_byte, state_from_byte, state_to_byte, PersistedBatch};
use crate::text::{same_text, text_from_utf8};
use vstd::prelude::*;
use vstd::slice::*;
use vstd::utf8::*;

verus! {

/// The first byte of each record.
pub const SHARE_GROUP_STATE_MAGIC: u8 = 0xCF;

/// The length of a run in the log.
pub const PERSISTED_BATCH_LEN: usize = 19;

/// The state of one partition of one group, as it is kept.
pub struct StoredState {
    pub group: Seq<char>,
    pub topic: Seq<char>,
    pub partition: u32,
    pub start_offset: u64,
    pub batches: Seq<PersistedBatch>,
}

/// The state of one partition of one group, as it was read back.
#[derive(Debug)]
pub struct RecoveredState {
    pub group_id: String,
    pub topic: String,
    pub partition: u32,
    pub start_offset: u64,
    pub batches: Vec<PersistedBatch>,
}

impl RecoveredState {
    pub open spec fn view(self) -> StoredState {
        StoredState {
            group: self.group_id@,
            topic: self.topic@,
            partition: self.partition,
            start_offset: self.start_offset,
            batches: self.batches@,
        }
    }
}

/// A run in the log.
pub open spec fn run_bytes(b: PersistedBatch) -> Seq<u8> {
    be(b.first_offset as int, 8) + be(b.last_offset as int, 8) + seq![state_byte(b.state)] + be(
        b.delivery_count as int,
        2,
    )
}

/// The runs in the log.
pub open spec fn runs_bytes(bs: Seq<PersistedBatch>) -> Seq<u8>
    decreases bs.len(),
{
    if bs.len() == 0 {
        Seq::empty()
    } else {
        runs_bytes(bs.drop_last()) + run_bytes(bs.last())
    }
}

/// A record without its checksum.
pub open spec fn body_bytes(r: StoredState) -> Seq<u8> {
    seq![SHARE_GROUP_STATE_MAGIC] + pascal(r.group) + pascal(r.topic) + be(r.partition as int, 4)
        + be(r.start_offset as int, 8) + be(r.batches.len() as int, 4) + runs_bytes(r.batches)
}

/// A record.
pub open spec fn entry_bytes(r: StoredState) -> Seq<u8> {
    body_bytes(r) + be(crc32_of(body_bytes(r)) as int, 4)
}

/// The lengths in the record can be written down.
pub open spec fn storable(r: StoredState) -> bool {
    &&& encode_utf8(r.group).len() < 0x1_0000
    &&& encode_utf8(r.topic).len() < 0x1_0000
    &&& r.batches.len() < 0x1_0000_0000
}

/// What stands at the front of some bytes.
pub enum Parsed {
    /// Nothing yet: more bytes may complete it.
    Incomplete,
    /// Nothing that was ever written.
    Corrupt,
    /// A record, and how many bytes it takes.
    Entry(StoredState, int),
}

/// The number in the `n` bytes at `at`.
pub open spec fn num_at(s: Seq<u8>, at: int, n: int) -> int {
    number(s.subrange(at, at + n))
}

/// The run at `at`.
pub open spec fn run_at(s: Seq<u8>, at: int) -> PersistedBatch {
    PersistedBatch {
        first_offset: num_at(s, at, 8) as u64,
        last_offset: num_at(s, at + 8, 8) as u64,
        state: state_of(s[at + 16]),
        delivery_count: num_at(s, at + 17, 2) as u16,
    }
}

pub open spec fn state_of(byte: u8) -> ShareRecordState {
    if byte == 0 {
        ShareRecordState::Available
    } else if byte == 1 {
        ShareRecordState::Acquired
    } else if byte == 2 {
        ShareRecordState::Acknowledged
    } else {
        ShareRecordState::Archived
    }
}

/// The `count` runs from `at` on.
pub open spec fn runs_at(s: Seq<u8>, at: int, count: int) -> Seq<PersistedBatch> {
    Seq::new(count as nat, |k: int| run_at(s, at + 19 * k))
}

/// Whether the `count` runs from `at` on have known states.
pub open spec fn states_known(s: Seq<u8>, at: int, count: int) -> bool {
    forall|k: int| 0 <= k < count ==> #[trigger] state_byte_at(s, at, k) <= 3
}

pub open spec fn state_byte_at(s: Seq<u8>, at: int, k: int) -> u8 {
    s[at + 19 * k + 16]
}

/// Reads what stands at the front of `s`, which is not empty.
pub open spec fn parse(s: Seq<u8>) -> Parsed {
    let group_len = num_at(s, 1, 2);
    let topic_len = num_at(s, 3 + group_len, 2);
    let fixed = 5 + group_len + topic_len;
    let count = num_at(s, fixed + 12, 4);
    let runs = fixed + 16;
    let end = runs + 19 * count;
    if s[0] != SHARE_GROUP_STATE_MAGIC {
        Parsed::Corrupt
    } else if s.len() < 3 || s.len() < 3 + group_len {
        Parsed::Incomplete
    } else if !valid_utf8(s.subrange(3, 3 + group_len)) {
        Parsed::Corrupt
    } else if s.len() < 5 + group_len || s.len() < fixed {
        Parsed::Incomplete
    } else if !valid_utf8(s.subrange(5 + group_len, fixed)) {
        Parsed::Corrupt
    } else if s.len() < runs || s.len() < end + 4 {
        Parsed::Incomplete
    } else if !states_known(s, runs, count) {
        Parsed::Corrupt
    } else if crc32_of(s.take(end)) != num_at(s, end, 4) {
        Parsed::Corrupt
    } else {
        Parsed::Entry(
            StoredState {
                group: decode_utf8(s.subrange(3, 3 + group_len)),
                topic: decode_utf8(s.subrange(5 + group_len, fixed)),
                partition: num_at(s, fixed, 4) as u32,
                start_offset: num_at(s, fixed + 4, 8) as u64,
                batches: runs_at(s, runs, count),
            },
            end + 4,
        )
    }
}

/// The records at the front of `s`, up to the first that is incomplete or corrupt.
pub open spec fn entries_of(s: Seq<u8>) -> Seq<StoredState>
    decreases s.len(),
{
    if s.len() == 0 {
        Seq::empty()
    } else {
        match parse(s) {
            Parsed::Entry(r, n) => if 0 < n <= s.len() {
                seq![r] + entries_of(s.skip(n))
            } else {
                Seq::empty()
            },
            _ => Seq::empty(),
        }
    }
}

/// Whether a corrupt record stops the reading of `s`.
pub open spec fn is_corrupt(s: Seq<u8>) -> bool
    decreases s.len(),
{
    s.len() > 0 && match parse(s) {
        Parsed::Entry(r, n) => 0 < n <= s.len() && is_corrupt(s.skip(n)),
        Parsed::Corrupt => true,
        Parsed::Incomplete => false,
    }
}

/// What is left of `s` behind its records.
pub open spec fn rest_of(s: Seq<u8>) -> Seq<u8>
    decreases s.len(),
{
    if s.len() == 0 {
        s
    } else {
        match parse(s) {
            Parsed::Entry(r, n) => if 0 < n <= s.len() {
                rest_of(s.skip(n))
            } else {
                s
            },
            _ => s,
        }
    }
}

/// Encodes one record.
pub fn encode_entry(
    group_id: &str,
    topic: &str,
    partition: u32,
    start_offset: u64,
    batches: &[PersistedBatch],
) -> (r: Vec<u8>)
    requires
        storable(
            (StoredState { group: group_id@, topic: topic@, partition, start_offset, batches: batches@ }),
        ),
    ensures
        r@ == entry_bytes(
            (StoredState { group: group_id@, topic: topic@, partition, start_offset, batches: batches@ }),
        ),
{
    let ghost rec = StoredState {
        group: group_id@,
        topic: topic@,
        partition,
        start_offset,
        batches: batches@,
    };
    let mut buf: Vec<u8> = Vec::new();
    put_u8(&mut buf, SHARE_GROUP_STATE_MAGIC);
    put_pascal(&mut buf, group_id);
    put_pascal(&mut buf, topic);
    put_u32(&mut buf, partition);
    put_u64(&mut buf, start_offset);
    put_u32(&mut buf, batches.len() as u32);
    let ghost head = buf@;
    let mut i: usize = 0;
    assert(buf@ =~= head + runs_bytes(batches@.take(0)));
    while i < batches.len()
        invariant
            i <= batches@.len(),
            buf@ == head + runs_bytes(batches@.take(i as int)),
        decreases batches@.len() - i,
    {
        let b = batches[i];
        put_u64(&mut buf, b.first_offset);
        put_u64(&mut buf, b.last_offset);
        put_u8(&mut buf, state_to_byte(b.state));
        put_u16(&mut buf, b.delivery_count);
        i = i + 1;
        proof {
            assert(batches@.take(i as int).drop_last() =~= batches@.take(i - 1));
            assert(buf@ =~= head + runs_bytes(batches@.take(i as int)));
        }
    }
    proof {
        assert(batches@.take(i as int) =~= batches@);
        assert(buf@ =~= body_bytes(rec));
    }
    let sum: u32 = crc32(buf.as_slice());
    put_u32(&mut buf, sum);
    buf
}

/// What stands at the front of some bytes, as it was read.
#[derive(Debug)]
pub enum ParsedEntry {
    Incomplete,
    Corrupt,
    Entry(RecoveredState, usize),
}

impl ParsedEntry {
    pub open spec fn view(self) -> Parsed {
        match self {
            ParsedEntry::Incomplete => Parsed::Incomplete,
            ParsedEntry::Corrupt => Parsed::Corrupt,
            ParsedEntry::Entry(r, n) => Parsed::Entry(r@, n as int),
        }
    }
}

/// Reads the `count` runs from `at` on, unless one has an unknown state.
fn parse_runs(s: &[u8], at: usize, count: u32) -> (r: Option<Vec<PersistedBatch>>)
    requires
        at + 19 * count <= s@.len(),
    ensures
        r is Some <==> states_known(s@, at as int, count as int),
        r matches Some(runs) ==> runs@ == runs_at(s@, at as int, count as int),
{
    let mut runs: Vec<PersistedBatch> = Vec::new();
    let mut i: u32 = 0;
    let mut pos: usize = at;
    proof {
        lemma_ranges();
    }
    while i < count
        invariant
            i <= count,
            at + 19 * count <= s.len(),
            pos == at + 19 * i,
            range(8) == 0x1_0000_0000_0000_0000,
            range(2) == 0x1_0000,
            runs@ == runs_at(s@, at as int, i as int),
            forall|k: int| 0 <= k < i ==> #[trigger] state_byte_at(s@, at as int, k) <= 3,
        decreases count - i,
    {
        let first_offset: u64 = get_be(s, pos, 8);
        let last_offset: u64 = get_be(s, pos + 8, 8);
        let byte: u8 = s[pos + 16];
        let delivery_count: u16 = get_be(s, pos + 17, 2) as u16;
        assert(byte == state_byte_at(s@, at as int, i as int));
        match state_from_byte(byte) {
            Some(state) => {
                runs.push(PersistedBatch { first_offset, last_offset, state, delivery_count });
            },
            None => {
                return None;
            },
        }
        i = i + 1;
        pos = pos + 19;
        proof {
            assert(runs@.last() == run_at(s@, at + 19 * (i - 1)));
            assert(runs@ =~= runs_at(s@, at as int, i as int));
        }
    }
    Some(runs)
}

/// Reads what stands at the front of `s`.
pub fn parse_entry(s: &[u8]) -> (r: ParsedEntry)
    requires
        s@.len() > 0,
    ensures
        r@ == parse(s@),
        r matches ParsedEntry::Entry(_, n) ==> 0 < n <= s@.len(),
{
    proof {
        lemma_ranges();
    }
    let len: usize = s.len();
    if s[0] != SHARE_GROUP_STATE_MAGIC {
        return ParsedEntry::Corrupt;
    }
    if len < 3 {
        return ParsedEntry::Incomplete;
    }
    let group_len: usize = get_be(s, 1, 2) as usize;
    if len - 3 < group_len {
        return ParsedEntry::Incomplete;
    }
    let group_id: String = match text_from_utf8(part(s, 3, 3 + group_len)) {
        Some(text) => text,
        None => {
            return ParsedEntry::Corrupt;
        },
    };
    if len - 3 - group_len < 2 {
        return ParsedEntry::Incomplete;
    }
    let topic_at: usize = 5 + group_len;
    let topic_len: usize = get_be(s, 3 + group_len, 2) as usize;
    if len - topic_at < topic_len {
        return ParsedEntry::Incomplete;
    }
    let fixed: usize = topic_at + topic_len;
    let topic: String = match text_from_utf8(part(s, topic_at, fixed)) {
        Some(text) => text,
        None => {
            return ParsedEntry::Corrupt;
        },
    };
    if len - fixed < 16 {
        return ParsedEntry::Incomplete;
    }
    let partition: u32 = get_be(s, fixed, 4) as u32;
    let start_offset: u64 = get_be(s, fixed + 4, 8);
    let count: u32 = get_be(s, fixed + 12, 4) as u32;
    let runs_at_byte: usize = fixed + 16;
    // A count that no input could hold is one more length that is not there yet.
    let runs_len: u64 = count as u64 * PERSISTED_BATCH_LEN as u64;
    if ((len - runs_at_byte) as u64) < runs_len + 4 {
        return ParsedEntry::Incomplete;
    }
    let end: usize = runs_at_byte + runs_len as usize;
    let batches: Vec<PersistedBatch> = match parse_runs(s, runs_at_byte, count) {
        Some(runs) => runs,
        None => {
            return ParsedEntry::Corrupt;
        },
    };
    let sum: u32 = get_be(s, end, 4) as u32;
    assert(s@.subrange(0, end as int) =~= s@.take(end as int));
    if crc32(slice_subrange(s, 0, end)) != sum {
        return ParsedEntry::Corrupt;
    }
    ParsedEntry::Entry(
        RecoveredState { group_id, topic, partition, start_offset, batches },
        end + 4,
    )
}

/// The state that the last of `records` gives to each partition of each group.
pub open spec fn latest(records: Seq<StoredState>) -> Map<
    (Seq<char>, Seq<char>, u32),
    (u64, Seq<PersistedBatch>),
>
    decreases records.len(),
{
    if records.len() == 0 {
        Map::empty()
    } else {
        let r = records.last();
        latest(records.drop_last()).insert(
            (r.group, r.topic, r.partition),
            (r.start_offset, r.batches),
        )
    }
}

/// The partition that a record is about.
pub open spec fn key_of(r: StoredState) -> (Seq<char>, Seq<char>, u32) {
    (r.group, r.topic, r.partition)
}

/// Exactly one of `found` is about each partition in `m`, and says what `m` says of it.
pub open spec fn lists(
    found: Seq<RecoveredState>,
    m: Map<(Seq<char>, Seq<char>, u32), (u64, Seq<PersistedBatch>)>,
) -> bool {
    &&& forall|i: int, j: int|
        0 <= i < j < found.len() ==> key_of((#[trigger] found[i])@) != key_of(
            (#[trigger] found[j])@,
        )
    &&& forall|i: int|
        0 <= i < found.len() ==> m.contains_key(key_of((#[trigger] found[i])@)) && m[key_of(
            found[i]@,
        )] == (found[i].start_offset, found[i].batches@)
    &&& forall|k: (Seq<char>, Seq<char>, u32)| #[trigger]
        m.contains_key(k) ==> exists|i: int|
            0 <= i < found.len() && key_of((#[trigger] found[i])@) == k
}

/// Puts `r` in place of what `found` says of its partition.
fn supersede(found: &mut Vec<RecoveredState>, r: RecoveredState, Ghost(m): Ghost<Map<(Seq<char>, Seq<char>, u32), (u64, Seq<PersistedBatch>)>>)
    requires
        lists(old(found)@, m),
    ensures
        lists(final(found)@, m.insert(key_of(r@), (r.start_offset, r.batches@))),
{
    let mut i: usize = 0;
    while i < found.len()
        invariant
            i <= found@.len(),
            found@ == old(found)@,
            lists(found@, m),
            forall|j: int| 0 <= j < i ==> key_of((#[trigger] found@[j])@) != key_of(r@),
        decreases found@.len() - i,
    {
        if found[i].partition == r.partition && same_text(
            found[i].group_id.as_str(),
            r.group_id.as_str(),
        ) && same_text(found[i].topic.as_str(), r.topic.as_str()) {
            let ghost before = found@;
            assert(key_of(found@[i as int]@) == key_of(r@));
            found.set(i, r);
            proof {
                let after = found@;
                let m2 = m.insert(key_of(r@), (r.start_offset, r.batches@));
                assert forall|a: int, b: int| 0 <= a < b < after.len() implies key_of(
                    (#[trigger] after[a])@,
                ) != key_of((#[trigger] after[b])@) by {
                    assert(key_of(before[a]@) != key_of(before[b]@));
                }
                assert forall|a: int| 0 <= a < after.len() implies m2.contains_key(
                    key_of((#[trigger] after[a])@),
                ) && m2[key_of(after[a]@)] == (after[a].start_offset, after[a].batches@) by {
                    if a != i {
                        if a < i {
                            assert(key_of(before[a]@) != key_of(before[i as int]@));
                        } else {
                            assert(key_of(before[i as int]@) != key_of(before[a]@));
                        }
                        assert(after[a] == before[a]);
                    }
                }
                assert forall|k: (Seq<char>, Seq<char>, u32)| #[trigger]
                    m2.contains_key(k) implies exists|a: int|
                    0 <= a < after.len() && key_of((#[trigger] after[a])@) == k by {
                    if k == key_of(r@) {
                        assert(key_of(after[i as int]@) == k);
                    } else {
                        assert(m.contains_key(k));
                        let a = choose|a: int|
                            0 <= a < before.len() && key_of((#[trigger] before[a])@) == k;
                        assert(after[a] == before[a]);
                    }
                }
            }
            return ;
        }
        i = i + 1;
    }
    let ghost before = found@;
    found.push(r);
    proof {
        let after = found@;
        let m2 = m.insert(key_of(r@), (r.start_offset, r.batches@));
        assert forall|k: (Seq<char>, Seq<char>, u32)| #[trigger] m2.contains_key(k) implies exists|
            a: int,
        |
            0 <= a < after.len() && key_of((#[trigger] after[a])@) == k by {
            if k == key_of(r@) {
                assert(key_of(after[before.len() as int]@) == k);
            } else {
                assert(m.contains_key(k));
                let a = choose|a: int| 0 <= a < before.len() && key_of((#[trigger] before[a])@) == k;
                assert(after[a] == before[a]);
            }
        }
        assert forall|a: int| 0 <= a < after.len() implies m2.contains_key(
            key_of((#[trigger] after[a])@),
        ) && m2[key_of(after[a]@)] == (after[a].start_offset, after[a].batches@) by {
            if a < before.len() {
                assert(after[a] == before[a]);
            }
        }
        assert forall|a: int, b: int| 0 <= a < b < after.len() implies key_of(
            (#[trigger] after[a])@,
        ) != key_of((#[trigger] after[b])@) by {
            assert(after[a] == before[a]);
            if b < before.len() {
                assert(after[b] == before[b]);
            }
        }
    }
}

/// Reads every well-formed record of `buf` up to the first that is corrupt, and keeps the last
/// one for each partition of each group. Returns how many bytes the records take, and whether a
/// corrupt one was met. An incomplete record at the end is no corruption.
pub fn decode_stream(buf: &[u8]) -> (r: (Vec<RecoveredState>, usize, bool))
    ensures
        lists(r.0@, latest(entries_of(buf@))),
        r.1 <= buf@.len(),
        buf@.skip(r.1 as int) == rest_of(buf@),
        r.2 == is_corrupt(buf@),
{
    let mut found: Vec<RecoveredState> = Vec::new();
    let mut at: usize = 0;
    let ghost mut read: Seq<StoredState> = Seq::empty();
    assert(buf@.skip(0) =~= buf@);
    assert(read + entries_of(buf@) =~= entries_of(buf@));
    while at < buf.len()
        invariant
            at <= buf.len(),
            lists(found@, latest(read)),
            entries_of(buf@) == read + entries_of(buf@.skip(at as int)),
            is_corrupt(buf@) == is_corrupt(buf@.skip(at as int)),
            rest_of(buf@) == rest_of(buf@.skip(at as int)),
        decreases buf.len() - at,
    {
        let tail: &[u8] = slice_subrange(buf, at, buf.len());
        assert(tail@ =~= buf@.skip(at as int));
        match parse_entry(tail) {
            ParsedEntry::Incomplete => {
                assert(read + Seq::<StoredState>::empty() =~= read);
                return (found, at, false);
            },
            ParsedEntry::Corrupt => {
                assert(read + Seq::<StoredState>::empty() =~= read);
                return (found, at, true);
            },
            ParsedEntry::Entry(r, n) => {
                let ghost v = r@;
                supersede(&mut found, r, Ghost(latest(read)));
                proof {
                    assert(tail@.skip(n as int) =~= buf@.skip(at + n));
                    assert(read.push(v).drop_last() =~= read);
                    assert(read + (seq![v] + entries_of(tail@.skip(n as int))) =~= read.push(v)
                        + entries_of(tail@.skip(n as int)));
                    read = read.push(v);
                }
                at = at + n;
            },
        }
    }
    proof {
        assert(buf@.skip(at as int).len() == 0);
        assert(read + Seq::<StoredState>::empty() =~= read);
    }
    (found, at, false)
}

} // verus!
