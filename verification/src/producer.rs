//! What a partition remembers of its idempotent producers.
//!
//! A producer numbers its batches. The numbers must go on without a gap; a number that was seen
//! before is a retry.
use crate::codec::{be, get_be, lemma_number_be, lemma_ranges, number, put_be, put_u64, range};
use std::collections::HashMap;
use vstd::prelude::*;
use vstd::slice::*;
use vstd::std_specs::iter::IteratorSpec;

verus! {

/// The last batch of a producer.
#[derive(Debug, Clone, Copy, PartialEq, Eq, Structural)]
pub struct ProducerStateEntry {
    pub epoch: i16,
    pub last_sequence: i32,
    pub last_offset: u64,
}

/// The last batch of each producer.
#[derive(Debug)]
pub struct ProducerStateManager {
    pub states: HashMap<u64, ProducerStateEntry>,
}

/// A two's-complement number of `bits` values, as an unsigned one.
pub open spec fn unsigned(x: int, values: int) -> int {
    if x < 0 {
        x + values
    } else {
        x
    }
}

/// An unsigned number, as a two's-complement one.
pub open spec fn signed(x: int, values: int) -> int {
    if x >= values / 2 {
        x - values
    } else {
        x
    }
}

/// A producer in a snapshot: its id, epoch, last sequence number and last offset.
pub open spec fn producer_bytes(id: u64, e: ProducerStateEntry) -> Seq<u8> {
    be(id as int, 8) + be(unsigned(e.epoch as int, 0x1_0000), 2) + be(
        unsigned(e.last_sequence as int, 0x1_0000_0000),
        4,
    ) + be(e.last_offset as int, 8)
}

/// A snapshot that lists the producers `ids`, in order.
pub open spec fn snapshot_bytes(ids: Seq<u64>, states: Map<u64, ProducerStateEntry>) -> Seq<u8>
    decreases ids.len(),
{
    if ids.len() == 0 {
        Seq::empty()
    } else {
        producer_bytes(ids[0], states[ids[0]]) + snapshot_bytes(ids.skip(1), states)
    }
}

/// The producer that stands at the front of `s`.
pub open spec fn producer_in(s: Seq<u8>) -> ProducerStateEntry {
    ProducerStateEntry {
        epoch: signed(number(s.subrange(8, 10)), 0x1_0000) as i16,
        last_sequence: signed(number(s.subrange(10, 14)), 0x1_0000_0000) as i32,
        last_offset: number(s.subrange(14, 22)) as u64,
    }
}

/// The producers that a snapshot lists; of two entries for one producer the later one counts,
/// and an incomplete entry at the end is ignored.
pub open spec fn producers_in(s: Seq<u8>, before: Map<u64, ProducerStateEntry>) -> Map<
    u64,
    ProducerStateEntry,
>
    decreases s.len(),
{
    if s.len() < 22 {
        before
    } else {
        producers_in(
            s.skip(22),
            before.insert(number(s.subrange(0, 8)) as u64, producer_in(s)),
        )
    }
}

/// How a batch that begins at `base_sequence` is judged by the last batch of its producer: as
/// new, as a retry of the batch that ended at that offset, or as out of turn.
pub open spec fn judged(
    states: Map<u64, ProducerStateEntry>,
    producer_id: u64,
    epoch: i16,
    base_sequence: i32,
) -> Result<(), (bool, u64)> {
    if !states.contains_key(producer_id) || epoch > states[producer_id].epoch {
        Ok(())
    } else if epoch < states[producer_id].epoch {
        Err((false, 0))
    } else if base_sequence <= states[producer_id].last_sequence {
        Err((true, states[producer_id].last_offset))
    } else if base_sequence > states[producer_id].last_sequence + 1 {
        Err((false, 0))
    } else {
        Ok(())
    }
}

impl ProducerStateManager {
    /// Reads a snapshot.
    pub fn open(buf: &[u8]) -> (r: Self)
        ensures
            r.states@ == producers_in(buf@, Map::empty()),
    {
        let mut states: HashMap<u64, ProducerStateEntry> = HashMap::new();
        let mut at: usize = 0;
        proof {
            lemma_ranges();
            assert(buf@.skip(0) =~= buf@);
        }
        while buf.len() - at >= 22
            invariant
                at <= buf.len(),
                range(2) == 0x1_0000,
                range(4) == 0x1_0000_0000,
                producers_in(buf@, Map::empty()) == producers_in(buf@.skip(at as int), states@),
            decreases buf.len() - at,
        {
            let ghost tail = buf@.skip(at as int);
            let producer_id: u64 = get_be(buf, at, 8);
            let e: u64 = get_be(buf, at + 8, 2);
            let s: u64 = get_be(buf, at + 10, 4);
            let last_offset: u64 = get_be(buf, at + 14, 8);
            let epoch: i16 = if e >= 0x8000 {
                (e as i32 - 0x1_0000) as i16
            } else {
                e as i16
            };
            let last_sequence: i32 = if s >= 0x8000_0000 {
                (s as i64 - 0x1_0000_0000) as i32
            } else {
                s as i32
            };
            states.insert(producer_id, ProducerStateEntry { epoch, last_sequence, last_offset });
            proof {
                assert(buf@.subrange(at as int, at + 8) =~= tail.subrange(0, 8));
                assert(buf@.subrange(at + 8, at + 8 + 2) =~= tail.subrange(8, 10));
                assert(buf@.subrange(at + 10, at + 10 + 4) =~= tail.subrange(10, 14));
                assert(buf@.subrange(at + 14, at + 14 + 8) =~= tail.subrange(14, 22));
                assert(tail.skip(22) =~= buf@.skip(at + 22));
            }
            at = at + 22;
        }
        ProducerStateManager { states }
    }

    /// Judges a batch by the last one of its producer. A retry is refused with the offset that
    /// the batch ended at; a fenced or out-of-order batch is refused without one.
    pub fn validate_sequence(&self, producer_id: u64, epoch: i16, base_sequence: i32) -> (r: Result<
        (),
        (bool, u64),
    >)
        ensures
            r == judged(self.states@, producer_id, epoch, base_sequence),
    {
        if let Some(entry) = self.states.get(&producer_id) {
            if epoch < entry.epoch {
                return Err((false, 0));
            }
            if epoch == entry.epoch {
                if base_sequence <= entry.last_sequence {
                    return Err((true, entry.last_offset));
                }
                if base_sequence > entry.last_sequence + 1 {
                    return Err((false, 0));
                }
            }
        }
        Ok(())
    }

    /// Remembers the last batch of a producer.
    pub fn update(&mut self, producer_id: u64, epoch: i16, last_sequence: i32, last_offset: u64)
        ensures
            final(self).states@ == old(self).states@.insert(
                producer_id,
                ProducerStateEntry { epoch, last_sequence, last_offset },
            ),
    {
        self.states.insert(producer_id, ProducerStateEntry { epoch, last_sequence, last_offset });
    }

    /// A snapshot of all producers, in no particular order.
    pub fn take_snapshot(&self) -> (r: Vec<u8>)
        ensures
            exists|ids: Seq<u64>| #[trigger]
                lists_all(ids, self.states@) && r@ == snapshot_bytes(ids, self.states@),
    {
        broadcast use vstd::std_specs::hash::group_hash_axioms;

        let mut out: Vec<u8> = Vec::new();
        let ghost mut ids: Seq<u64> = Seq::empty();
        let ghost states = self.states@;
        proof {
            assert(out@ =~= snapshot_bytes(ids, states));
        }
        for (id, entry) in it: self.states.iter()
            invariant
                states == self.states@,
                it.seq() == vstd::std_specs::hash::spec_hash_map_iter(&self.states).remaining(),
                it.seq().no_duplicates(),
                ids.len() == it.index(),
                forall|j: int| 0 <= j < ids.len() ==> #[trigger] ids[j] == *it.seq()[j].0,
                out@ == snapshot_bytes(ids, states),
        {
            let ghost i = it.index() as int;
            proof {
                assert(states.contains_key(*it.seq()[i].0));
                assert(states[*it.seq()[i].0] == *it.seq()[i].1);
            }
            put_u64(&mut out, *id);
            let e: u64 = if entry.epoch < 0 {
                (entry.epoch as i32 + 0x1_0000) as u64
            } else {
                entry.epoch as u64
            };
            put_be(&mut out, e, 2);
            let s: u64 = if entry.last_sequence < 0 {
                (entry.last_sequence as i64 + 0x1_0000_0000) as u64
            } else {
                entry.last_sequence as u64
            };
            put_be(&mut out, s, 4);
            put_u64(&mut out, entry.last_offset);
            proof {
                lemma_snapshot_push(ids, *id, states);
                assert(out@ =~= snapshot_bytes(ids, states) + producer_bytes(*id, states[*id]));
                ids = ids.push(*id);
            }
        }
        proof {
            let v = vstd::std_specs::hash::spec_hash_map_iter(&self.states).remaining();
            assert(ids.len() == v.len());
            assert forall|k: u64| #[trigger] ids.contains(k) <==> states.contains_key(k) by {
                if states.contains_key(k) {
                    assert(v.contains((&k, &states[k])));
                    let j = choose|j: int| 0 <= j < v.len() && v[j] == (&k, &states[k]);
                    assert(ids[j] == k);
                }
                if ids.contains(k) {
                    let j = choose|j: int| 0 <= j < ids.len() && ids[j] == k;
                    assert(states.contains_key(*v[j].0));
                }
            }
            assert forall|a: int, b: int| 0 <= a < ids.len() && 0 <= b < ids.len() && a != b implies ids[a]
                != ids[b] by {
                if ids[a] == ids[b] {
                    assert(states[*v[a].0] == *v[a].1);
                    assert(states[*v[b].0] == *v[b].1);
                    assert(v[a] == v[b]);
                }
            }
            assert(lists_all(ids, states));
        }
        out
    }
}

/// `ids` lists each producer once.
pub open spec fn lists_all(ids: Seq<u64>, states: Map<u64, ProducerStateEntry>) -> bool {
    ids.no_duplicates() && forall|k: u64| #[trigger] ids.contains(k) <==> states.contains_key(k)
}

proof fn lemma_snapshot_push(ids: Seq<u64>, id: u64, states: Map<u64, ProducerStateEntry>)
    ensures
        snapshot_bytes(ids.push(id), states) == snapshot_bytes(ids, states) + producer_bytes(
            id,
            states[id],
        ),
    decreases ids.len(),
{
    let more = ids.push(id);
    if ids.len() == 0 {
        assert(more.skip(1) =~= Seq::empty());
        assert(snapshot_bytes(more.skip(1), states) =~= Seq::empty());
        assert(snapshot_bytes(more, states) =~= snapshot_bytes(ids, states) + producer_bytes(
            id,
            states[id],
        ));
    } else {
        assert(more.skip(1) =~= ids.skip(1).push(id));
        lemma_snapshot_push(ids.skip(1), id, states);
        assert(snapshot_bytes(more, states) =~= snapshot_bytes(ids, states) + producer_bytes(
            id,
            states[id],
        ));
    }
}

/// A producer is read back as it was written.
proof fn lemma_producer_read(id: u64, e: ProducerStateEntry, rest: Seq<u8>)
    ensures
        ({
            let s = producer_bytes(id, e) + rest;
            &&& s.len() == 22 + rest.len()
            &&& number(s.subrange(0, 8)) == id
            &&& producer_in(s) == e
            &&& s.skip(22) == rest
        }),
{
    let s = producer_bytes(id, e) + rest;
    lemma_ranges();
    lemma_number_be(id as int, 8);
    lemma_number_be(unsigned(e.epoch as int, 0x1_0000), 2);
    lemma_number_be(unsigned(e.last_sequence as int, 0x1_0000_0000), 4);
    lemma_number_be(e.last_offset as int, 8);
    assert(s.subrange(0, 8) =~= be(id as int, 8));
    assert(s.subrange(8, 10) =~= be(unsigned(e.epoch as int, 0x1_0000), 2));
    assert(s.subrange(10, 14) =~= be(unsigned(e.last_sequence as int, 0x1_0000_0000), 4));
    assert(s.subrange(14, 22) =~= be(e.last_offset as int, 8));
    assert(s.skip(22) =~= rest);
}

proof fn lemma_snapshot_read(
    ids: Seq<u64>,
    states: Map<u64, ProducerStateEntry>,
    before: Map<u64, ProducerStateEntry>,
)
    ensures
        forall|k: u64| #[trigger]
            producers_in(snapshot_bytes(ids, states), before).contains_key(k) <==> ids.contains(k)
                || before.contains_key(k),
        forall|k: u64|
            ids.contains(k) ==> #[trigger] producers_in(snapshot_bytes(ids, states), before)[k]
                == states[k],
        forall|k: u64|
            !ids.contains(k) && before.contains_key(k) ==> #[trigger] producers_in(
                snapshot_bytes(ids, states),
                before,
            )[k] == before[k],
    decreases ids.len(),
{
    if ids.len() > 0 {
        let id = ids[0];
        let rest = snapshot_bytes(ids.skip(1), states);
        lemma_producer_read(id, states[id], rest);
        lemma_snapshot_read(ids.skip(1), states, before.insert(id, states[id]));
        let after = before.insert(id, states[id]);
        let more = ids.skip(1);
        let all = producers_in(snapshot_bytes(ids, states), before);
        let inner = producers_in(rest, after);
        assert(all == inner);
        assert forall|k: u64| #[trigger] ids.contains(k) <==> k == id || more.contains(k) by {
            if more.contains(k) {
                let j = choose|j: int| 0 <= j < more.len() && more[j] == k;
                assert(ids[j + 1] == k);
            }
            if ids.contains(k) && k != id {
                let j = choose|j: int| 0 <= j < ids.len() && ids[j] == k;
                assert(more[j - 1] == k);
            }
        }
        assert forall|k: u64| #[trigger] all.contains_key(k) <==> ids.contains(k)
            || before.contains_key(k) by {
            assert(inner.contains_key(k) <==> more.contains(k) || after.contains_key(k));
        }
        assert forall|k: u64| ids.contains(k) implies #[trigger] all[k] == states[k] by {
            if !more.contains(k) {
                assert(inner[k] == after[k]);
            }
        }
        assert forall|k: u64| !ids.contains(k) && before.contains_key(k) implies #[trigger] all[k]
            == before[k] by {
            assert(inner[k] == after[k]);
        }
    }
}

/// A snapshot is read back as what it was taken of.
pub proof fn snapshot_round_trip(ids: Seq<u64>, states: Map<u64, ProducerStateEntry>)
    requires
        lists_all(ids, states),
    ensures
        producers_in(snapshot_bytes(ids, states), Map::empty()) == states,
{
    lemma_snapshot_read(ids, states, Map::empty());
    assert(producers_in(snapshot_bytes(ids, states), Map::empty()) =~= states);
}

/// A batch that was accepted is a retry from then on, and is refused with the offset that it
/// ended at; the batch after it is accepted.
pub proof fn an_accepted_batch_becomes_a_retry(
    states: Map<u64, ProducerStateEntry>,
    producer_id: u64,
    epoch: i16,
    base_sequence: i32,
    last_sequence: i32,
    last_offset: u64,
)
    requires
        base_sequence <= last_sequence,
    ensures
        ({
            let after = states.insert(
                producer_id,
                ProducerStateEntry { epoch, last_sequence, last_offset },
            );
            &&& judged(after, producer_id, epoch, base_sequence) == Err::<(), (bool, u64)>(
                (true, last_offset),
            )
            &&& last_sequence < i32::MAX ==> judged(
                after,
                producer_id,
                epoch,
                (last_sequence + 1) as i32,
            ) is Ok
            &&& forall|e: i16|
                e < epoch ==> judged(after, producer_id, e, base_sequence) == Err::<
                    (),
                    (bool, u64),
                >((false, 0))
        }),
{
}

/// A batch is accepted if and only if its producer is new, or comes with a newer epoch, or goes on
/// in its epoch exactly where its last batch ended. In that epoch whatever begins earlier is a
/// retry, told with the offset of the last batch, and whatever begins later leaves a gap and is
/// refused. An older epoch is refused whatever it brings.
pub proof fn sequences_go_on_without_a_gap(
    states: Map<u64, ProducerStateEntry>,
    producer_id: u64,
    epoch: i16,
    base_sequence: i32,
)
    ensures
        ({
            let r = judged(states, producer_id, epoch, base_sequence);
            let known = states.contains_key(producer_id);
            let last = states[producer_id];
            &&& r is Ok <==> (known ==> epoch > last.epoch || (epoch == last.epoch
                && base_sequence == last.last_sequence + 1))
            &&& known && epoch < last.epoch ==> r == Err::<(), (bool, u64)>((false, 0))
            &&& known && epoch == last.epoch && base_sequence > last.last_sequence + 1 ==> r
                == Err::<(), (bool, u64)>((false, 0))
            &&& known && epoch == last.epoch && base_sequence < last.last_sequence + 1 ==> r
                == Err::<(), (bool, u64)>((true, last.last_offset))
        }),
{
}

/// Of two batches of a producer in one epoch, the later one is accepted only if it begins right
/// behind the earlier one: what was accepted has no gap and nothing twice.
pub proof fn accepted_batches_adjoin(
    states: Map<u64, ProducerStateEntry>,
    producer_id: u64,
    epoch: i16,
    last_sequence: i32,
    last_offset: u64,
    next: i32,
)
    requires
        judged(
            states.insert(producer_id, ProducerStateEntry { epoch, last_sequence, last_offset }),
            producer_id,
            epoch,
            next,
        ) is Ok,
    ensures
        next == last_sequence + 1,
{
}

/// What one producer has sent does not bear on another.
pub proof fn producers_are_judged_apart(
    states: Map<u64, ProducerStateEntry>,
    other: u64,
    entry: ProducerStateEntry,
    producer_id: u64,
    epoch: i16,
    base_sequence: i32,
)
    requires
        other != producer_id,
    ensures
        judged(states.insert(other, entry), producer_id, epoch, base_sequence) == judged(
            states,
            producer_id,
            epoch,
            base_sequence,
        ),
{
}

} // verus!
