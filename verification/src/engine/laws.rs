//! What holds of the metadata as a whole.
use crate::codec::{be, lemma_be_len, lemma_number_be, lemma_ranges, number};
use crate::engine::credentials::{known_user, ScramMechanism};
use crate::engine::metadata::{applied, roster, step, widened, Metadata, RecordView};
use crate::engine::snapshot::{
    framed, frames_in, replayed, restored, restored_assignment, snapshot_bytes,
};
use crate::engine::state::{EngineConfig, EngineView};
use crate::engine::topics::AssignmentView;
use crate::partition::CleanupPolicy;
use vstd::prelude::*;

verus! {

/// Every node in sync is a replica.
pub open spec fn isr_in_roster(a: AssignmentView) -> bool {
    forall|n: u32| #[trigger] a.isr.contains(n) ==> a.replicas.contains(n)
}

/// Every node in sync is a replica, in all partitions.
pub open spec fn well_assigned(m: Metadata) -> bool {
    forall|t: Seq<char>, p: u32|
        m.topics.contains_key(t) && m.topics[t].partitions.contains_key(p) ==> isr_in_roster(
            #[trigger] m.topics[t].partitions[p],
        )
}

pub proof fn lemma_widened(base: Seq<u32>, isr: Seq<u32>)
    ensures
        forall|n: u32| #[trigger]
            widened(base, isr).contains(n) <==> base.contains(n) || isr.contains(n),
        base.no_duplicates() ==> widened(base, isr).no_duplicates(),
        (forall|n: u32| #[trigger] isr.contains(n) ==> base.contains(n)) ==> widened(base, isr)
            == base,
        widened(base, isr).len() >= base.len(),
    decreases isr.len(),
{
    if isr.len() > 0 {
        let init = isr.drop_last();
        let before = widened(base, init);
        lemma_widened(base, init);
        assert forall|n: u32| #[trigger] isr.contains(n) <==> init.contains(n) || n
            == isr.last() by {
            if isr.contains(n) {
                let j = choose|j: int| 0 <= j < isr.len() && isr[j] == n;
                if j < init.len() {
                    assert(init[j] == n);
                }
            }
            if init.contains(n) {
                let j = choose|j: int| 0 <= j < init.len() && init[j] == n;
                assert(isr[j] == n);
            }
        }
        if forall|n: u32| #[trigger] isr.contains(n) ==> base.contains(n) {
            assert forall|n: u32| #[trigger] init.contains(n) implies base.contains(n) by {
                assert(isr.contains(n));
            }
            assert(isr.contains(isr.last()));
            assert(before == base);
        }
        let after = widened(base, isr);
        assert forall|n: u32| #[trigger] after.contains(n) <==> before.contains(n) || n
            == isr.last() by {
            if before.contains(n) {
                let j = choose|j: int| 0 <= j < before.len() && before[j] == n;
                assert(after[j] == n);
            }
            if n == isr.last() && !before.contains(n) {
                assert(after[before.len() as int] == n);
            }
        }
    }
}

/// A change of leadership leaves every node in sync among the replicas.
pub proof fn in_sync_nodes_are_replicas(
    m: Metadata,
    topic: Seq<char>,
    partition: u32,
    replicas: Option<Seq<u32>>,
    open_replicas: Seq<u32>,
    isr: Seq<u32>,
    node: u32,
)
    requires
        isr.contains(node),
    ensures
        roster(m, topic, partition, replicas, open_replicas, isr).contains(node),
{
    let base = if replicas is Some && replicas->0.len() > 0 {
        replicas->0
    } else if m.topics.contains_key(topic) && m.topics[topic].partitions.contains_key(partition)
        && m.topics[topic].partitions[partition].replicas.len() > 0 {
        m.topics[topic].partitions[partition].replicas
    } else if open_replicas.len() > 0 {
        open_replicas
    } else {
        isr
    };
    lemma_widened(base, isr);
}

/// A replica that falls out of sync stays a replica: a change of leadership that names no
/// replicas, and whose nodes in sync are replicas already, leaves the replicas as they were.
pub proof fn the_roster_is_kept(
    m: Metadata,
    topic: Seq<char>,
    partition: u32,
    open_replicas: Seq<u32>,
    isr: Seq<u32>,
)
    requires
        m.topics.contains_key(topic),
        m.topics[topic].partitions.contains_key(partition),
        m.topics[topic].partitions[partition].replicas.len() > 0,
        forall|n: u32| #[trigger]
            isr.contains(n) ==> m.topics[topic].partitions[partition].replicas.contains(n),
    ensures
        roster(m, topic, partition, None, open_replicas, isr)
            == m.topics[topic].partitions[partition].replicas,
{
    lemma_widened(m.topics[topic].partitions[partition].replicas, isr);
}

/// A change of leadership that names no replicas never takes one away.
pub proof fn the_roster_never_shrinks(
    m: Metadata,
    topic: Seq<char>,
    partition: u32,
    open_replicas: Seq<u32>,
    isr: Seq<u32>,
    node: u32,
)
    requires
        m.topics.contains_key(topic),
        m.topics[topic].partitions.contains_key(partition),
        m.topics[topic].partitions[partition].replicas.contains(node),
    ensures
        roster(m, topic, partition, None, open_replicas, isr).contains(node),
{
    lemma_widened(m.topics[topic].partitions[partition].replicas, isr);
}

/// Every record keeps the nodes in sync among the replicas.
pub proof fn records_keep_assignments_well(
    m: Metadata,
    policy: CleanupPolicy,
    rec: RecordView,
    open_replicas: Seq<u32>,
)
    requires
        well_assigned(m),
    ensures
        well_assigned(step(m, policy, rec, open_replicas)),
{
    let after = step(m, policy, rec, open_replicas);
    assert forall|t: Seq<char>, p: u32|
        after.topics.contains_key(t) && after.topics[t].partitions.contains_key(
            p,
        ) implies isr_in_roster(#[trigger] after.topics[t].partitions[p]) by {
        match rec {
            RecordView::PartitionLeadershipChange {
                topic,
                partition,
                leader_id,
                leader_epoch,
                isr,
                replicas,
            } => {
                if t == topic && p == partition && m.topics.contains_key(topic) {
                    assert forall|n: u32| #[trigger] isr.contains(n) implies roster(
                        m,
                        topic,
                        partition,
                        replicas,
                        open_replicas,
                        isr,
                    ).contains(n) by {
                        in_sync_nodes_are_replicas(
                            m,
                            topic,
                            partition,
                            replicas,
                            open_replicas,
                            isr,
                            n,
                        );
                    }
                } else {
                    assert(isr_in_roster(m.topics[t].partitions[p]));
                }
            },
            RecordView::TopicCreated { topic, .. } => {
                if t != topic {
                    assert(isr_in_roster(m.topics[t].partitions[p]));
                }
            },
            _ => {
                assert(isr_in_roster(m.topics[t].partitions[p]));
            },
        }
    }
}

/// A record that is applied a second time changes nothing more, so a log may be replayed from
/// any point before the one that was reached.
pub proof fn replaying_a_record_is_harmless(
    m: Metadata,
    policy: CleanupPolicy,
    rec: RecordView,
    open_replicas: Seq<u32>,
)
    ensures
        step(step(m, policy, rec, open_replicas), policy, rec, open_replicas) == step(
            m,
            policy,
            rec,
            open_replicas,
        ),
{
    let once = step(m, policy, rec, open_replicas);
    let twice = step(once, policy, rec, open_replicas);
    match rec {
        RecordView::PartitionLeadershipChange {
            topic,
            partition,
            leader_id,
            leader_epoch,
            isr,
            replicas,
        } => {
            if m.topics.contains_key(topic) {
                let first = roster(m, topic, partition, replicas, open_replicas, isr);
                assert forall|n: u32| #[trigger] isr.contains(n) implies first.contains(n) by {
                    in_sync_nodes_are_replicas(
                        m,
                        topic,
                        partition,
                        replicas,
                        open_replicas,
                        isr,
                        n,
                    );
                }
                lemma_widened(first, isr);
                if !(replicas is Some && replicas->0.len() > 0) && first.len() == 0 {
                    lemma_widened(isr, isr);
                    lemma_widened(open_replicas, isr);
                    lemma_widened(m.topics[topic].partitions[partition].replicas, isr);
                }
                assert(roster(once, topic, partition, replicas, open_replicas, isr) == first);
                assert(twice.topics[topic].partitions =~= once.topics[topic].partitions);
                assert(twice.topics =~= once.topics);
            }
        },
        RecordView::TopicCreated { topic, .. } => {
            assert(twice.topics =~= once.topics);
        },
        RecordView::TopicConfigChanged { topic, .. } => {
            assert(twice.topics =~= once.topics);
        },
        RecordView::TopicDeleted { topic } => {
            assert(twice.topics =~= once.topics);
        },
        RecordView::BrokerRegister { .. } => {
            assert(twice.brokers =~= once.brokers);
        },
        RecordView::BrokerUnregister { .. } => {
            assert(twice.brokers =~= once.brokers);
        },
        RecordView::AclCreated { .. } => {
            assert(twice.acls =~= once.acls);
        },
        RecordView::AclDeleted { .. } => {
            assert(twice.acls =~= once.acls);
        },
        RecordView::ScramCredentialUpsert { .. } => {
            assert(twice.credentials =~= once.credentials);
        },
        RecordView::ScramCredentialDelete { .. } => {
            assert(twice.credentials =~= once.credentials);
        },
        RecordView::TransactionalProducerRegistration { .. } => {
            assert(twice.producers =~= once.producers);
        },
        RecordView::TopicPartition { .. } => {},
    }
}

/// A user who is deleted has no credential left under any mechanism.
pub proof fn a_deleted_user_is_gone(
    m: Metadata,
    policy: CleanupPolicy,
    username: Seq<char>,
    open_replicas: Seq<u32>,
)
    ensures
        !known_user(
            step(
                m,
                policy,
                RecordView::ScramCredentialDelete { username },
                open_replicas,
            ).credentials,
            username,
        ),
{
    let after = step(m, policy, RecordView::ScramCredentialDelete { username }, open_replicas);
    assert forall|x: ScramMechanism| !#[trigger] after.credentials.contains_key((username, x)) by {
        match x {
            ScramMechanism::Sha256 => {},
            ScramMechanism::Sha512 => {},
        }
    }
}

/// A deleted topic leaves nothing behind: no metadata and no open partition.
pub proof fn a_deleted_topic_is_gone(
    v: EngineView,
    c: EngineConfig,
    offset: u64,
    topic: Seq<char>,
    partition: u32,
)
    ensures
        !applied(v, c, offset, RecordView::TopicDeleted { topic }, None).topics.contains_key(topic),
        !applied(
            v,
            c,
            offset,
            RecordView::TopicDeleted { topic },
            None,
        ).partitions.contains_key((topic, partition)),
{
}

/// A snapshot restores the metadata, where each node's address and roles are known, each
/// partition has replicas with the nodes in sync among them, and the topics have the default
/// clean-up policy.
pub proof fn a_snapshot_restores_everything(m: Metadata, policy: CleanupPolicy)
    requires
        well_assigned(m),
        forall|t: Seq<char>, p: u32|
            m.topics.contains_key(t) && m.topics[t].partitions.contains_key(p) ==> (
            #[trigger] m.topics[t].partitions[p]).replicas.len() > 0,
        forall|t: Seq<char>| #[trigger]
            m.topics.contains_key(t) ==> m.topics[t].cleanup_policy == policy,
        forall|id: u32| #[trigger]
            m.brokers.contains_key(id) ==> m.brokers[id].addr is Some && (m.brokers[id].roles matches Some(
                r,
            ) && r.len() > 0),
    ensures
        restored(m, policy) == m,
{
    let r = restored(m, policy);
    assert forall|t: Seq<char>| m.topics.contains_key(t) implies r.topics[t] == m.topics[t] by {
        assert forall|p: u32| m.topics[t].partitions.contains_key(
            p,
        ) implies r.topics[t].partitions[p] == m.topics[t].partitions[p] by {
            let a = m.topics[t].partitions[p];
            assert(isr_in_roster(a));
            lemma_widened(a.replicas, a.isr);
        }
        assert(r.topics[t].partitions =~= m.topics[t].partitions);
    }
    assert(r.topics =~= m.topics);
    assert(r.brokers =~= m.brokers);
}

/// A snapshot of what a snapshot restored restores the same.
pub proof fn snapshots_settle(m: Metadata, policy: CleanupPolicy)
    ensures
        restored(restored(m, policy), policy) == restored(m, policy),
{
    let once = restored(m, policy);
    let twice = restored(once, policy);
    assert forall|t: Seq<char>| once.topics.contains_key(t) implies twice.topics[t]
        == once.topics[t] by {
        assert forall|p: u32| once.topics[t].partitions.contains_key(
            p,
        ) implies twice.topics[t].partitions[p] == once.topics[t].partitions[p] by {
            let a = m.topics[t].partitions[p];
            let b = restored_assignment(a);
            lemma_widened(a.replicas, a.isr);
            lemma_widened(a.isr, a.isr);
            lemma_widened(b.replicas, a.isr);
        }
        assert(twice.topics[t].partitions =~= once.topics[t].partitions);
    }
    assert(twice.topics =~= once.topics);
    assert(twice.brokers =~= once.brokers);
}

proof fn lemma_framed_front(s: Seq<Seq<u8>>)
    requires
        s.len() > 0,
    ensures
        framed(s) == be(s[0].len() as int, 4) + s[0] + framed(s.skip(1)),
    decreases s.len(),
{
    if s.len() == 1 {
        assert(s.drop_last() =~= Seq::empty());
        assert(s.skip(1) =~= Seq::empty());
        assert(framed(s.drop_last()) =~= Seq::empty());
        assert(framed(s.skip(1)) =~= Seq::empty());
        assert(framed(s) =~= be(s[0].len() as int, 4) + s[0] + framed(s.skip(1)));
    } else {
        lemma_framed_front(s.drop_last());
        assert(s.drop_last().skip(1) =~= s.skip(1).drop_last());
        assert(s.skip(1).last() == s.last());
        assert(framed(s) =~= be(s[0].len() as int, 4) + s[0] + framed(s.skip(1)));
    }
}

/// What was framed is read back.
pub proof fn frames_round_trip(s: Seq<Seq<u8>>)
    requires
        forall|i: int| 0 <= i < s.len() ==> (#[trigger] s[i]).len() < 0x1_0000_0000,
    ensures
        frames_in(framed(s), s.len()) == s,
    decreases s.len(),
{
    if s.len() == 0 {
        assert(s =~= Seq::empty());
    } else {
        lemma_framed_front(s);
        lemma_ranges();
        let b = framed(s);
        let n = s[0].len() as int;
        lemma_be_len(n, 4);
        lemma_number_be(n, 4);
        assert(b.take(4) =~= be(n, 4));
        assert(b.skip(4) =~= s[0] + framed(s.skip(1)));
        assert(b.skip(4).take(n) =~= s[0]);
        assert(b.skip(4).skip(n) =~= framed(s.skip(1)));
        assert forall|i: int| 0 <= i < s.skip(1).len() implies (#[trigger] s.skip(1)[i]).len()
            < 0x1_0000_0000 by {
            assert(s.skip(1)[i] == s[i + 1]);
        }
        frames_round_trip(s.skip(1));
        assert(seq![s[0]] + s.skip(1) =~= s);
    }
}

/// A snapshot that was written whole is read back as it was.
pub proof fn snapshot_round_trip(offset: u64, s: Seq<Seq<u8>>)
    requires
        s.len() < 0x1_0000_0000,
        forall|i: int| 0 <= i < s.len() ==> (#[trigger] s[i]).len() < 0x1_0000_0000,
    ensures
        ({
            let b = snapshot_bytes(offset, s);
            &&& b.len() >= 12
            &&& number(b.take(8)) == offset
            &&& frames_in(b.skip(12), number(b.subrange(8, 12)) as nat) == s
        }),
{
    lemma_ranges();
    lemma_be_len(offset as int, 8);
    lemma_be_len(s.len() as int, 4);
    lemma_number_be(offset as int, 8);
    lemma_number_be(s.len() as int, 4);
    let b = snapshot_bytes(offset, s);
    assert(b.take(8) =~= be(offset as int, 8));
    assert(b.subrange(8, 12) =~= be(s.len() as int, 4));
    assert(b.skip(12) =~= framed(s));
    frames_round_trip(s);
}

/// A frame that is cut off is not read.
pub proof fn a_frame_that_is_cut_off_ends_them(x: Seq<u8>, k: int, n: nat)
    requires
        x.len() < 0x1_0000_0000,
        0 <= k < 4 + x.len(),
    ensures
        frames_in((be(x.len() as int, 4) + x).take(k), n).len() == 0,
{
    lemma_ranges();
    let len = x.len() as int;
    lemma_number_be(len, 4);
    let b = (be(len, 4) + x).take(k);
    if k >= 4 {
        assert(b.take(4) =~= be(len, 4));
        assert(b.skip(4).len() < len);
    }
}

/// Nothing is known before the first record, and each record changes what those before it made.
pub proof fn records_are_replayed_in_turn(policy: CleanupPolicy, s: Seq<RecordView>, n: int)
    requires
        0 <= n < s.len(),
    ensures
        replayed(policy, s.take(0)).topics.dom() =~= Set::empty(),
        replayed(policy, s.take(0)).brokers.dom() =~= Set::empty(),
        replayed(policy, s.take(0)).acls =~= Set::empty(),
        replayed(policy, s.take(0)).credentials.dom() =~= Set::empty(),
        replayed(policy, s.take(0)).producers.dom() =~= Set::empty(),
        replayed(policy, s.take(n + 1)) == step(
            replayed(policy, s.take(n)),
            policy,
            s[n],
            Seq::empty(),
        ),
{
    assert(s.take(n + 1).drop_last() =~= s.take(n));
    assert(s.take(n + 1).last() == s[n]);
}

} // verus!
