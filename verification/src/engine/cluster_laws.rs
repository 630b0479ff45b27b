//! What the cluster agrees on: who leads, who is in sync, and what each record changes.
use crate::acl::Rule;
use crate::engine::brokers::{available, ProcessRole};
use crate::engine::credentials::{CredentialView, ScramMechanism};
use crate::engine::laws::lemma_widened;
use crate::engine::metadata::{
    applied, open_replicas, roster, step, Metadata, MetadataRecord, RecordView,
};
use crate::engine::state::{
    access, as_registered, count_of, described, leader_of, leads, listed, open_fault, replicates,
    system_topic, topic_described, DescribedPartition, EngineConfig, EngineView, StorageEngine,
};
use crate::engine::sweep::{
    ascending, in_sync, isr_moved, isr_record, last_resort, leadership, least, lemma_others,
    next_epoch, others, promotion, swept, SweepAction,
};
use crate::engine::table::PartitionKey;
use crate::partition::{CleanupPolicy, PartitionManager, PartitionView};
use crate::placement::topic_fault;
use crate::engine::proposal::{stepped, ProposeAction, ProposeEvent, ProposePhase};
use crate::engine::commit::committed;
use vstd::prelude::*;

verus! {

/// Whether a node answered lately enough: it is known where it is, and what it acknowledged last
/// is no older than is allowed.
pub open spec fn is_prompt(
    v: EngineView,
    c: EngineConfig,
    ack_ages: Map<Seq<char>, u64>,
    n: u32,
) -> bool {
    &&& v.brokers.contains_key(n)
    &&& v.brokers[n].addr is Some
    &&& ack_ages.contains_key(v.brokers[n].addr->0)
    &&& ack_ages[v.brokers[n].addr->0] <= c.replica_lag_max_ms
}

/// Of the replicas, exactly those are in sync that answered lately enough, and this node.
pub proof fn who_keeps_up_is_in_sync(
    v: EngineView,
    c: EngineConfig,
    replicas: Seq<u32>,
    ack_ages: Map<Seq<char>, u64>,
    n: u32,
)
    ensures
        in_sync(v, c, replicas, ack_ages).contains(n) <==> replicas.contains(n) && (n == c.node_id
            || is_prompt(v, c, ack_ages, n)),
        in_sync(v, c, replicas, ack_ages).len() <= replicas.len(),
    decreases replicas.len(),
{
    if replicas.len() > 0 {
        let less = replicas.drop_last();
        let last = replicas.len() - 1;
        who_keeps_up_is_in_sync(v, c, less, ack_ages, n);
        let before = in_sync(v, c, less, ack_ages);
        let all = in_sync(v, c, replicas, ack_ages);
        if all.contains(n) {
            let k = choose|k: int| 0 <= k < all.len() && all[k] == n;
            if k < before.len() {
                assert(before[k] == n);
                let j = choose|j: int| 0 <= j < less.len() && less[j] == n;
                assert(replicas[j] == n);
            } else {
                assert(replicas[last] == n);
            }
        }
        if replicas.contains(n) && (n == c.node_id || is_prompt(v, c, ack_ages, n)) {
            let j = choose|j: int| 0 <= j < replicas.len() && replicas[j] == n;
            if j < last {
                assert(less[j] == n);
                assert(before.contains(n));
                let k = choose|k: int| 0 <= k < before.len() && before[k] == n;
                assert(all[k] == n);
            } else {
                assert(all[all.len() - 1] == n);
            }
        }
    }
}

/// A leader puts on record who of the replicas is in sync, and nothing else: it goes on leading in
/// the same epoch, with the same replicas.
pub proof fn a_leader_records_who_is_in_sync(
    v: EngineView,
    c: EngineConfig,
    is_leader: bool,
    key: PartitionKey,
    ack_ages: Map<Seq<char>, u64>,
    leader_age: Option<u64>,
    record: MetadataRecord,
    n: u32,
)
    requires
        swept(v, c, is_leader, key, ack_ages, leader_age, (SweepAction::UpdateIsr { record })),
    ensures
        v.partitions[key].leader_id == c.node_id,
        record@ matches RecordView::PartitionLeadershipChange {
            topic,
            partition,
            leader_id,
            leader_epoch,
            isr,
            replicas,
        } && {
            &&& topic == v.partitions[key].topic && partition == v.partitions[key].partition
            &&& leader_id == c.node_id
            &&& leader_epoch == v.partitions[key].leader_epoch
            &&& replicas is None
            &&& forall|i: int, j: int| 0 <= i <= j < isr.len() ==> isr[i] <= isr[j]
            &&& isr.contains(n) <==> v.partitions[key].replicas.contains(n) && (n == c.node_id
                || is_prompt(v, c, ack_ages, n))
        },
{
    broadcast use vstd::seq_lib::group_to_multiset_ensures;

    let p = v.partitions[key];
    let now = in_sync(v, c, p.replicas, ack_ages);
    who_keeps_up_is_in_sync(v, c, p.replicas, ack_ages, n);
    assert(isr_record(p, now, record@));
    let isr = choose|isr: Seq<u32>|
        {
            &&& ascending(isr)
            &&& isr.to_multiset() == now.to_multiset()
            &&& #[trigger] leadership(record@, p.key(), p.leader_id, p.leader_epoch, isr)
        };
    isr.to_multiset_ensures();
    now.to_multiset_ensures();
    assert(isr.contains(n) <==> isr.to_multiset().count(n) > 0);
    assert(now.contains(n) <==> now.to_multiset().count(n) > 0);
}

/// A leader that has been silent for too long is replaced by the lowest of the other nodes in
/// sync, in the next epoch, and all of these stay in sync.
pub proof fn a_lost_leader_is_replaced(
    v: EngineView,
    c: EngineConfig,
    key: PartitionKey,
    ack_ages: Map<Seq<char>, u64>,
    age: u64,
    action: SweepAction,
    n: u32,
)
    requires
        swept(v, c, true, key, ack_ages, Some(age), action),
        v.partitions.contains_key(key),
        open_fault(v, c, key.0, key.1) is None,
        v.partitions[key].leader_id != c.node_id,
        age >= c.broker_down_threshold_ms,
        v.partitions[key].isr.contains(n),
        n != v.partitions[key].leader_id,
    ensures
        action matches SweepAction::Promote { record, unclean } && !unclean && (
        record@ matches RecordView::PartitionLeadershipChange {
            topic,
            partition,
            leader_id,
            leader_epoch,
            isr,
            replicas,
        } && {
            &&& topic == v.partitions[key].topic && partition == v.partitions[key].partition
            &&& leader_id <= n
            &&& v.partitions[key].leader_epoch < u32::MAX ==> leader_epoch
                == v.partitions[key].leader_epoch + 1
            &&& isr.contains(n)
            &&& isr.contains(leader_id)
            &&& !isr.contains(v.partitions[key].leader_id)
            &&& replicas is None
        }),
{
    broadcast use vstd::seq_lib::group_to_multiset_ensures;

    let p = v.partitions[key];
    let candidates = others(p.isr, p.leader_id);
    lemma_others(p.isr, p.leader_id);
    assert(candidates.contains(n));
    assert(candidates.len() > 0);
    let rec = action->Promote_record@;
    assert(promotion(p, candidates, rec));
    let isr = choose|isr: Seq<u32>|
        {
            &&& ascending(isr)
            &&& #[trigger] isr.to_multiset() == candidates.to_multiset()
            &&& leadership(rec, p.key(), isr[0], next_epoch(p.leader_epoch), isr)
        };
    isr.to_multiset_ensures();
    candidates.to_multiset_ensures();
    assert(isr.to_multiset().count(n) > 0);
    assert(isr.contains(n));
    let k = choose|k: int| 0 <= k < isr.len() && isr[k] == n;
    assert(isr[0] <= isr[k]);
    assert(isr.contains(isr[0]));
    assert(isr.to_multiset().count(p.leader_id) == candidates.to_multiset().count(p.leader_id));
    assert(!candidates.contains(p.leader_id));
}

/// Where no other node is in sync, another replica takes over only if that is allowed: the lowest
/// one, in sync alone. Else nobody leads.
pub proof fn records_are_lost_only_if_allowed(
    v: EngineView,
    c: EngineConfig,
    key: PartitionKey,
    ack_ages: Map<Seq<char>, u64>,
    age: u64,
    action: SweepAction,
    n: u32,
)
    requires
        swept(v, c, true, key, ack_ages, Some(age), action),
        v.partitions.contains_key(key),
        open_fault(v, c, key.0, key.1) is None,
        v.partitions[key].leader_id != c.node_id,
        age >= c.broker_down_threshold_ms,
        forall|m: u32| #[trigger]
            v.partitions[key].isr.contains(m) ==> m == v.partitions[key].leader_id,
    ensures
        !c.allow_unclean_leader_election ==> action is Leaderless,
        c.allow_unclean_leader_election && v.partitions[key].replicas.contains(n) && n
            != v.partitions[key].leader_id ==> (action matches SweepAction::Promote {
            record,
            unclean,
        } && unclean && (record@ matches RecordView::PartitionLeadershipChange {
            topic,
            partition,
            leader_id,
            leader_epoch,
            isr,
            replicas,
        } && {
            &&& topic == v.partitions[key].topic && partition == v.partitions[key].partition
            &&& leader_id <= n
            &&& v.partitions[key].replicas.contains(leader_id)
            &&& leader_id != v.partitions[key].leader_id
            &&& v.partitions[key].leader_epoch < u32::MAX ==> leader_epoch
                == v.partitions[key].leader_epoch + 1
            &&& isr.len() == 1 && isr[0] == leader_id
            &&& replicas is None
        })),
{
    let p = v.partitions[key];
    let candidates = others(p.isr, p.leader_id);
    let fallback = others(p.replicas, p.leader_id);
    lemma_others(p.isr, p.leader_id);
    lemma_others(p.replicas, p.leader_id);
    if candidates.len() > 0 {
        assert(candidates.contains(candidates[0]));
    }
    if c.allow_unclean_leader_election && p.replicas.contains(n) && n != p.leader_id {
        assert(fallback.contains(n));
        assert(fallback.len() > 0);
        let rec = action->Promote_record@;
        assert(last_resort(p, fallback, rec));
        let x = choose|x: u32|
            #[trigger] least(fallback, x) && leadership(
                rec,
                p.key(),
                x,
                next_epoch(p.leader_epoch),
                seq![x],
            );
        assert(fallback.contains(x));
    }
}

/// A partition of another node is left alone as long as its leader was heard of lately enough, and
/// on any node but the cluster's leader.
pub proof fn a_live_leader_is_kept(
    v: EngineView,
    c: EngineConfig,
    is_leader: bool,
    key: PartitionKey,
    ack_ages: Map<Seq<char>, u64>,
    leader_age: Option<u64>,
    action: SweepAction,
)
    requires
        swept(v, c, is_leader, key, ack_ages, leader_age, action),
        v.partitions[key].leader_id != c.node_id,
        !is_leader || leader_age is None || leader_age->0 < c.broker_down_threshold_ms,
    ensures
        action is Nothing,
{
}

/// A leader with other replicas notices every change of who is in sync.
pub proof fn every_change_of_the_in_sync_set_is_recorded(
    v: EngineView,
    c: EngineConfig,
    is_leader: bool,
    key: PartitionKey,
    ack_ages: Map<Seq<char>, u64>,
    leader_age: Option<u64>,
    action: SweepAction,
    n: u32,
)
    requires
        swept(v, c, is_leader, key, ack_ages, leader_age, action),
        v.partitions.contains_key(key),
        open_fault(v, c, key.0, key.1) is None,
        v.partitions[key].leader_id == c.node_id,
        v.partitions[key].replicas.len() > 1,
        v.partitions[key].replicas.contains(c.node_id),
        v.partitions[key].isr.contains(n) != (v.partitions[key].replicas.contains(n) && (n
            == c.node_id || is_prompt(v, c, ack_ages, n))),
    ensures
        action is UpdateIsr,
{
    broadcast use vstd::seq_lib::group_to_multiset_ensures;

    let p = v.partitions[key];
    let now = in_sync(v, c, p.replicas, ack_ages);
    who_keeps_up_is_in_sync(v, c, p.replicas, ack_ages, n);
    who_keeps_up_is_in_sync(v, c, p.replicas, ack_ages, c.node_id);
    assert(now.contains(c.node_id));
    assert(now.len() > 0);
    now.to_multiset_ensures();
    p.isr.to_multiset_ensures();
    assert(now.contains(n) <==> now.to_multiset().count(n) > 0);
    assert(p.isr.contains(n) <==> p.isr.to_multiset().count(n) > 0);
    assert(isr_moved(v, c, key, ack_ages));
}

/// Nothing but the topics differs.
pub open spec fn only_topics_differ(m: Metadata, after: Metadata) -> bool {
    m.brokers == after.brokers && m.acls == after.acls && m.credentials == after.credentials
        && m.producers == after.producers
}

/// A topic differs from what it was in nothing.
pub open spec fn topic_untouched(m: Metadata, after: Metadata, t: Seq<char>) -> bool {
    m.topics.contains_key(t) == after.topics.contains_key(t) && (m.topics.contains_key(t)
        ==> m.topics[t] == after.topics[t])
}

/// A record of a new topic makes it known with what it says, without assignments and settings,
/// and leaves every other topic as it was.
pub proof fn a_topic_is_created_as_recorded(
    m: Metadata,
    policy: CleanupPolicy,
    topic: Seq<char>,
    num_partitions: u32,
    replication_factor: u16,
    open: Seq<u32>,
    t: Seq<char>,
)
    ensures
        ({
            let after = step(
                m,
                policy,
                RecordView::TopicCreated { topic, num_partitions, replication_factor },
                open,
            );
            &&& only_topics_differ(m, after)
            &&& t != topic ==> topic_untouched(m, after, t)
            &&& after.topics.contains_key(topic)
            &&& after.topics[topic].num_partitions == num_partitions
            &&& after.topics[topic].replication_factor == replication_factor
            &&& after.topics[topic].cleanup_policy == policy
            &&& after.topics[topic].partitions.dom() =~= Set::empty()
            &&& after.topics[topic].configs.dom() =~= Set::empty()
        }),
{
}

/// A record of a leadership gives the partition the leader, the epoch and the nodes in sync that
/// it says, and changes no other partition of any topic. Of a topic that nobody created it says
/// nothing.
pub proof fn a_leadership_is_recorded(
    m: Metadata,
    policy: CleanupPolicy,
    topic: Seq<char>,
    partition: u32,
    leader_id: u32,
    leader_epoch: u32,
    isr: Seq<u32>,
    replicas: Option<Seq<u32>>,
    open: Seq<u32>,
    t: Seq<char>,
    p: u32,
)
    ensures
        ({
            let after = step(
                m,
                policy,
                RecordView::PartitionLeadershipChange {
                    topic,
                    partition,
                    leader_id,
                    leader_epoch,
                    isr,
                    replicas,
                },
                open,
            );
            &&& only_topics_differ(m, after)
            &&& !m.topics.contains_key(topic) || t != topic ==> topic_untouched(m, after, t)
            &&& m.topics.contains_key(topic) ==> {
                &&& after.topics.contains_key(topic)
                &&& after.topics[topic].num_partitions == m.topics[topic].num_partitions
                &&& after.topics[topic].replication_factor == m.topics[topic].replication_factor
                &&& after.topics[topic].configs == m.topics[topic].configs
                &&& after.topics[topic].cleanup_policy == m.topics[topic].cleanup_policy
                &&& after.topics[topic].partitions.contains_key(partition)
                &&& after.topics[topic].partitions[partition].leader_id == leader_id
                &&& after.topics[topic].partitions[partition].leader_epoch == leader_epoch
                &&& after.topics[topic].partitions[partition].isr == isr
                &&& p != partition ==> after.topics[topic].partitions.contains_key(p)
                    == m.topics[topic].partitions.contains_key(p)
                    && after.topics[topic].partitions[p] == m.topics[topic].partitions[p]
            }
        }),
{
}

/// Whom a record names as replicas replicate the partition, with the nodes in sync. A record that
/// names none leaves those that there were, or takes those that the open partition has.
pub proof fn who_is_named_replicates(
    m: Metadata,
    topic: Seq<char>,
    partition: u32,
    replicas: Option<Seq<u32>>,
    open: Seq<u32>,
    isr: Seq<u32>,
    n: u32,
)
    ensures
        ({
            let r = roster(m, topic, partition, replicas, open, isr);
            let named = replicas is Some && replicas->0.len() > 0;
            let before = m.topics.contains_key(topic) && m.topics[topic].partitions.contains_key(
                partition,
            ) && m.topics[topic].partitions[partition].replicas.len() > 0;
            &&& named ==> (r.contains(n) <==> replicas->0.contains(n) || isr.contains(n))
            &&& !named && before ==> (r.contains(n) <==> isr.contains(n)
                || m.topics[topic].partitions[partition].replicas.contains(n))
            &&& !named && !before && open.len() > 0 ==> (r.contains(n) <==> open.contains(n)
                || isr.contains(n))
            &&& !named && !before && open.len() == 0 ==> (r.contains(n) <==> isr.contains(n))
        }),
{
    lemma_widened(isr, isr);
    lemma_widened(open, isr);
    lemma_widened(m.topics[topic].partitions[partition].replicas, isr);
    if replicas is Some {
        lemma_widened(replicas->0, isr);
    }
}

/// A node that is registered is known by the address and the roles that it gave; one that gave
/// none counts as having every role. Nothing is known of one that is unregistered. No other node
/// is touched.
pub proof fn nodes_are_known_as_registered(
    m: Metadata,
    policy: CleanupPolicy,
    node_id: u32,
    bind_addr: Seq<char>,
    roles: Seq<ProcessRole>,
    open: Seq<u32>,
    n: u32,
)
    ensures
        ({
            let after = step(
                m,
                policy,
                RecordView::BrokerRegister { node_id, bind_addr, roles },
                open,
            );
            &&& after.topics == m.topics && after.acls == m.acls && after.credentials
                == m.credentials && after.producers == m.producers
            &&& after.brokers.contains_key(node_id)
            &&& after.brokers[node_id].addr == Some(bind_addr)
            &&& after.brokers[node_id].roles is Some
            &&& roles.len() > 0 ==> after.brokers[node_id].roles->0 == roles
            &&& roles.len() == 0 ==> after.brokers[node_id].roles->0.contains(ProcessRole::Broker)
                && after.brokers[node_id].roles->0.contains(ProcessRole::Controller)
            &&& n != node_id ==> after.brokers.contains_key(n) == m.brokers.contains_key(n)
                && after.brokers[n] == m.brokers[n]
        }),
        ({
            let after = step(m, policy, RecordView::BrokerUnregister { node_id }, open);
            &&& after.topics == m.topics && after.acls == m.acls && after.credentials
                == m.credentials && after.producers == m.producers
            &&& !after.brokers.contains_key(node_id)
            &&& n != node_id ==> after.brokers.contains_key(n) == m.brokers.contains_key(n) && (
            m.brokers.contains_key(n) ==> after.brokers[n] == m.brokers[n])
        }),
{
    let after = step(m, policy, RecordView::BrokerRegister { node_id, bind_addr, roles }, open);
    if roles.len() == 0 {
        assert(after.brokers[node_id].roles->0[0] == ProcessRole::Broker);
        assert(after.brokers[node_id].roles->0[1] == ProcessRole::Controller);
    }
}

/// A rule that is created stands, one that is deleted does not, and no other rule changes.
pub proof fn rules_stand_as_recorded(
    m: Metadata,
    policy: CleanupPolicy,
    binding: Rule,
    open: Seq<u32>,
    x: Rule,
)
    ensures
        ({
            let after = step(m, policy, RecordView::AclCreated { binding }, open);
            &&& after.topics == m.topics && after.brokers == m.brokers && after.credentials
                == m.credentials && after.producers == m.producers
            &&& after.acls.contains(x) <==> m.acls.contains(x) || x == binding
        }),
        ({
            let after = step(m, policy, RecordView::AclDeleted { binding }, open);
            &&& after.topics == m.topics && after.brokers == m.brokers && after.credentials
                == m.credentials && after.producers == m.producers
            &&& after.acls.contains(x) <==> m.acls.contains(x) && x != binding
        }),
{
}

/// A user's credential is kept by mechanism, the latest counts, and no other user's changes.
pub proof fn credentials_are_kept_by_user_and_mechanism(
    m: Metadata,
    policy: CleanupPolicy,
    credential: CredentialView,
    username: Seq<char>,
    open: Seq<u32>,
    user: Seq<char>,
    mechanism: ScramMechanism,
)
    ensures
        ({
            let after = step(m, policy, RecordView::ScramCredentialUpsert { credential }, open);
            let k = (user, mechanism);
            &&& after.topics == m.topics && after.brokers == m.brokers && after.acls == m.acls
                && after.producers == m.producers
            &&& if user == credential.username && mechanism == credential.mechanism {
                after.credentials.contains_key(k) && after.credentials[k] == credential
            } else {
                after.credentials.contains_key(k) == m.credentials.contains_key(k)
                    && after.credentials[k] == m.credentials[k]
            }
        }),
        ({
            let after = step(m, policy, RecordView::ScramCredentialDelete { username }, open);
            let k = (user, mechanism);
            &&& after.topics == m.topics && after.brokers == m.brokers && after.acls == m.acls
                && after.producers == m.producers
            &&& after.credentials.contains_key(k) <==> m.credentials.contains_key(k) && user
                != username
            &&& after.credentials.contains_key(k) ==> after.credentials[k] == m.credentials[k]
        }),
{
    match mechanism {
        ScramMechanism::Sha256 => {},
        ScramMechanism::Sha512 => {},
    }
}

/// A transactional producer holds the number and the epoch that were registered last.
pub proof fn producers_hold_what_was_registered(
    m: Metadata,
    policy: CleanupPolicy,
    transactional_id: Seq<char>,
    producer_id: u64,
    producer_epoch: i16,
    open: Seq<u32>,
    t: Seq<char>,
)
    ensures
        ({
            let after = step(
                m,
                policy,
                RecordView::TransactionalProducerRegistration {
                    transactional_id,
                    producer_id,
                    producer_epoch,
                },
                open,
            );
            &&& after.topics == m.topics && after.brokers == m.brokers && after.acls == m.acls
                && after.credentials == m.credentials
            &&& after.producers.contains_key(transactional_id)
            &&& after.producers[transactional_id].producer_id == producer_id
            &&& after.producers[transactional_id].producer_epoch == producer_epoch
            &&& t != transactional_id ==> after.producers.contains_key(t)
                == m.producers.contains_key(t) && after.producers[t] == m.producers[t]
        }),
{
}

/// Settings that are recorded replace those of the topic, and of a name that is given twice the
/// later value counts. Nothing else of it changes, and no other topic.
pub proof fn settings_are_replaced(
    m: Metadata,
    policy: CleanupPolicy,
    topic: Seq<char>,
    configs: Seq<(Seq<char>, Seq<char>)>,
    open: Seq<u32>,
    t: Seq<char>,
    i: int,
)
    requires
        m.topics.contains_key(topic),
    ensures
        ({
            let after = step(m, policy, RecordView::TopicConfigChanged { topic, configs }, open);
            &&& only_topics_differ(m, after)
            &&& t != topic ==> topic_untouched(m, after, t)
            &&& after.topics.contains_key(topic)
            &&& after.topics[topic].num_partitions == m.topics[topic].num_partitions
            &&& after.topics[topic].replication_factor == m.topics[topic].replication_factor
            &&& after.topics[topic].partitions == m.topics[topic].partitions
            &&& 0 <= i < configs.len() && (forall|j: int|
                i < j < configs.len() ==> (#[trigger] configs[j]).0 != configs[i].0)
                ==> after.topics[topic].configs.contains_key(configs[i].0)
                && after.topics[topic].configs[configs[i].0] == configs[i].1
            &&& (forall|j: int| 0 <= j < configs.len() ==> (#[trigger] configs[j]).0 != t)
                ==> !after.topics[topic].configs.contains_key(t)
        }),
{
    if 0 <= i < configs.len() && (forall|j: int|
        i < j < configs.len() ==> (#[trigger] configs[j]).0 != configs[i].0) {
        crate::engine::config_laws::the_last_value_counts(configs, i);
    }
    if forall|j: int| 0 <= j < configs.len() ==> (#[trigger] configs[j]).0 != t {
        crate::engine::config_laws::only_what_is_listed_is_set(configs, t);
    }
}

/// No producer number that was registered is given out again, and none that was not is passed
/// over on account of an older one.
pub proof fn producer_numbers_are_given_once(
    v: EngineView,
    c: EngineConfig,
    offset: u64,
    transactional_id: Seq<char>,
    producer_id: u64,
    producer_epoch: i16,
)
    ensures
        ({
            let after = applied(
                v,
                c,
                offset,
                RecordView::TransactionalProducerRegistration {
                    transactional_id,
                    producer_id,
                    producer_epoch,
                },
                None,
            );
            &&& producer_id < u64::MAX ==> after.next_producer_id > producer_id
            &&& producer_id < u64::MAX ==> after.next_producer_id >= v.next_producer_id
            &&& producer_id < v.next_producer_id ==> after.next_producer_id == v.next_producer_id
            &&& after.partitions == v.partitions
        }),
{
}

/// Whatever a record says, it counts as applied, and it is the next one's turn.
pub proof fn records_are_applied_in_turn(
    v: EngineView,
    c: EngineConfig,
    offset: u64,
    rec: RecordView,
    opened: Option<PartitionView>,
)
    requires
        offset < u64::MAX,
    ensures
        applied(v, c, offset, rec, opened).log_index == offset + 1,
        !(rec is TopicDeleted) ==> applied(v, c, offset, rec, opened).deleting == v.deleting,
        !(rec is TransactionalProducerRegistration) ==> applied(
            v,
            c,
            offset,
            rec,
            opened,
        ).next_producer_id == v.next_producer_id,
{
}

/// An open partition of a topic that is kept is led by whom the record says, and keeps its log;
/// no other partition is touched.
pub proof fn an_open_partition_follows_the_record(
    v: EngineView,
    c: EngineConfig,
    offset: u64,
    topic: Seq<char>,
    partition: u32,
    leader_id: u32,
    leader_epoch: u32,
    isr: Seq<u32>,
    replicas: Option<Seq<u32>>,
    opened: Option<PartitionView>,
    k: PartitionKey,
)
    requires
        v.partitions.contains_key((topic, partition)),
        !v.deleting.contains(topic),
        topic_fault(topic) is None,
        partition < c.max_partitions_per_topic,
    ensures
        ({
            let after = applied(
                v,
                c,
                offset,
                RecordView::PartitionLeadershipChange {
                    topic,
                    partition,
                    leader_id,
                    leader_epoch,
                    isr,
                    replicas,
                },
                opened,
            );
            let p = after.partitions[(topic, partition)];
            &&& after.partitions.contains_key((topic, partition))
            &&& p.leader_id == leader_id && p.leader_epoch == leader_epoch && p.isr == isr
            &&& p.log_end_offset == v.partitions[(topic, partition)].log_end_offset
            &&& p.committed_hw == v.partitions[(topic, partition)].committed_hw
            &&& p.producers == v.partitions[(topic, partition)].producers
            &&& forall|n: u32| #[trigger] isr.contains(n) ==> p.replicas.contains(n)
            &&& k != (topic, partition) ==> after.partitions.contains_key(k)
                == v.partitions.contains_key(k) && after.partitions[k] == v.partitions[k]
        }),
{
    assert forall|n: u32| #[trigger] isr.contains(n) implies roster(
        crate::engine::metadata::metadata(v),
        topic,
        partition,
        replicas,
        open_replicas(v, topic, partition),
        isr,
    ).contains(n) by {
        crate::engine::laws::in_sync_nodes_are_replicas(
            crate::engine::metadata::metadata(v),
            topic,
            partition,
            replicas,
            open_replicas(v, topic, partition),
            isr,
            n,
        );
    }
}

/// A deleted topic takes its open partitions with it, and those of no other topic; it is on its
/// way out until its files are gone.
pub proof fn a_deletion_takes_one_topic(
    v: EngineView,
    c: EngineConfig,
    offset: u64,
    topic: Seq<char>,
    k: PartitionKey,
    t: Seq<char>,
)
    ensures
        ({
            let after = applied(v, c, offset, RecordView::TopicDeleted { topic }, None);
            &&& after.partitions.contains_key(k) <==> v.partitions.contains_key(k) && k.0 != topic
            &&& after.partitions.contains_key(k) ==> after.partitions[k] == v.partitions[k]
            &&& after.topics.contains_key(t) <==> v.topics.contains_key(t) && t != topic
            &&& after.topics.contains_key(t) ==> after.topics[t] == v.topics[t]
            &&& after.deleting.contains(t) <==> v.deleting.contains(t) || t == topic
        }),
{
}

/// A partition may be used if its topic has a proper name and is not on its way out, and there is
/// room for it; the broker's own topics always have room. Else it may not.
pub proof fn what_may_be_opened(v: EngineView, c: EngineConfig, topic: Seq<char>, partition: u32)
    ensures
        open_fault(v, c, topic, partition) is None <==> topic_fault(topic) is None
            && !v.deleting.contains(topic) && (system_topic(topic) || (partition
            < c.max_partitions_per_topic && (v.partitions.contains_key((topic, partition))
            || v.partitions.dom().len() < c.max_partitions_per_broker))),
        access(v, topic, partition) is Ready <==> v.partitions.contains_key((topic, partition)),
{
}

/// A topic is the broker's own if and only if its name begins with two underscores.
pub proof fn the_brokers_topics_begin_with_underscores(topic: Seq<char>)
    ensures
        system_topic(topic) <==> topic.len() >= 2 && topic[0] == '_' && topic[1] == '_',
{
    reveal_strlit("__");
    if topic.len() >= 2 && topic[0] == '_' && topic[1] == '_' {
        assert(topic.subrange(0, 2) =~= "__"@);
    }
    if system_topic(topic) {
        assert(topic.subrange(0, 2)[0] == topic[0]);
        assert(topic.subrange(0, 2)[1] == topic[1]);
    }
}

/// A partition that is opened gets the leader, the epoch, the replicas and the nodes in sync that
/// are on record, and keeps its log.
pub proof fn a_partition_opens_as_assigned(v: EngineView, p: PartitionView)
    requires
        v.topics.contains_key(p.topic),
        v.topics[p.topic].partitions.contains_key(p.partition),
    ensures
        ({
            let a = v.topics[p.topic].partitions[p.partition];
            let q = as_registered(v, p);
            &&& q.leader_id == a.leader_id && q.leader_epoch == a.leader_epoch
            &&& q.replicas == a.replicas && q.isr == a.isr
            &&& q.cleanup_policy == v.topics[p.topic].cleanup_policy
            &&& q.topic == p.topic && q.partition == p.partition
            &&& q.log_end_offset == p.log_end_offset && q.committed_hw == p.committed_hw
        }),
{
}

/// Whoever is on record as the leader takes the writes, and nobody else. Where nobody is, the
/// cluster's leader does; of its own topics every node does.
pub proof fn the_recorded_leader_takes_writes(
    v: EngineView,
    c: EngineConfig,
    is_leader: bool,
    topic: Seq<char>,
    partition: u32,
)
    ensures
        v.partitions.contains_key((topic, partition)) ==> (leads(v, c, is_leader, topic, partition)
            <==> v.partitions[(topic, partition)].leader_id == c.node_id),
        !v.partitions.contains_key((topic, partition)) && v.topics.contains_key(topic)
            && v.topics[topic].partitions.contains_key(partition) ==> (leads(
            v,
            c,
            is_leader,
            topic,
            partition,
        ) <==> v.topics[topic].partitions[partition].leader_id == c.node_id),
        !v.partitions.contains_key((topic, partition)) && !v.topics.contains_key(topic)
            && !system_topic(topic) ==> (leads(v, c, is_leader, topic, partition) <==> is_leader),
        !v.partitions.contains_key((topic, partition)) && !v.topics.contains_key(topic)
            && system_topic(topic) ==> leads(v, c, is_leader, topic, partition),
{
}

/// Reads are answered by the leader and the replicas on record. Where there is no record, any node
/// answers.
pub proof fn replicas_answer_reads(v: EngineView, c: EngineConfig, topic: Seq<char>, partition: u32)
    ensures
        v.partitions.contains_key((topic, partition)) ==> (replicates(v, c, topic, partition)
            <==> v.partitions[(topic, partition)].leader_id == c.node_id || v.partitions[(
            topic,
            partition,
        )].replicas.contains(c.node_id)),
        !v.partitions.contains_key((topic, partition)) && v.topics.contains_key(topic)
            && v.topics[topic].partitions.contains_key(partition) ==> (replicates(
            v,
            c,
            topic,
            partition,
        ) <==> v.topics[topic].partitions[partition].leader_id == c.node_id
            || v.topics[topic].partitions[partition].replicas.contains(c.node_id)),
        !v.partitions.contains_key((topic, partition)) && !(v.topics.contains_key(topic)
            && v.topics[topic].partitions.contains_key(partition)) ==> replicates(
            v,
            c,
            topic,
            partition,
        ),
{
}

/// Clients see every topic that was created or has an open partition, except the broker's own and
/// those on their way out.
pub proof fn topics_are_shown(v: EngineView, topic: Seq<char>, p: u32)
    ensures
        v.topics.contains_key(topic) && !system_topic(topic) && !v.deleting.contains(topic)
            ==> listed(v, topic),
        v.partitions.contains_key((topic, p)) && !system_topic(topic) && !v.deleting.contains(topic)
            ==> listed(v, topic),
        system_topic(topic) || v.deleting.contains(topic) ==> !listed(v, topic),
{
}

/// A client is told the leader, the replicas and how far is committed of an open partition, and
/// what is on record of one that is not open here.
pub proof fn clients_are_told_who_leads(
    v: EngineView,
    c: EngineConfig,
    topic: Seq<char>,
    p: u32,
)
    ensures
        described(v, c, topic, p).partition_id == p,
        leader_of(v, topic, p) is Some ==> described(v, c, topic, p).leader_id == leader_of(
            v,
            topic,
            p,
        )->0,
        v.partitions.contains_key((topic, p)) ==> described(v, c, topic, p).high_watermark
            == v.partitions[(topic, p)].committed_hw && described(v, c, topic, p).replicas
            == v.partitions[(topic, p)].replicas && described(v, c, topic, p).leader_id
            == v.partitions[(topic, p)].leader_id,
        !v.partitions.contains_key((topic, p)) ==> described(v, c, topic, p).high_watermark == 0,
        !v.partitions.contains_key((topic, p)) && v.topics.contains_key(topic)
            && v.topics[topic].partitions.contains_key(p) ==> described(v, c, topic, p).replicas
            == v.topics[topic].partitions[p].replicas && described(v, c, topic, p).leader_id
            == v.topics[topic].partitions[p].leader_id,
{
}

/// Keys are counted by topic.
pub proof fn partitions_are_counted_by_topic(keys: Seq<PartitionKey>, topic: Seq<char>, n: int)
    requires
        0 <= n <= keys.len(),
    ensures
        count_of(keys, topic) == count_of(keys.take(n), topic) + count_of(keys.skip(n), topic),
        keys.len() == 0 ==> count_of(keys, topic) == 0,
        keys.len() == 1 ==> count_of(keys, topic) == (if keys[0].0 == topic {
            1int
        } else {
            0
        }),
    decreases keys.len(),
{
    if keys.len() == 1 {
        assert(keys.drop_last() =~= Seq::empty());
        assert(count_of(keys.drop_last(), topic) == 0);
    }
    if n == keys.len() {
        assert(keys.take(n) =~= keys);
        assert(keys.skip(n) =~= Seq::empty());
    } else {
        partitions_are_counted_by_topic(keys.drop_last(), topic, n);
        assert(keys.drop_last().take(n) =~= keys.take(n));
        assert(keys.drop_last().skip(n) =~= keys.skip(n).drop_last());
        assert(keys.skip(n).last() == keys.last());
    }
}

/// A topic that was created is described with every partition that it was created with, in order,
/// unless it is on its way out.
pub proof fn every_partition_is_described(
    e: StorageEngine,
    topic: Seq<char>,
    r: Option<Vec<DescribedPartition>>,
    p: u32,
)
    requires
        topic_described(e, topic, r),
        e@.topics.contains_key(topic),
        !e@.deleting.contains(topic),
        p < e@.topics[topic].num_partitions,
    ensures
        r is Some,
        p < r->0@.len(),
        r->0@[p as int].partition_id == p,
{
    assert(r->0@[p as int]@ == described(e@, e.config, topic, p));
}

/// Partitions may be given to this node if it is a broker, and to any node whose address is known
/// unless its roles are known not to be a broker's.
pub proof fn brokers_take_partitions(
    m: Map<u32, crate::engine::brokers::BrokerView>,
    id: u32,
    self_id: u32,
    self_is_broker: bool,
)
    ensures
        self_is_broker ==> available(m, self_id, self_id, self_is_broker),
        id != self_id ==> (available(m, id, self_id, self_is_broker) <==> m.contains_key(id)
            && m[id].addr is Some && (m[id].roles is None || m[id].roles->0.contains(
            ProcessRole::Broker,
        ))),
{
}

/// A topic is described only if it was created or has an open partition, and is not on its way
/// out.
pub proof fn an_unknown_topic_is_not_described(
    e: StorageEngine,
    topic: Seq<char>,
    r: Option<Vec<DescribedPartition>>,
)
    requires
        topic_described(e, topic, r),
    ensures
        e@.deleting.contains(topic) ==> r is None,
        !e@.topics.contains_key(topic) && count_of(e.partitions.keys(), topic) == 0 ==> r is None,
        r is Some && e@.topics.contains_key(topic) ==> r->0@.len()
            >= e@.topics[topic].num_partitions && r->0@.len() >= count_of(
            e.partitions.keys(),
            topic,
        ),
{
}

/// Of a partition that nobody knows, a client is told that this node has it, alone and empty.
pub proof fn an_unknown_partition_is_this_nodes(
    v: EngineView,
    c: EngineConfig,
    topic: Seq<char>,
    p: u32,
)
    requires
        !v.partitions.contains_key((topic, p)),
        !(v.topics.contains_key(topic) && v.topics[topic].partitions.contains_key(p)),
    ensures
        described(v, c, topic, p).leader_id == c.node_id,
        described(v, c, topic, p).replicas.len() == 1,
        described(v, c, topic, p).replicas[0] == c.node_id,
        described(v, c, topic, p).high_watermark == 0,
{
}

/// Once a majority has a proposal it goes on: it takes effect, or waits for the nodes in sync where
/// more than one has to be. Before that it waits, until the time is over; then it is refused.
pub proof fn a_proposal_goes_on_with_a_majority(
    before: StorageEngine,
    after: StorageEngine,
    offset: u64,
    event: ProposeEvent,
    r: (ProposePhase, ProposeAction),
)
    requires
        stepped(before, after, (ProposePhase::Agreeing { offset }), event, r),
        event is Polled,
    ensures
        event matches ProposeEvent::Polled { acked, timed_out, .. } && {
            let agreed = committed(before.config, acked@, offset);
            &&& agreed && before.config.min_insync_replicas <= 1 ==> r.1 is Apply
            &&& agreed && before.config.min_insync_replicas > 1 ==> r.0 is Replicating
                && r.1 is Wait
            &&& !agreed && timed_out ==> r.1 is Refuse
            &&& !agreed && !timed_out ==> r.1 is Wait && r.0 is Agreeing
        },
{
}

/// New settings reach every open partition of the topic, and none of another.
pub proof fn settings_reach_every_open_partition(
    v: EngineView,
    c: EngineConfig,
    offset: u64,
    topic: Seq<char>,
    configs: Seq<(Seq<char>, Seq<char>)>,
    k: PartitionKey,
)
    ensures
        ({
            let after = applied(
                v,
                c,
                offset,
                RecordView::TopicConfigChanged { topic, configs },
                None,
            );
            &&& after.partitions.contains_key(k) == v.partitions.contains_key(k)
            &&& v.partitions.contains_key(k) && k.0 == topic ==> after.partitions[k]
                == crate::engine::configs::configured(
                v.partitions[k],
                crate::engine::configs::collected(configs),
            )
            &&& v.partitions.contains_key(k) && k.0 != topic ==> after.partitions[k]
                == v.partitions[k]
        }),
{
}

/// An append leaves alone whose partition it is, who leads and replicates it, and how it is kept.
pub proof fn an_append_leaves_the_rest_alone(a: PartitionManager, b: PartitionManager)
    requires
        a.same_settings(b),
        a.log_end_offset == b.log_end_offset,
        a.committed_hw == b.committed_hw,
        a.unsynced_bytes == b.unsynced_bytes,
        a.producer_states == b.producer_states,
    ensures
        a@ == b@,
{
}

/// An address is known if and only if some node that is registered has it.
pub proof fn peers_are_found_by_address(
    m: Map<u32, crate::engine::brokers::BrokerView>,
    addr: Seq<char>,
    id: u32,
)
    ensures
        m.contains_key(id) && m[id].addr == Some(addr) ==> crate::engine::brokers::discovered(m, addr),
        (forall|n: u32| #[trigger] m.contains_key(n) ==> m[n].addr != Some(addr))
            ==> !crate::engine::brokers::discovered(m, addr),
{
    if m.contains_key(id) && m[id].addr == Some(addr) {
        assert(crate::engine::brokers::address_of(m, id) == Some(addr));
    }
    if forall|n: u32| #[trigger] m.contains_key(n) ==> m[n].addr != Some(addr) {
        assert forall|n: u32| #[trigger]
            crate::engine::brokers::address_of(m, n) != Some(addr) by {}
    }
}

/// A record about a partition whose log was not opened opens none, and touches no open one.
pub proof fn a_record_opens_no_log(
    v: EngineView,
    c: EngineConfig,
    offset: u64,
    rec: RecordView,
    topic: Seq<char>,
    partition: u32,
)
    requires
        rec matches RecordView::PartitionLeadershipChange { topic: t, partition: p, .. } && t
            == topic && p == partition || rec == (RecordView::TopicPartition { topic, partition }),
        !v.partitions.contains_key((topic, partition)),
    ensures
        applied(v, c, offset, rec, None).partitions =~= v.partitions,
{
}

/// A partition that a record needs is opened, if it may be: its log is as it was found, and it is
/// led by whom the record says.
pub proof fn a_needed_partition_is_opened(
    v: EngineView,
    c: EngineConfig,
    offset: u64,
    topic: Seq<char>,
    partition: u32,
    leader_id: u32,
    leader_epoch: u32,
    isr: Seq<u32>,
    replicas: Option<Seq<u32>>,
    opened: PartitionView,
    k: PartitionKey,
)
    requires
        !v.partitions.contains_key((topic, partition)),
        open_fault(v, c, topic, partition) is None,
        opened.topic == topic,
        opened.partition == partition,
    ensures
        ({
            let after = applied(
                v,
                c,
                offset,
                RecordView::PartitionLeadershipChange {
                    topic,
                    partition,
                    leader_id,
                    leader_epoch,
                    isr,
                    replicas,
                },
                Some(opened),
            );
            let p = after.partitions[(topic, partition)];
            &&& k != (topic, partition) ==> after.partitions.contains_key(k)
                == v.partitions.contains_key(k) && after.partitions[k] == v.partitions[k]
            &&& after.partitions.contains_key((topic, partition))
            &&& p.log_end_offset == opened.log_end_offset && p.committed_hw == opened.committed_hw
            &&& p.leader_id == leader_id && p.leader_epoch == leader_epoch && p.isr == isr
        }),
        ({
            let after = applied(
                v,
                c,
                offset,
                RecordView::TopicPartition { topic, partition },
                Some(opened),
            );
            let p = after.partitions[(topic, partition)];
            &&& after.partitions.contains_key((topic, partition))
            &&& p.topic == topic && p.partition == partition
            &&& p.log_end_offset == opened.log_end_offset && p.committed_hw == opened.committed_hw
            &&& k != (topic, partition) ==> after.partitions.contains_key(k)
                == v.partitions.contains_key(k) && after.partitions[k] == v.partitions[k]
        }),
{
}

} // verus!
