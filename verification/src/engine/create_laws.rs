//! How topics come into being and get their partitions.
use crate::engine::brokers::{rising, ProcessRole};
use crate::engine::create::{
    broker_list, creation, factor_for, first_assignment, first_ones, late_assignment, noted_found,
    noted_missing, peers_missing, unassigned, warning_due,
};
use crate::engine::metadata::RecordView;
use crate::engine::state::{count_of, system_topic, EngineConfig, EngineView, StorageEngine};
use crate::engine::table::PartitionKey;
use crate::placement::{alphanumeric, fnv, pinned_leader_leads, topic_fault};
use crate::text::has_text;
use vstd::prelude::*;
use vstd::utf8::*;

verus! {

/// A topic has as many replicas as were asked for, or as is the default, but at least one by
/// default, and never more than there are brokers.
pub proof fn no_more_replicas_than_brokers(c: EngineConfig, explicit: Option<u16>, brokers: int)
    ensures
        factor_for(c, explicit, brokers) <= brokers,
        explicit is Some && explicit->0 <= brokers ==> factor_for(c, explicit, brokers)
            == explicit->0,
        explicit is None && 1 <= c.default_replication_factor <= brokers ==> factor_for(
            c,
            explicit,
            brokers,
        ) == c.default_replication_factor,
        explicit is None && c.default_replication_factor == 0 && brokers >= 1 ==> factor_for(
            c,
            explicit,
            brokers,
        ) == 1,
        explicit is Some && explicit->0 >= brokers ==> factor_for(c, explicit, brokers) == brokers,
{
}

/// The records of a new topic create it and give each of its partitions, in order, its leader and
/// its replicas.
pub proof fn a_new_topic_has_every_partition(
    topic: Seq<char>,
    num_partitions: u32,
    brokers: Seq<u32>,
    rf: u16,
    p: u32,
)
    requires
        rising(brokers),
        0 < rf <= brokers.len(),
        p < num_partitions,
    ensures
        ({
            let s = creation(topic, num_partitions, brokers, rf as int);
            &&& s.len() == num_partitions + 1
            &&& s[0] == (RecordView::TopicCreated { topic, num_partitions, replication_factor: rf })
            &&& s[p + 1] matches RecordView::PartitionLeadershipChange {
                topic: t,
                partition,
                leader_id,
                leader_epoch,
                isr,
                replicas,
            } && {
                &&& t == topic && partition == p
                &&& leader_epoch == 0
                &&& isr.len() == rf && isr.no_duplicates()
                &&& isr[0] == leader_id
                &&& replicas == Some(isr)
                &&& forall|n: u32| #[trigger] isr.contains(n) ==> brokers.contains(n)
            }
        }),
{
    crate::engine::create::a_new_partition_is_fully_in_sync(topic, p, brokers, rf as int);
    let s = creation(topic, num_partitions, brokers, rf as int);
    assert(s[p + 1] == first_assignment(topic, p, brokers, rf as int));
}

/// Every open partition of a client's topic that has no assignment on record is found, and no
/// other.
pub proof fn every_unassigned_partition_is_found(
    v: EngineView,
    keys: Seq<PartitionKey>,
    k: PartitionKey,
)
    ensures
        unassigned(v, keys).contains(k) <==> keys.contains(k) && !system_topic(k.0) && !(
        v.topics.contains_key(k.0) && v.topics[k.0].partitions.contains_key(k.1)),
    decreases keys.len(),
{
    if keys.len() > 0 {
        let less = keys.drop_last();
        let n = keys.len() - 1;
        every_unassigned_partition_is_found(v, less, k);
        let before = unassigned(v, less);
        let all = unassigned(v, keys);
        if all.contains(k) {
            let i = choose|i: int| 0 <= i < all.len() && all[i] == k;
            if i < before.len() {
                assert(before[i] == k);
                let j = choose|j: int| 0 <= j < less.len() && less[j] == k;
                assert(keys[j] == k);
            } else {
                assert(keys[n] == k);
            }
        }
        if keys.contains(k) {
            let j = choose|j: int| 0 <= j < keys.len() && keys[j] == k;
            if j < n {
                assert(less[j] == k);
                if before.contains(k) {
                    let i = choose|i: int| 0 <= i < before.len() && before[i] == k;
                    assert(all[i] == k);
                }
            } else if all.len() > before.len() {
                assert(all[all.len() - 1] == keys[n]);
            }
        }
    }
}

/// A sweep assigns the first ones, fifty at most, and none is passed over.
pub proof fn a_sweep_assigns_the_first_ones(s: Seq<PartitionKey>, i: int)
    ensures
        first_ones(s).len() == (if s.len() <= 50 {
            s.len() as int
        } else {
            50
        }),
        0 <= i < first_ones(s).len() ==> first_ones(s)[i] == s[i],
{
}

/// A partition that is assigned late stays where its data is: whoever held it goes on leading, if
/// it can be seen, else this node does; that one alone is in sync, in the epoch that there was,
/// and is among the replicas.
pub proof fn a_late_assignment_moves_no_data(
    e: StorageEngine,
    brokers: Seq<u32>,
    key: PartitionKey,
)
    ensures
        ({
            let s = late_assignment(e, brokers, key);
            let p = e@.partitions[key];
            &&& s.len() > 0
            &&& s.last() matches RecordView::PartitionLeadershipChange {
                topic,
                partition,
                leader_id,
                leader_epoch,
                isr,
                replicas,
            } && {
                &&& topic == key.0 && partition == key.1
                &&& brokers.contains(p.leader_id) ==> leader_id == p.leader_id
                &&& !brokers.contains(p.leader_id) ==> leader_id == e.config.node_id
                &&& leader_epoch == p.leader_epoch
                &&& isr.len() == 1 && isr[0] == leader_id
                &&& replicas is Some
                &&& brokers.contains(leader_id) ==> replicas->0.len() > 0 && replicas->0[0]
                    == leader_id
            }
        }),
{
    let s = late_assignment(e, brokers, key);
    let p = e@.partitions[key];
    let leader = if brokers.contains(p.leader_id) {
        p.leader_id
    } else {
        e.config.node_id
    };
    let rf = factor_for(e.config, None, brokers.len() as int);
    if brokers.contains(leader) {
        assert(rf > 0);
        pinned_leader_leads(brokers, key.1 as int, rf, fnv(encode_utf8(key.0)) as int, leader);
    }
}

/// A topic that nobody created is created with its first late assignment, with enough partitions
/// for it and for all that are open; one that is known is not created again.
pub proof fn a_late_assignment_creates_the_topic_once(
    e: StorageEngine,
    brokers: Seq<u32>,
    key: PartitionKey,
)
    requires
        key.1 < u32::MAX,
        count_of(e.partitions.keys(), key.0) <= u32::MAX,
    ensures
        ({
            let s = late_assignment(e, brokers, key);
            &&& e@.topics.contains_key(key.0) ==> s.len() == 1
            &&& !e@.topics.contains_key(key.0) ==> s.len() == 2 && (
            s[0] matches RecordView::TopicCreated { topic, num_partitions, .. } && topic == key.0
                && num_partitions > key.1 && num_partitions >= count_of(
                e.partitions.keys(),
                key.0,
            ))
        }),
{
}

/// Peers are missed where some are configured and no other broker has been heard of. The warning
/// comes once, half a minute after they were first missed, and not again until they were found.
pub proof fn missing_peers_are_warned_of_once(e: StorageEngine, now: u64, later: u64)
    ensures
        warning_due(e, now) ==> !e.undiscovered_peers_warned && e.undiscovered_peers_since is Some
            && now - e.undiscovered_peers_since->0 >= 30_000_000_000,
        !e.undiscovered_peers_warned && e.undiscovered_peers_since is Some && now
            - e.undiscovered_peers_since->0 >= 30_000_000_000 ==> warning_due(e, now),
        warning_due(e, now) ==> !warning_due(noted_missing(e, now), later),
        e.undiscovered_peers_warned ==> noted_missing(e, now).undiscovered_peers_warned,
        e.undiscovered_peers_since is Some ==> noted_missing(e, now).undiscovered_peers_since
            == e.undiscovered_peers_since,
        e.undiscovered_peers_since is None ==> noted_missing(e, now).undiscovered_peers_since
            == Some(now),
        noted_found(e).undiscovered_peers_since is None,
        e.undiscovered_peers_since is Some ==> !noted_found(e).undiscovered_peers_warned,
        e.undiscovered_peers_since is None ==> noted_found(e).undiscovered_peers_warned
            == e.undiscovered_peers_warned,
{
}

/// No peer is missed where none is configured, or where another broker is there.
pub proof fn a_lone_broker_misses_nobody(c: EngineConfig, brokers: int)
    ensures
        c.peer_addrs@.len() == 0 ==> !peers_missing(c, brokers),
        brokers > 1 ==> !peers_missing(c, brokers),
        c.peer_addrs@.len() > 0 && brokers == 1 ==> peers_missing(c, brokers),
{
}

/// A topic may have any name of letters, digits, dots, underscores and hyphens that is a directory
/// name and leads nowhere else, of up to two hundred and forty-nine bytes.
pub proof fn what_a_topic_may_be_called(s: Seq<char>)
    ensures
        topic_fault(s) is None ==> {
            &&& 0 < s.len()
            &&& encode_utf8(s).len() <= 249
            &&& !has_text(s, ".."@)
            &&& s != "."@
            &&& forall|i: int|
                0 <= i < s.len() ==> #[trigger] s[i] != '/' && s[i] != '\\' && (alphanumeric(s[i])
                    || s[i] == '.' || s[i] == '_' || s[i] == '-')
        },
        0 < s.len() && encode_utf8(s).len() <= 249 && !has_text(s, ".."@) && s != "."@ && (forall|
            i: int,
        |
            0 <= i < s.len() ==> #[trigger] s[i] != '/' && s[i] != '\\' && (alphanumeric(s[i])
                || s[i] == '.' || s[i] == '_' || s[i] == '-')) ==> topic_fault(s) is None,
{
    if topic_fault(s) is None {
        assert forall|i: int| 0 <= i < s.len() implies #[trigger] s[i] != '/' && s[i] != '\\' && (
        alphanumeric(s[i]) || s[i] == '.' || s[i] == '_' || s[i] == '-') by {
            assert(s.contains(s[i]));
            assert(crate::placement::topic_char(s[i]));
        }
    }
}

/// Partitions are given to the nodes that may have some, each listed once, in order.
pub proof fn brokers_are_listed_in_order(
    v: EngineView,
    c: EngineConfig,
    ids: Seq<u32>,
    id: u32,
    i: int,
    j: int,
)
    requires
        broker_list(v, c, ids),
    ensures
        0 <= i < j < ids.len() ==> ids[i] < ids[j],
        id != c.node_id ==> (ids.contains(id) <==> v.brokers.contains_key(id) && v.brokers[id].addr
            is Some && (v.brokers[id].roles is None || v.brokers[id].roles->0.contains(
            ProcessRole::Broker,
        ))),
        c.roles@.contains(ProcessRole::Broker) ==> ids.contains(c.node_id),
{
}

} // verus!
