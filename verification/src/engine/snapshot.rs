//! A snapshot of the metadata: the records that restore it, and their frames in a file.
use crate::acl::{AclBinding, Rule};
use crate::acl_manager::rules_of;
use crate::codec::{be, get_be, number, part, put_bytes, put_u32, put_u64};
use crate::engine::brokers::{address_of, roles_meant, BrokerView, ProcessRole};
use crate::engine::configs::list_configs;
use crate::engine::credentials::{CredentialMap, CredentialStore, ScramMechanism};
use crate::engine::metadata::{metadata, step, widened, Metadata, MetadataRecord, RecordView};
use crate::engine::state::StorageEngine;
use crate::engine::topics::{
    copy_nodes, fresh_topic, AssignmentView, PartitionAssignment, TopicConfig, TopicView,
};
use crate::partition::CleanupPolicy;
use crate::text::owned;
use crate::transaction::manager::TransactionalProducerState;
use vstd::prelude::*;
use vstd::std_specs::iter::IteratorSpec;
use vstd::string::*;

verus! {

broadcast use vstd::std_specs::hash::group_hash_axioms;

/// Records, as values.
pub open spec fn record_views(s: Seq<MetadataRecord>) -> Seq<RecordView> {
    s.map_values(|r: MetadataRecord| r@)
}

/// No metadata.
pub open spec fn no_metadata() -> Metadata {
    Metadata {
        topics: Map::empty(),
        brokers: Map::empty(),
        acls: Set::empty(),
        credentials: Map::empty(),
        producers: Map::empty(),
    }
}

/// What records make of no metadata, on a broker with no open partitions.
pub open spec fn replayed(policy: CleanupPolicy, s: Seq<RecordView>) -> Metadata
    decreases s.len(),
{
    if s.len() == 0 {
        no_metadata()
    } else {
        step(replayed(policy, s.drop_last()), policy, s.last(), Seq::empty())
    }
}

/// An assignment as a snapshot restores it: every node in sync is a replica.
pub open spec fn restored_assignment(a: AssignmentView) -> AssignmentView {
    AssignmentView {
        replicas: widened(
            if a.replicas.len() > 0 {
                a.replicas
            } else {
                a.isr
            },
            a.isr,
        ),
        ..a
    }
}

/// A topic as a snapshot restores it. Its clean-up policy is not recorded.
pub open spec fn restored_topic(t: TopicView, policy: CleanupPolicy) -> TopicView {
    TopicView {
        cleanup_policy: policy,
        partitions: t.partitions.map_values(|a: AssignmentView| restored_assignment(a)),
        ..t
    }
}

/// The nodes as a snapshot restores them: those with an address. Unknown roles become both.
pub open spec fn restored_brokers(m: Map<u32, BrokerView>) -> Map<u32, BrokerView> {
    Map::new(
        |id: u32| address_of(m, id) is Some,
        |id: u32|
            BrokerView {
                addr: m[id].addr,
                roles: Some(
                    roles_meant(
                        match m[id].roles {
                            Some(r) => r,
                            None => Seq::empty(),
                        },
                    ),
                ),
            },
    )
}

/// The metadata as a snapshot restores it.
pub open spec fn restored(m: Metadata, policy: CleanupPolicy) -> Metadata {
    Metadata {
        topics: m.topics.map_values(|t: TopicView| restored_topic(t, policy)),
        brokers: restored_brokers(m.brokers),
        ..m
    }
}

proof fn lemma_replayed_push(policy: CleanupPolicy, s: Seq<MetadataRecord>, r: MetadataRecord)
    ensures
        replayed(policy, record_views(s.push(r))) == step(
            replayed(policy, record_views(s)),
            policy,
            r@,
            Seq::empty(),
        ),
{
    let v = record_views(s.push(r));
    assert(v.drop_last() =~= record_views(s));
    assert(v.last() == r@);
}

fn push_assignment(
    out: &mut Vec<MetadataRecord>,
    topic: &str,
    a: &PartitionAssignment,
    Ghost(policy): Ghost<CleanupPolicy>,
)
    requires
        replayed(policy, record_views(old(out)@)).topics.contains_key(topic@),
        !replayed(policy, record_views(old(out)@)).topics[topic@].partitions.contains_key(
            a.partition,
        ),
    ensures
        ({
            let m = replayed(policy, record_views(old(out)@));
            let t = m.topics[topic@];
            replayed(policy, record_views(final(out)@)) == (Metadata {
                topics: m.topics.insert(
                    topic@,
                    TopicView {
                        partitions: t.partitions.insert(a.partition, restored_assignment(a@)),
                        ..t
                    },
                ),
                ..m
            })
        }),
{
    let rec = MetadataRecord::PartitionLeadershipChange {
        topic: owned(topic),
        partition: a.partition,
        leader_id: a.leader_id,
        leader_epoch: a.leader_epoch,
        isr: copy_nodes(&a.isr),
        replicas: Some(copy_nodes(&a.replicas)),
    };
    proof {
        lemma_replayed_push(policy, out@, rec);
    }
    out.push(rec);
}

fn push_topic(
    out: &mut Vec<MetadataRecord>,
    t: &TopicConfig,
    Ghost(policy): Ghost<CleanupPolicy>,
)
    requires
        t.wf(),
    ensures
        ({
            let m = replayed(policy, record_views(old(out)@));
            replayed(policy, record_views(final(out)@)) == (Metadata {
                topics: m.topics.insert(t.topic@, restored_topic(t@, policy)),
                ..m
            })
        }),
{
    let ghost m = replayed(policy, record_views(out@));
    let ghost name = t.topic@;
    let rec = MetadataRecord::TopicCreated {
        topic: owned(t.topic.as_str()),
        num_partitions: t.num_partitions,
        replication_factor: t.replication_factor,
    };
    proof {
        lemma_replayed_push(policy, out@, rec);
    }
    out.push(rec);
    let ghost fresh = fresh_topic(t.num_partitions, t.replication_factor, policy);
    let ghost whole = restored_topic(t@, policy).partitions;
    let ghost mut done: Map<u32, AssignmentView> = Map::empty();
    for (k, a) in it: t.partitions.iter()
        invariant
            t.wf(),
            name == t.topic@,
            whole == restored_topic(t@, policy).partitions,
            it.seq() == vstd::std_specs::hash::spec_hash_map_iter(&t.partitions).remaining(),
            it.seq().no_duplicates(),
            forall|p: u32| #[trigger]
                done.contains_key(p) <==> exists|j: int|
                    0 <= j < it.index() && *(#[trigger] it.seq()[j]).0 == p,
            forall|p: u32| #[trigger]
                done.contains_key(p) ==> whole.contains_key(p) && done[p] == whole[p],
            replayed(policy, record_views(out@)) == (Metadata {
                topics: m.topics.insert(name, TopicView { partitions: done, ..fresh }),
                ..m
            }),
    {
        let ghost i = it.index() as int;
        let ghost seq = it.seq();
        proof {
            assert(t.partitions@.contains_key(*seq[i].0));
            assert(t.partitions@[*seq[i].0] == *seq[i].1);
            assert(a.partition == *k);
            if done.contains_key(*k) {
                let j = choose|j: int| 0 <= j < i && *(#[trigger] seq[j]).0 == *k;
                assert(t.partitions@[*seq[j].0] == *seq[j].1);
                assert(seq[j] == seq[i]);
                assert(false);
            }
        }
        push_assignment(out, t.topic.as_str(), a, Ghost(policy));
        proof {
            let before = done;
            done = done.insert(*k, restored_assignment(a@));
            assert(whole.contains_key(*k) && whole[*k] == restored_assignment(a@));
            assert(m.topics.insert(name, TopicView { partitions: before, ..fresh }).insert(
                name,
                TopicView { partitions: done, ..fresh },
            ) =~= m.topics.insert(name, TopicView { partitions: done, ..fresh }));
            assert forall|p: u32| #[trigger] done.contains_key(p) <==> exists|j: int|
                0 <= j < i + 1 && *(#[trigger] seq[j]).0 == p by {
                if p == *k {
                    assert(*seq[i].0 == p);
                } else if before.contains_key(p) {
                    let j = choose|j: int| 0 <= j < i && *(#[trigger] seq[j]).0 == p;
                    assert(0 <= j < i + 1 && *seq[j].0 == p);
                }
            }
        }
    }
    proof {
        let v = vstd::std_specs::hash::spec_hash_map_iter(&t.partitions).remaining();
        assert forall|p: u32| whole.contains_key(p) implies done.contains_key(p) by {
            assert(t.partitions@.contains_key(p));
            assert(v.contains((&p, &t.partitions@[p])));
            let j = choose|j: int| 0 <= j < v.len() && v[j] == (&p, &t.partitions@[p]);
            assert(*v[j].0 == p);
        }
        assert(done =~= whole);
    }
    if t.configs.len() > 0 {
        let rec = MetadataRecord::TopicConfigChanged {
            topic: owned(t.topic.as_str()),
            configs: list_configs(&t.configs),
        };
        proof {
            lemma_replayed_push(policy, out@, rec);
        }
        out.push(rec);
        proof {
            let middle = m.topics.insert(name, TopicView { partitions: done, ..fresh });
            assert(middle.insert(name, restored_topic(t@, policy)) =~= m.topics.insert(
                name,
                restored_topic(t@, policy),
            ));
        }
    } else {
        proof {
            assert(t@.configs =~= Map::<Seq<char>, Seq<char>>::empty());
            assert(restored_topic(t@, policy) == TopicView { partitions: done, ..fresh });
        }
    }
}

impl StorageEngine {
    fn push_brokers(&self, out: &mut Vec<MetadataRecord>, Ghost(policy): Ghost<CleanupPolicy>)
        requires
            self.wf(),
            replayed(policy, record_views(old(out)@)).brokers == Map::<u32, BrokerView>::empty(),
        ensures
            replayed(policy, record_views(final(out)@)) == (Metadata {
                brokers: restored_brokers(self@.brokers),
                ..replayed(policy, record_views(old(out)@))
            }),
    {
        let endpoints: Vec<(u32, String)> = self.brokers.broker_endpoints();
        let ghost m = replayed(policy, record_views(out@));
        let ghost whole = restored_brokers(self@.brokers);
        let mut i: usize = 0;
        while i < endpoints.len()
            invariant
                self.wf(),
                i <= endpoints.len(),
                whole == restored_brokers(self@.brokers),
                forall|i: int, j: int|
                    0 <= i < j < endpoints@.len() ==> endpoints@[i].0 < endpoints@[j].0,
                forall|i: int|
                    0 <= i < endpoints@.len() ==> address_of(
                        self@.brokers,
                        (#[trigger] endpoints@[i]).0,
                    ) == Some(endpoints@[i].1@),
                forall|id: u32| #[trigger]
                    replayed(policy, record_views(out@)).brokers.contains_key(id)
                        <==> exists|j: int| 0 <= j < i && (#[trigger] endpoints@[j]).0 == id,
                forall|id: u32| #[trigger]
                    replayed(policy, record_views(out@)).brokers.contains_key(id)
                        ==> whole.contains_key(id) && replayed(
                        policy,
                        record_views(out@),
                    ).brokers[id] == whole[id],
                replayed(policy, record_views(out@)) == (Metadata {
                    brokers: replayed(policy, record_views(out@)).brokers,
                    ..m
                }),
            decreases endpoints.len() - i,
        {
            let node_id: u32 = endpoints[i].0;
            let roles: Vec<ProcessRole> = match self.brokers.get_broker_roles(node_id) {
                Some(r) => r,
                None => Vec::new(),
            };
            assert(address_of(self@.brokers, endpoints@[i as int].0) == Some(
                endpoints@[i as int].1@,
            ));
            let ghost before = replayed(policy, record_views(out@));
            let rec = MetadataRecord::BrokerRegister {
                node_id,
                bind_addr: owned(endpoints[i].1.as_str()),
                roles,
            };
            proof {
                lemma_replayed_push(policy, out@, rec);
                if self@.brokers[node_id].roles is None {
                    assert(roles@ =~= Seq::empty());
                }
                assert(whole[node_id].roles == Some(roles_meant(roles@)));
            }
            out.push(rec);
            proof {
                let after = replayed(policy, record_views(out@));
                assert(after.brokers == before.brokers.insert(node_id, whole[node_id]));
                assert forall|id: u32| #[trigger] after.brokers.contains_key(id) <==> exists|j: int|
                    0 <= j < i + 1 && (#[trigger] endpoints@[j]).0 == id by {
                    if id == node_id {
                        assert(endpoints@[i as int].0 == id);
                    } else if before.brokers.contains_key(id) {
                        let j = choose|j: int| 0 <= j < i && (#[trigger] endpoints@[j]).0 == id;
                        assert(endpoints@[j].0 == id);
                    }
                }
            }
            i = i + 1;
        }
        proof {
            let last = replayed(policy, record_views(out@));
            assert forall|id: u32| whole.contains_key(id) implies last.brokers.contains_key(id) by {
                assert(address_of(self@.brokers, id) is Some);
            }
            assert(last.brokers =~= whole);
        }
    }

    fn push_topics(&self, out: &mut Vec<MetadataRecord>, Ghost(policy): Ghost<CleanupPolicy>)
        requires
            self.wf(),
            replayed(policy, record_views(old(out)@)).topics
                == Map::<Seq<char>, TopicView>::empty(),
        ensures
            replayed(policy, record_views(final(out)@)) == (Metadata {
                topics: self@.topics.map_values(|t: TopicView| restored_topic(t, policy)),
                ..replayed(policy, record_views(old(out)@))
            }),
    {
        let n: usize = self.topic_registry.topics.len();
        let ghost names = self.topic_registry.topics.names();
        let ghost m = replayed(policy, record_views(out@));
        let ghost whole = self@.topics.map_values(|t: TopicView| restored_topic(t, policy));
        let mut i: usize = 0;
        while i < n
            invariant
                self.wf(),
                names == self.topic_registry.topics.names(),
                names.no_duplicates(),
                i <= n == names.len(),
                whole == self@.topics.map_values(|t: TopicView| restored_topic(t, policy)),
                forall|j: int|
                    0 <= j < n ==> self.topic_registry.topics@.contains_key(#[trigger] names[j])
                        && self.topic_registry.topics@[names[j]]
                        == self.topic_registry.topics.values()[j],
                forall|k: Seq<char>| #[trigger]
                    replayed(policy, record_views(out@)).topics.contains_key(k) <==> names.take(
                        i as int,
                    ).contains(k),
                forall|k: Seq<char>| #[trigger]
                    replayed(policy, record_views(out@)).topics.contains_key(k)
                        ==> whole.contains_key(k) && replayed(policy, record_views(out@)).topics[k]
                        == whole[k],
                replayed(policy, record_views(out@)) == (Metadata {
                    topics: replayed(policy, record_views(out@)).topics,
                    ..m
                }),
            decreases n - i,
        {
            let t: &TopicConfig = self.topic_registry.topics.value_at(i);
            let ghost before = replayed(policy, record_views(out@));
            let ghost name = names[i as int];
            assert(t.topic@ == name && t.wf());
            push_topic(out, t, Ghost(policy));
            proof {
                let after = replayed(policy, record_views(out@));
                assert(after.topics == before.topics.insert(name, restored_topic(t@, policy)));
                assert(whole.contains_key(name) && whole[name] == restored_topic(t@, policy));
                let taken = names.take(i as int);
                let next = names.take(i + 1);
                assert(next =~= taken.push(name));
                assert forall|k: Seq<char>| next.contains(k) <==> taken.contains(k) || k == name by {
                    if taken.contains(k) {
                        let j = choose|j: int| 0 <= j < taken.len() && taken[j] == k;
                        assert(next[j] == k);
                    }
                    if k == name {
                        assert(next[i as int] == k);
                    }
                }
            }
            i = i + 1;
        }
        proof {
            assert(names.take(n as int) =~= names);
            let last = replayed(policy, record_views(out@));
            assert forall|k: Seq<char>| whole.contains_key(k) implies last.topics.contains_key(
                k,
            ) by {
                assert(self.topic_registry.topics@.contains_key(k));
                assert(names.contains(k));
            }
            assert(last.topics =~= whole);
        }
    }

    fn push_acls(&self, out: &mut Vec<MetadataRecord>, Ghost(policy): Ghost<CleanupPolicy>)
        requires
            self.wf(),
            replayed(policy, record_views(old(out)@)).acls == Set::<Rule>::empty(),
        ensures
            replayed(policy, record_views(final(out)@)) == (Metadata {
                acls: self@.acls,
                ..replayed(policy, record_views(old(out)@))
            }),
    {
        let everything = AclBinding {
            resource_type: 0,
            resource_name: String::new(),
            pattern_type: 0,
            principal: String::new(),
            host: String::new(),
            operation: 0,
            permission_type: 0,
        };
        let all: Vec<AclBinding> = self.acl.list_acls(&everything);
        let ghost rules = rules_of(all@);
        let ghost m = replayed(policy, record_views(out@));
        let mut i: usize = 0;
        while i < all.len()
            invariant
                i <= all.len(),
                rules == rules_of(all@),
                forall|x: Rule| #[trigger]
                    replayed(policy, record_views(out@)).acls.contains(x) <==> rules.take(
                        i as int,
                    ).contains(x),
                replayed(policy, record_views(out@)) == (Metadata {
                    acls: replayed(policy, record_views(out@)).acls,
                    ..m
                }),
            decreases all.len() - i,
        {
            let rec = MetadataRecord::AclCreated { binding: all[i].copy() };
            let ghost rule = all@[i as int]@;
            proof {
                lemma_replayed_push(policy, out@, rec);
                let taken = rules.take(i as int);
                let next = rules.take(i + 1);
                assert(next =~= taken.push(rule));
                assert forall|k: Rule| next.contains(k) <==> taken.contains(k) || k == rule by {
                    if taken.contains(k) {
                        let j = choose|j: int| 0 <= j < taken.len() && taken[j] == k;
                        assert(next[j] == k);
                    }
                    if k == rule {
                        assert(next[i as int] == k);
                    }
                }
            }
            out.push(rec);
            i = i + 1;
        }
        proof {
            assert(rules.take(i as int) =~= rules);
            let last = replayed(policy, record_views(out@));
            assert forall|x: Rule| last.acls.contains(x) <==> self@.acls.contains(x) by {
                assert(rules.contains(x) <==> self.acl@.contains(x));
            }
            assert(last.acls =~= self@.acls);
        }
    }

    fn push_credentials(&self, out: &mut Vec<MetadataRecord>, Ghost(policy): Ghost<CleanupPolicy>)
        requires
            self.wf(),
            replayed(policy, record_views(old(out)@)).credentials == CredentialMap::empty(),
        ensures
            replayed(policy, record_views(final(out)@)) == (Metadata {
                credentials: self@.credentials,
                ..replayed(policy, record_views(old(out)@))
            }),
    {
        let store: &CredentialStore = &self.scram_credentials;
        let n: usize = store.credentials.len();
        let ghost names = store.credentials.names();
        let ghost values = store.credentials.values();
        let ghost whole = self@.credentials;
        let ghost m = replayed(policy, record_views(out@));
        let mut i: usize = 0;
        while i < n
            invariant
                store.wf(),
                whole == store@,
                names == store.credentials.names(),
                values == store.credentials.values(),
                i <= n == names.len(),
                n == values.len(),
                forall|j: int|
                    0 <= j < n ==> store.credentials@.contains_key(#[trigger] names[j])
                        && store.credentials@[names[j]] == values[j],
                forall|k: (Seq<char>, ScramMechanism)| #[trigger]
                    replayed(policy, record_views(out@)).credentials.contains_key(k)
                        ==> whole.contains_key(k) && replayed(
                        policy,
                        record_views(out@),
                    ).credentials[k] == whole[k],
                forall|j: int|
                    0 <= j < i ==> replayed(
                        policy,
                        record_views(out@),
                    ).credentials.contains_key(
                        ((#[trigger] values[j]).username@, values[j].mechanism),
                    ),
                replayed(policy, record_views(out@)) == (Metadata {
                    credentials: replayed(policy, record_views(out@)).credentials,
                    ..m
                }),
            decreases n - i,
        {
            let c = store.credentials.value_at(i);
            proof {
                assert(store.credentials@.contains_key(names[i as int]));
                assert(whole.contains_key((c.username@, c.mechanism)));
                assert(whole[(c.username@, c.mechanism)] == c@);
            }
            let rec = MetadataRecord::ScramCredentialUpsert { credential: c.copy() };
            proof {
                lemma_replayed_push(policy, out@, rec);
            }
            out.push(rec);
            i = i + 1;
        }
        proof {
            let last = replayed(policy, record_views(out@));
            assert forall|k: (Seq<char>, ScramMechanism)| whole.contains_key(
                k,
            ) implies last.credentials.contains_key(k) by {
                let name = crate::engine::credentials::credential_name(k.0, k.1);
                assert(names.contains(name));
                let j = choose|j: int| 0 <= j < names.len() && names[j] == name;
                assert(store.credentials@.contains_key(names[j]));
                let c = values[j];
                crate::keys::numbered_key_is_injective(
                    k.1.number(),
                    k.0,
                    c.mechanism.number(),
                    c.username@,
                );
                assert((c.username@, c.mechanism) == k);
            }
            assert(last.credentials =~= whole);
        }
    }

    fn push_producers(&self, out: &mut Vec<MetadataRecord>, Ghost(policy): Ghost<CleanupPolicy>)
        requires
            self.wf(),
            replayed(policy, record_views(old(out)@)).producers
                == Map::<Seq<char>, TransactionalProducerState>::empty(),
        ensures
            replayed(policy, record_views(final(out)@)) == (Metadata {
                producers: self@.producers,
                ..replayed(policy, record_views(old(out)@))
            }),
    {
        let all: Vec<(String, u64, i16)> = self.transactions.all_transactional_producers();
        let ghost whole = self@.producers;
        let ghost m = replayed(policy, record_views(out@));
        let mut i: usize = 0;
        while i < all.len()
            invariant
                i <= all.len(),
                forall|j: int|
                    0 <= j < all@.len() ==> whole.contains_key((#[trigger] all@[j]).0@)
                        && whole[all@[j].0@] == (TransactionalProducerState {
                        producer_id: all@[j].1,
                        producer_epoch: all@[j].2,
                    }),
                forall|k: Seq<char>| #[trigger]
                    replayed(policy, record_views(out@)).producers.contains_key(k)
                        ==> whole.contains_key(k) && replayed(
                        policy,
                        record_views(out@),
                    ).producers[k] == whole[k],
                forall|j: int|
                    0 <= j < i ==> replayed(policy, record_views(out@)).producers.contains_key(
                        (#[trigger] all@[j]).0@,
                    ),
                replayed(policy, record_views(out@)) == (Metadata {
                    producers: replayed(policy, record_views(out@)).producers,
                    ..m
                }),
            decreases all.len() - i,
        {
            let rec = MetadataRecord::TransactionalProducerRegistration {
                transactional_id: owned(all[i].0.as_str()),
                producer_id: all[i].1,
                producer_epoch: all[i].2,
            };
            proof {
                lemma_replayed_push(policy, out@, rec);
                assert(whole.contains_key(all@[i as int].0@));
            }
            out.push(rec);
            i = i + 1;
        }
        proof {
            let last = replayed(policy, record_views(out@));
            assert forall|k: Seq<char>| whole.contains_key(k) implies last.producers.contains_key(
                k,
            ) by {
                assert(self.transactions.producers().contains_key(k));
                let j = choose|j: int| 0 <= j < all@.len() && (#[trigger] all@[j]).0@ == k;
                assert(last.producers.contains_key(all@[j].0@));
            }
            assert(last.producers =~= whole);
        }
    }

    /// The records that restore the metadata of this broker. Replayed on nothing they give what
    /// it has now, except for what no record says.
    pub fn build_metadata_snapshot_records(&self) -> (r: Vec<MetadataRecord>)
        requires
            self.wf(),
        ensures
            replayed(self.config.cleanup_policy, record_views(r@)) == restored(
                metadata(self@),
                self.config.cleanup_policy,
            ),
    {
        let mut out: Vec<MetadataRecord> = Vec::new();
        let ghost policy = self.config.cleanup_policy;
        assert(record_views(out@) =~= Seq::empty());
        self.push_brokers(&mut out, Ghost(policy));
        self.push_topics(&mut out, Ghost(policy));
        self.push_acls(&mut out, Ghost(policy));
        self.push_credentials(&mut out, Ghost(policy));
        self.push_producers(&mut out, Ghost(policy));
        out
    }
}

/// How many records have to be new for a snapshot to be worth its while.
pub const MIN_NEW_RECORDS_FOR_SNAPSHOT: u64 = 500;

/// Whether it is time for a snapshot, where the log ends at `log_end` and the last snapshot was
/// taken at `last_snapshot`, or at 0 if there is none.
pub fn snapshot_metadata_if_needed(log_end: u64, last_snapshot: u64) -> (r: bool)
    ensures
        r == (log_end - last_snapshot >= MIN_NEW_RECORDS_FOR_SNAPSHOT),
{
    log_end > last_snapshot && log_end - last_snapshot >= MIN_NEW_RECORDS_FOR_SNAPSHOT
}

/// Byte strings, as values.
pub open spec fn frame_views(s: Seq<Vec<u8>>) -> Seq<Seq<u8>> {
    s.map_values(|f: Vec<u8>| f@)
}

/// Frames one behind the other, each with its length in front.
pub open spec fn framed(s: Seq<Seq<u8>>) -> Seq<u8>
    decreases s.len(),
{
    if s.len() == 0 {
        Seq::empty()
    } else {
        framed(s.drop_last()) + be(s.last().len() as int, 4) + s.last()
    }
}

/// The bytes of a snapshot: its offset, the number of records, and the records.
pub open spec fn snapshot_bytes(offset: u64, s: Seq<Seq<u8>>) -> Seq<u8> {
    be(offset as int, 8) + be(s.len() as int, 4) + framed(s)
}

/// The frames that stand in `b`, `n` at most. A frame that is cut off ends them.
pub open spec fn frames_in(b: Seq<u8>, n: nat) -> Seq<Seq<u8>>
    decreases n,
{
    if n == 0 || b.len() < 4 {
        Seq::empty()
    } else {
        let len = number(b.take(4));
        let rest = b.skip(4);
        if rest.len() < len {
            Seq::empty()
        } else {
            seq![rest.take(len)] + frames_in(rest.skip(len), (n - 1) as nat)
        }
    }
}

/// Writes a snapshot. The frames are the encoded records.
pub fn write_metadata_snapshot(snapshot_offset: u64, records: &[Vec<u8>]) -> (r: Vec<u8>)
    requires
        records@.len() < 0x1_0000_0000,
        forall|i: int| 0 <= i < records@.len() ==> (#[trigger] records@[i])@.len() < 0x1_0000_0000,
    ensures
        r@ == snapshot_bytes(snapshot_offset, frame_views(records@)),
{
    let mut out: Vec<u8> = Vec::new();
    put_u64(&mut out, snapshot_offset);
    put_u32(&mut out, records.len() as u32);
    let ghost head = out@;
    let ghost all = frame_views(records@);
    assert(head =~= be(snapshot_offset as int, 8) + be(all.len() as int, 4));
    assert(framed(all.take(0)) =~= Seq::empty());
    let mut i: usize = 0;
    while i < records.len()
        invariant
            i <= records.len(),
            all == frame_views(records@),
            forall|i: int|
                0 <= i < records@.len() ==> (#[trigger] records@[i])@.len() < 0x1_0000_0000,
            out@ == head + framed(all.take(i as int)),
        decreases records.len() - i,
    {
        let frame: &Vec<u8> = &records[i];
        let ghost before = out@;
        put_u32(&mut out, frame.len() as u32);
        put_bytes(&mut out, frame.as_slice());
        proof {
            let next = all.take(i + 1);
            assert(next.drop_last() =~= all.take(i as int));
            assert(next.last() == frame@);
            assert(out@ =~= head + framed(next));
        }
        i = i + 1;
    }
    assert(all.take(i as int) =~= all);
    assert(out@ =~= snapshot_bytes(snapshot_offset, all));
    out
}

/// Reads a snapshot: its offset and its frames. Less than a header is no snapshot.
pub fn read_metadata_snapshot(buf: &[u8]) -> (r: Option<(u64, Vec<Vec<u8>>)>)
    ensures
        match r {
            None => buf@.len() < 12,
            Some((offset, frames)) => buf@.len() >= 12 && offset == number(buf@.take(8))
                && frame_views(frames@) == frames_in(
                buf@.skip(12),
                number(buf@.subrange(8, 12)) as nat,
            ),
        },
{
    if buf.len() < 12 {
        return None;
    }
    let offset: u64 = get_be(buf, 0, 8);
    let count: u64 = get_be(buf, 8, 4);
    let mut frames: Vec<Vec<u8>> = Vec::new();
    let mut at: usize = 12;
    let mut left: u64 = count;
    let ghost whole = frames_in(buf@.skip(12), count as nat);
    assert(buf@.subrange(0, 8) =~= buf@.take(8));
    assert(frame_views(frames@) =~= Seq::empty());
    assert(frame_views(frames@) + frames_in(buf@.skip(12), count as nat) =~= whole);
    while left > 0
        invariant
            12 <= at <= buf.len(),
            whole == frame_views(frames@) + frames_in(buf@.skip(at as int), left as nat),
            left == 0 ==> frame_views(frames@) == whole,
        ensures
            frame_views(frames@) == whole,
        decreases left,
    {
        let ghost rest = buf@.skip(at as int);
        if buf.len() - at < 4 {
            assert(frame_views(frames@) =~= whole);
            break ;
        }
        let len: u64 = get_be(buf, at, 4);
        assert(buf@.subrange(at as int, at + 4) =~= rest.take(4));
        if ((buf.len() - at - 4) as u64) < len {
            assert(frame_views(frames@) =~= whole);
            break ;
        }
        let start: usize = at + 4;
        let frame: Vec<u8> = part(buf, start, start + len as usize);
        let ghost before = frame_views(frames@);
        proof {
            assert(frame@ =~= rest.skip(4).take(len as int));
            assert(rest.skip(4).skip(len as int) =~= buf@.skip(start + len));
        }
        frames.push(frame);
        at = start + len as usize;
        left = left - 1;
        proof {
            assert(frame_views(frames@) =~= before.push(frame@));
            assert(before + (seq![frame@] + frames_in(buf@.skip(at as int), left as nat))
                =~= before.push(frame@) + frames_in(buf@.skip(at as int), left as nat));
            if left == 0 {
                assert(frame_views(frames@) =~= whole);
            }
        }
    }
    Some((offset, frames))
}

} // verus!
