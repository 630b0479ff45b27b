//! The records of the cluster's metadata log, and what they make of a broker.
use crate::acl::{AclBinding, Rule};
use crate::engine::brokers::{roles_meant, BrokerView, ProcessRole};
use crate::engine::configs::{collect_configs, collected, configured, pair_views};
use crate::engine::credentials::{
    CredentialMap, CredentialView, ScramCredential, ScramMechanism,
};
use crate::engine::state::{
    as_registered, open_fault, Access, EngineConfig, EngineView, StorageEngine,
};
use crate::engine::table::{topic_mapped, without_topic};
use crate::engine::topics::{
    copy_nodes, fresh_topic, AssignmentView, PartitionAssignment, TopicConfig, TopicView,
};
use crate::partition::{CleanupPolicy, PartitionManager, PartitionView};
use crate::placement::holds_u32;
use crate::text::owned;
use crate::transaction::manager::TransactionalProducerState;
use vstd::prelude::*;
use vstd::string::*;

verus! {

/// A change of the cluster's metadata.
pub enum MetadataRecord {
    TopicPartition { topic: String, partition: u32 },
    TopicCreated { topic: String, num_partitions: u32, replication_factor: u16 },
    PartitionLeadershipChange {
        topic: String,
        partition: u32,
        leader_id: u32,
        leader_epoch: u32,
        isr: Vec<u32>,
        /// Who replicates the partition, where the record settles that.
        replicas: Option<Vec<u32>>,
    },
    BrokerRegister { node_id: u32, bind_addr: String, roles: Vec<ProcessRole> },
    BrokerUnregister { node_id: u32 },
    TopicDeleted { topic: String },
    AclCreated { binding: AclBinding },
    AclDeleted { binding: AclBinding },
    ScramCredentialUpsert { credential: ScramCredential },
    ScramCredentialDelete { username: String },
    TransactionalProducerRegistration {
        transactional_id: String,
        producer_id: u64,
        producer_epoch: i16,
    },
    TopicConfigChanged { topic: String, configs: Vec<(String, String)> },
}

/// A record, as values.
pub enum RecordView {
    TopicPartition { topic: Seq<char>, partition: u32 },
    TopicCreated { topic: Seq<char>, num_partitions: u32, replication_factor: u16 },
    PartitionLeadershipChange {
        topic: Seq<char>,
        partition: u32,
        leader_id: u32,
        leader_epoch: u32,
        isr: Seq<u32>,
        replicas: Option<Seq<u32>>,
    },
    BrokerRegister { node_id: u32, bind_addr: Seq<char>, roles: Seq<ProcessRole> },
    BrokerUnregister { node_id: u32 },
    TopicDeleted { topic: Seq<char> },
    AclCreated { binding: Rule },
    AclDeleted { binding: Rule },
    ScramCredentialUpsert { credential: CredentialView },
    ScramCredentialDelete { username: Seq<char> },
    TransactionalProducerRegistration {
        transactional_id: Seq<char>,
        producer_id: u64,
        producer_epoch: i16,
    },
    TopicConfigChanged { topic: Seq<char>, configs: Seq<(Seq<char>, Seq<char>)> },
}

impl MetadataRecord {
    pub open spec fn view(self) -> RecordView {
        match self {
            MetadataRecord::TopicPartition { topic, partition } => RecordView::TopicPartition {
                topic: topic@,
                partition,
            },
            MetadataRecord::TopicCreated { topic, num_partitions, replication_factor } =>
                RecordView::TopicCreated { topic: topic@, num_partitions, replication_factor },
            MetadataRecord::PartitionLeadershipChange {
                topic,
                partition,
                leader_id,
                leader_epoch,
                isr,
                replicas,
            } => RecordView::PartitionLeadershipChange {
                topic: topic@,
                partition,
                leader_id,
                leader_epoch,
                isr: isr@,
                replicas: match replicas {
                    Some(r) => Some(r@),
                    None => None,
                },
            },
            MetadataRecord::BrokerRegister { node_id, bind_addr, roles } =>
                RecordView::BrokerRegister { node_id, bind_addr: bind_addr@, roles: roles@ },
            MetadataRecord::BrokerUnregister { node_id } => RecordView::BrokerUnregister {
                node_id,
            },
            MetadataRecord::TopicDeleted { topic } => RecordView::TopicDeleted { topic: topic@ },
            MetadataRecord::AclCreated { binding } => RecordView::AclCreated { binding: binding@ },
            MetadataRecord::AclDeleted { binding } => RecordView::AclDeleted { binding: binding@ },
            MetadataRecord::ScramCredentialUpsert { credential } =>
                RecordView::ScramCredentialUpsert { credential: credential@ },
            MetadataRecord::ScramCredentialDelete { username } =>
                RecordView::ScramCredentialDelete { username: username@ },
            MetadataRecord::TransactionalProducerRegistration {
                transactional_id,
                producer_id,
                producer_epoch,
            } => RecordView::TransactionalProducerRegistration {
                transactional_id: transactional_id@,
                producer_id,
                producer_epoch,
            },
            MetadataRecord::TopicConfigChanged { topic, configs } =>
                RecordView::TopicConfigChanged { topic: topic@, configs: pair_views(configs@) },
        }
    }
}

/// What the records alone determine.
pub struct Metadata {
    pub topics: Map<Seq<char>, TopicView>,
    pub brokers: Map<u32, BrokerView>,
    pub acls: Set<Rule>,
    pub credentials: CredentialMap,
    pub producers: Map<Seq<char>, TransactionalProducerState>,
}

/// What the records alone determined of a broker.
pub open spec fn metadata(v: EngineView) -> Metadata {
    Metadata {
        topics: v.topics,
        brokers: v.brokers,
        acls: v.acls,
        credentials: v.credentials,
        producers: v.producers,
    }
}

/// `base` with the nodes of `isr` that it lacks behind it.
pub open spec fn widened(base: Seq<u32>, isr: Seq<u32>) -> Seq<u32>
    decreases isr.len(),
{
    if isr.len() == 0 {
        base
    } else {
        let before = widened(base, isr.drop_last());
        if before.contains(isr.last()) {
            before
        } else {
            before.push(isr.last())
        }
    }
}

/// Who replicates a partition after a change of its leadership: whom the record names, else
/// whom the metadata named before, else whom the open partition names, else who is in sync. A
/// node in sync is added if it is not among them.
pub open spec fn roster(
    m: Metadata,
    topic: Seq<char>,
    partition: u32,
    replicas: Option<Seq<u32>>,
    open_replicas: Seq<u32>,
    isr: Seq<u32>,
) -> Seq<u32> {
    let base = if replicas is Some && replicas->0.len() > 0 {
        replicas->0
    } else if m.topics.contains_key(topic) && m.topics[topic].partitions.contains_key(partition)
        && m.topics[topic].partitions[partition].replicas.len() > 0 {
        m.topics[topic].partitions[partition].replicas
    } else if open_replicas.len() > 0 {
        open_replicas
    } else {
        isr
    };
    widened(base, isr)
}

/// What a record makes of the metadata. `policy` is the clean-up policy of a new topic, and
/// `open_replicas` are the replicas that the open partition names, if the record is about one.
pub open spec fn step(
    m: Metadata,
    policy: CleanupPolicy,
    rec: RecordView,
    open_replicas: Seq<u32>,
) -> Metadata {
    match rec {
        RecordView::TopicPartition { .. } => m,
        RecordView::TopicCreated { topic, num_partitions, replication_factor } => Metadata {
            topics: m.topics.insert(topic, fresh_topic(num_partitions, replication_factor, policy)),
            ..m
        },
        RecordView::PartitionLeadershipChange {
            topic,
            partition,
            leader_id,
            leader_epoch,
            isr,
            replicas,
        } => if m.topics.contains_key(topic) {
            let a = AssignmentView {
                leader_id,
                leader_epoch,
                replicas: roster(m, topic, partition, replicas, open_replicas, isr),
                isr,
            };
            Metadata {
                topics: m.topics.insert(
                    topic,
                    TopicView {
                        partitions: m.topics[topic].partitions.insert(partition, a),
                        ..m.topics[topic]
                    },
                ),
                ..m
            }
        } else {
            m
        },
        RecordView::BrokerRegister { node_id, bind_addr, roles } => Metadata {
            brokers: m.brokers.insert(
                node_id,
                BrokerView { addr: Some(bind_addr), roles: Some(roles_meant(roles)) },
            ),
            ..m
        },
        RecordView::BrokerUnregister { node_id } => Metadata {
            brokers: m.brokers.remove(node_id),
            ..m
        },
        RecordView::TopicDeleted { topic } => Metadata { topics: m.topics.remove(topic), ..m },
        RecordView::AclCreated { binding } => Metadata { acls: m.acls.insert(binding), ..m },
        RecordView::AclDeleted { binding } => Metadata { acls: m.acls.remove(binding), ..m },
        RecordView::ScramCredentialUpsert { credential } => Metadata {
            credentials: m.credentials.insert(
                (credential.username, credential.mechanism),
                credential,
            ),
            ..m
        },
        RecordView::ScramCredentialDelete { username } => Metadata {
            credentials: m.credentials.remove((username, ScramMechanism::Sha256)).remove(
                (username, ScramMechanism::Sha512),
            ),
            ..m
        },
        RecordView::TransactionalProducerRegistration {
            transactional_id,
            producer_id,
            producer_epoch,
        } => Metadata {
            producers: m.producers.insert(
                transactional_id,
                TransactionalProducerState { producer_id, producer_epoch },
            ),
            ..m
        },
        RecordView::TopicConfigChanged { topic, configs } => if m.topics.contains_key(topic) {
            Metadata {
                topics: m.topics.insert(
                    topic,
                    TopicView { configs: collected(configs), ..m.topics[topic] },
                ),
                ..m
            }
        } else {
            m
        },
    }
}

/// The replicas that the open partition names.
pub open spec fn open_replicas(v: EngineView, topic: Seq<char>, partition: u32) -> Seq<u32> {
    if v.partitions.contains_key((topic, partition)) {
        v.partitions[(topic, partition)].replicas
    } else {
        Seq::empty()
    }
}

/// The replicas that the open partition names, of the one that a record is about.
pub open spec fn named_replicas(v: EngineView, rec: RecordView) -> Seq<u32> {
    match rec {
        RecordView::PartitionLeadershipChange { topic, partition, .. } => open_replicas(
            v,
            topic,
            partition,
        ),
        _ => Seq::empty(),
    }
}

/// The partition that has to be open for a record to take full effect.
pub open spec fn needed(rec: RecordView) -> Option<(Seq<char>, u32)> {
    match rec {
        RecordView::TopicPartition { topic, partition } => Some((topic, partition)),
        RecordView::PartitionLeadershipChange { topic, partition, .. } => Some((topic, partition)),
        _ => None,
    }
}

/// A broker with the metadata `m`, and with the needed partition opened, if it may be and
/// its log was: `opened` is what the log gave.
pub open spec fn with_opened(
    v: EngineView,
    c: EngineConfig,
    key: (Seq<char>, u32),
    opened: Option<PartitionView>,
) -> EngineView {
    if open_fault(v, c, key.0, key.1) is None && !v.partitions.contains_key(key) && opened is Some {
        EngineView { partitions: v.partitions.insert(key, as_registered(v, opened->0)), ..v }
    } else {
        v
    }
}

/// What a record at an offset of the metadata log makes of a broker.
pub open spec fn applied(
    v: EngineView,
    c: EngineConfig,
    offset: u64,
    rec: RecordView,
    opened: Option<PartitionView>,
) -> EngineView {
    let m = step(metadata(v), c.cleanup_policy, rec, named_replicas(v, rec));
    let w = EngineView {
        topics: m.topics,
        brokers: m.brokers,
        acls: m.acls,
        credentials: m.credentials,
        producers: m.producers,
        log_index: (offset + 1) as u64,
        ..v
    };
    match rec {
        RecordView::TopicPartition { topic, partition } => with_opened(
            w,
            c,
            (topic, partition),
            opened,
        ),
        RecordView::PartitionLeadershipChange {
            topic,
            partition,
            leader_id,
            leader_epoch,
            isr,
            replicas,
        } => {
            let x = with_opened(w, c, (topic, partition), opened);
            if open_fault(w, c, topic, partition) is None && x.partitions.contains_key(
                (topic, partition),
            ) {
                EngineView {
                    partitions: x.partitions.insert(
                        (topic, partition),
                        PartitionView {
                            leader_id,
                            leader_epoch,
                            replicas: roster(
                                metadata(v),
                                topic,
                                partition,
                                replicas,
                                open_replicas(v, topic, partition),
                                isr,
                            ),
                            isr,
                            ..x.partitions[(topic, partition)]
                        },
                    ),
                    ..x
                }
            } else {
                x
            }
        },
        RecordView::TopicDeleted { topic } => EngineView {
            deleting: w.deleting.insert(topic),
            partitions: without_topic(w.partitions, topic),
            ..w
        },
        RecordView::TransactionalProducerRegistration { producer_id, .. } => EngineView {
            next_producer_id: if producer_id == u64::MAX {
                u64::MAX
            } else if w.next_producer_id <= producer_id {
                (producer_id + 1) as u64
            } else {
                w.next_producer_id
            },
            ..w
        },
        RecordView::TopicConfigChanged { topic, configs } => EngineView {
            partitions: topic_mapped(
                w.partitions,
                topic,
                |p: PartitionView| configured(p, collected(configs)),
            ),
            ..w
        },
        _ => w,
    }
}

/// Adds the nodes of `isr` that `base` lacks.
fn widen(base: Vec<u32>, isr: &Vec<u32>) -> (r: Vec<u32>)
    ensures
        r@ == widened(base@, isr@),
{
    let mut out: Vec<u32> = base;
    let mut i: usize = 0;
    while i < isr.len()
        invariant
            i <= isr.len(),
            out@ == widened(base@, isr@.take(i as int)),
        decreases isr.len() - i,
    {
        proof {
            assert(isr@.take(i + 1).drop_last() =~= isr@.take(i as int));
            assert(isr@.take(i + 1).last() == isr@[i as int]);
        }
        if !holds_u32(out.as_slice(), isr[i]) {
            out.push(isr[i]);
        }
        i = i + 1;
    }
    assert(isr@.take(i as int) =~= isr@);
    out
}

impl StorageEngine {
    /// The partition whose log has to be opened before a record is applied, if there is one
    /// and it may be.
    pub fn partition_to_open(&self, rec: &MetadataRecord) -> (r: Option<(String, u32)>)
        requires
            self.wf(),
        ensures
            match r {
                Some((t, p)) => needed(rec@) == Some((t@, p)) && !self@.partitions.contains_key(
                    (t@, p),
                ) && open_fault(self@, self.config, t@, p) is None,
                None => match needed(rec@) {
                    Some(k) => self@.partitions.contains_key(k) || open_fault(
                        self@,
                        self.config,
                        k.0,
                        k.1,
                    ) is Some,
                    None => true,
                },
            },
    {
        let (topic, partition): (&String, u32) = match rec {
            MetadataRecord::TopicPartition { topic, partition } => (topic, *partition),
            MetadataRecord::PartitionLeadershipChange { topic, partition, .. } => (
                topic,
                *partition,
            ),
            _ => {
                return None;
            },
        };
        match self.get_or_create_partition(topic.as_str(), partition) {
            Ok(Access::Open) => Some((owned(topic.as_str()), partition)),
            _ => None,
        }
    }

    /// Uses a partition that may be used, opened or not.
    fn use_partition(
        &mut self,
        topic: &str,
        partition: u32,
        opened: Option<PartitionManager>,
    ) -> (ok: bool)
        requires
            old(self).wf(),
            opened matches Some(p) ==> p@.key() == (topic@, partition),
        ensures
            final(self).wf(),
            final(self).same_node(*old(self)),
            ok == (open_fault(old(self)@, old(self).config, topic@, partition) is None
                && final(self)@.partitions.contains_key((topic@, partition))),
            final(self)@ == with_opened(
                old(self)@,
                old(self).config,
                (topic@, partition),
                match opened {
                    Some(p) => Some(p@),
                    None => None,
                },
            ),
    {
        match self.get_or_create_partition(topic, partition) {
            Ok(Access::Ready) => true,
            Ok(Access::Open) => match opened {
                Some(p) => {
                    self.take_partition(p);
                    true
                },
                None => false,
            },
            Err(_) => false,
        }
    }

    fn known_replicas(
        &self,
        topic: &str,
        partition: u32,
        replicas: Option<Vec<u32>>,
        isr: &Vec<u32>,
    ) -> (r: Vec<u32>)
        requires
            self.wf(),
        ensures
            r@ == roster(
                metadata(self@),
                topic@,
                partition,
                match replicas {
                    Some(x) => Some(x@),
                    None => None,
                },
                open_replicas(self@, topic@, partition),
                isr@,
            ),
    {
        match replicas {
            Some(x) => {
                if x.len() > 0 {
                    return widen(x, isr);
                }
            },
            None => {},
        }
        match self.topic_registry.get(topic) {
            Some(t) => match t.assignment(partition) {
                Some(a) => {
                    if a.replicas.len() > 0 {
                        return widen(copy_nodes(&a.replicas), isr);
                    }
                },
                None => {},
            },
            None => {},
        }
        match self.partitions.get(topic, partition) {
            Some(p) => {
                if p.replicas.len() > 0 {
                    return widen(copy_nodes(&p.replicas), isr);
                }
            },
            None => {},
        }
        widen(copy_nodes(isr), isr)
    }

    /// Changes who leads a partition and who is in sync.
    fn change_leadership(
        &mut self,
        topic: String,
        partition: u32,
        leader_id: u32,
        leader_epoch: u32,
        isr: Vec<u32>,
        replicas: Option<Vec<u32>>,
        opened: Option<PartitionManager>,
    )
        requires
            old(self).wf(),
            old(self)@.log_index > 0,
            opened matches Some(p) ==> p@.key() == (topic@, partition),
        ensures
            final(self).wf(),
            final(self).same_node(*old(self)),
            final(self)@ == applied(
                old(self)@,
                old(self).config,
                (old(self)@.log_index - 1) as u64,
                RecordView::PartitionLeadershipChange {
                    topic: topic@,
                    partition,
                    leader_id,
                    leader_epoch,
                    isr: isr@,
                    replicas: match replicas {
                        Some(x) => Some(x@),
                        None => None,
                    },
                },
                match opened {
                    Some(p) => Some(p@),
                    None => None,
                },
            ),
    {
        let roster: Vec<u32> = self.known_replicas(topic.as_str(), partition, replicas, &isr);
        let assignment = PartitionAssignment {
            partition,
            leader_id,
            leader_epoch,
            replicas: copy_nodes(&roster),
            isr: copy_nodes(&isr),
        };
        self.topic_registry.assign(topic.as_str(), assignment);
        if self.use_partition(topic.as_str(), partition, opened) {
            self.partitions.update_leadership(
                topic.as_str(),
                partition,
                leader_id,
                leader_epoch,
                roster,
                isr,
            );
        }
    }

    /// Applies a record of the metadata log. `opened` is the partition that had to be opened
    /// for it, if its log could be. A topic that a record deletes stays marked until
    /// `finish_topic_deletion`.
    pub fn apply_metadata_record(
        &mut self,
        offset: u64,
        rec: MetadataRecord,
        opened: Option<PartitionManager>,
    )
        requires
            old(self).wf(),
            offset < u64::MAX,
            opened matches Some(p) ==> needed(rec@) == Some(p@.key()),
        ensures
            final(self).wf(),
            final(self).same_node(*old(self)),
            final(self)@ == applied(
                old(self)@,
                old(self).config,
                offset,
                rec@,
                match opened {
                    Some(p) => Some(p@),
                    None => None,
                },
            ),
    {
        self.role.metadata_log_index = offset + 1;
        match rec {
            MetadataRecord::TopicPartition { topic, partition } => {
                let _ = self.use_partition(topic.as_str(), partition, opened);
            },
            MetadataRecord::TopicCreated { topic, num_partitions, replication_factor } => {
                let policy: CleanupPolicy = self.config.cleanup_policy;
                self.topic_registry.insert(
                    TopicConfig::new(topic, num_partitions, replication_factor, policy),
                );
            },
            MetadataRecord::PartitionLeadershipChange {
                topic,
                partition,
                leader_id,
                leader_epoch,
                isr,
                replicas,
            } => {
                self.change_leadership(
                    topic,
                    partition,
                    leader_id,
                    leader_epoch,
                    isr,
                    replicas,
                    opened,
                );
            },
            MetadataRecord::BrokerRegister { node_id, bind_addr, roles } => {
                self.brokers.register_broker_address(node_id, bind_addr);
                self.brokers.register_broker_roles(node_id, roles);
                assert(self@.brokers =~= old(self)@.brokers.insert(
                    node_id,
                    BrokerView { addr: Some(bind_addr@), roles: Some(roles_meant(roles@)) },
                ));
            },
            MetadataRecord::BrokerUnregister { node_id } => {
                self.brokers.unregister_broker_address(node_id);
            },
            MetadataRecord::TopicDeleted { topic } => {
                self.apply_topic_deletion(topic.as_str());
            },
            MetadataRecord::AclCreated { binding } => {
                let _ = self.acl.add_acl(binding);
            },
            MetadataRecord::AclDeleted { binding } => {
                let _ = self.acl.remove_acl(&binding);
            },
            MetadataRecord::ScramCredentialUpsert { credential } => {
                self.scram_credentials.apply_scram_credential_state(credential);
            },
            MetadataRecord::ScramCredentialDelete { username } => {
                self.scram_credentials.remove_scram_credential_state(username.as_str());
            },
            MetadataRecord::TransactionalProducerRegistration {
                transactional_id,
                producer_id,
                producer_epoch,
            } => {
                self.transactions.restore_transactional_producer(
                    transactional_id.as_str(),
                    producer_id,
                    producer_epoch,
                );
            },
            MetadataRecord::TopicConfigChanged { topic, configs } => {
                self.apply_topic_config_change(topic.as_str(), configs);
            },
        }
    }

    /// Replaces a topic's settings, and puts its open partitions under them.
    pub fn apply_topic_config_change(&mut self, topic: &str, configs: Vec<(String, String)>)
        requires
            old(self).wf(),
        ensures
            final(self).wf(),
            final(self).same_node(*old(self)),
            final(self)@ == (EngineView {
                topics: if old(self)@.topics.contains_key(topic@) {
                    old(self)@.topics.insert(
                        topic@,
                        TopicView {
                            configs: collected(pair_views(configs@)),
                            ..old(self)@.topics[topic@]
                        },
                    )
                } else {
                    old(self)@.topics
                },
                partitions: topic_mapped(
                    old(self)@.partitions,
                    topic@,
                    |p: PartitionView| configured(p, collected(pair_views(configs@))),
                ),
                ..old(self)@
            }),
    {
        let map = collect_configs(configs.as_slice());
        self.partitions.configure_topic(topic, &map);
        self.topic_registry.set_configs(topic, map);
    }

    /// Sets a topic's clean-up policy, and that of its open partitions.
    pub fn set_topic_cleanup_policy(&mut self, topic: &str, policy: CleanupPolicy)
        requires
            old(self).wf(),
        ensures
            final(self).wf(),
            final(self).same_node(*old(self)),
            final(self)@ == (EngineView {
                topics: if old(self)@.topics.contains_key(topic@) {
                    old(self)@.topics.insert(
                        topic@,
                        TopicView { cleanup_policy: policy, ..old(self)@.topics[topic@] },
                    )
                } else {
                    old(self)@.topics
                },
                partitions: topic_mapped(
                    old(self)@.partitions,
                    topic@,
                    |p: PartitionView| PartitionView { cleanup_policy: policy, ..p },
                ),
                ..old(self)@
            }),
    {
        self.topic_registry.set_cleanup_policy(topic, policy);
        self.partitions.set_topic_cleanup_policy(topic, policy);
    }

    /// Forgets a topic and its partitions, and marks it as on its way out.
    pub fn apply_topic_deletion(&mut self, topic: &str)
        requires
            old(self).wf(),
        ensures
            final(self).wf(),
            final(self).same_node(*old(self)),
            final(self)@ == (EngineView {
                topics: old(self)@.topics.remove(topic@),
                partitions: without_topic(old(self)@.partitions, topic@),
                deleting: old(self)@.deleting.insert(topic@),
                ..old(self)@
            }),
    {
        self.deleting_topics.insert(owned(topic), true);
        self.topic_registry.remove(topic);
        self.partitions.remove_topic(topic);
        assert(self@.deleting =~= old(self)@.deleting.insert(topic@));
    }

    /// Notes that the files of a deleted topic were removed, as far as they could be.
    pub fn finish_topic_deletion(&mut self, topic: &str)
        requires
            old(self).wf(),
        ensures
            final(self).wf(),
            final(self).same_node(*old(self)),
            final(self)@ == (EngineView {
                deleting: old(self)@.deleting.remove(topic@),
                ..old(self)@
            }),
    {
        let _ = self.deleting_topics.remove(topic);
        assert(self@.deleting =~= old(self)@.deleting.remove(topic@));
    }
}

} // verus!
