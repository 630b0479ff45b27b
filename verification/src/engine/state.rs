//! The state of a broker, and what can be read off it.
use crate::acl::Rule;
use crate::acl_manager::AclManager;
use crate::acl::allowed;
use crate::engine::brokers::{BrokerRegistry, BrokerView, ProcessRole};
use crate::engine::configs::{min_insync, min_insync_setting};
use crate::engine::credentials::{CredentialMap, CredentialStore};
use crate::engine::table::{PartitionKey, PartitionTable};
use crate::engine::topics::{copy_nodes, TopicRegistry, TopicView};
use crate::name_map::NameMap;
use crate::partition::{
    CleanupPolicy, CompressionCodec, FlushPolicy, PartitionManager, PartitionView,
};
use crate::placement::{holds_u32, topic_fault, validate_topic_name};
use crate::text::{
    chars_of, concat3, concat5, decimal, decimal_text, insert_text, matches_at, owned, rising_texts,
    same_text, stands_at, text_views,
};
use crate::transaction::manager::{TransactionManager, TransactionalProducerState};
use vstd::prelude::*;
use vstd::string::*;

verus! {

/// What a broker was started with.
pub struct EngineConfig {
    pub cluster_id: String,
    pub node_id: u32,
    pub bind_addr: String,
    pub advertised_addr: Option<String>,
    pub peer_addrs: Vec<String>,
    /// The peers that vote on metadata.
    pub controller_peer_addrs: Vec<String>,
    pub roles: Vec<ProcessRole>,
    pub min_insync_replicas: usize,
    pub default_replication_factor: u16,
    pub cleanup_policy: CleanupPolicy,
    pub compression_codec: CompressionCodec,
    pub flush_policy: FlushPolicy,
    pub auto_create_topics_enable: bool,
    pub auto_assign_partitions_enable: bool,
    pub allow_unclean_leader_election: bool,
    pub max_partitions_per_topic: u32,
    pub max_partitions_per_broker: usize,
    pub message_max_bytes: Option<u64>,
    pub transaction_timeout_ms: u64,
    pub replica_lag_max_ms: u64,
    pub broker_down_threshold_ms: u64,
    pub super_users: Vec<String>,
    pub acls_enabled: bool,
    pub sasl_required: bool,
    pub sasl_mechanisms: Vec<String>,
    pub auth_token: Option<String>,
}

/// What a broker knows of its part in the cluster.
pub struct ClusterRole {
    /// Whether it leads the cluster.
    pub is_leader: bool,
    pub epoch: u64,
    pub leader_addr: Option<String>,
    pub advertised_addr: String,
    /// How far its metadata log is applied.
    pub metadata_log_index: u64,
}

/// A broker.
pub struct StorageEngine {
    pub config: EngineConfig,
    pub role: ClusterRole,
    pub partitions: PartitionTable,
    pub deleting_topics: NameMap<bool>,
    pub topic_registry: TopicRegistry,
    pub brokers: BrokerRegistry,
    pub acl: AclManager,
    pub scram_credentials: CredentialStore,
    pub transactions: TransactionManager,
    /// Since when some peers have not been heard of, in nanoseconds.
    pub undiscovered_peers_since: Option<u64>,
    pub undiscovered_peers_warned: bool,
}

/// What the cluster's metadata has made of a broker.
pub struct EngineView {
    pub topics: Map<Seq<char>, TopicView>,
    pub partitions: Map<PartitionKey, PartitionView>,
    pub deleting: Set<Seq<char>>,
    pub brokers: Map<u32, BrokerView>,
    pub acls: Set<Rule>,
    pub credentials: CredentialMap,
    pub producers: Map<Seq<char>, TransactionalProducerState>,
    pub next_producer_id: u64,
    pub log_index: u64,
}

/// Whether a topic belongs to the broker itself.
pub open spec fn system_topic(topic: Seq<char>) -> bool {
    stands_at(topic, "__"@, 0)
}

/// Whether a topic belongs to the broker itself.
pub fn is_system_topic(topic: &str) -> (r: bool)
    ensures
        r == system_topic(topic@),
{
    let chars: Vec<char> = chars_of(topic);
    let prefix: Vec<char> = chars_of("__");
    matches_at(chars.as_slice(), prefix.as_slice(), 0)
}

/// The message about a topic that is on its way out.
pub open spec fn being_deleted(topic: Seq<char>) -> Seq<char> {
    "Topic "@ + topic + " is currently being deleted"@
}

/// The message about a topic that nobody created.
pub open spec fn unknown_topic(topic: Seq<char>) -> Seq<char> {
    "Unknown topic '"@ + topic + "' (auto.create.topics.enable is false)"@
}

/// The message about a partition number that is too high.
pub open spec fn too_high(topic: Seq<char>, partition: u32, max: u32) -> Seq<char> {
    "Partition "@ + decimal(partition as nat) + " for topic '"@ + topic
        + "' exceeds max.partitions.per.topic ("@ + decimal(max as nat) + ")"@
}

/// The message about a broker that is full.
pub open spec fn too_many(topic: Seq<char>, partition: u32, max: usize) -> Seq<char> {
    "Cannot create "@ + topic + "-"@ + decimal(partition as nat)
        + ": broker is at max.partitions.per.broker ("@ + decimal(max as nat) + ")"@
}

/// Why a partition may not be used or opened, if it may not.
pub open spec fn open_fault(v: EngineView, c: EngineConfig, topic: Seq<char>, partition: u32) -> Option<
    Seq<char>,
> {
    if topic_fault(topic) is Some {
        topic_fault(topic)
    } else if v.deleting.contains(topic) {
        Some(being_deleted(topic))
    } else if partition >= c.max_partitions_per_topic && !system_topic(topic) {
        Some(too_high(topic, partition, c.max_partitions_per_topic))
    } else if !system_topic(topic) && !v.partitions.contains_key((topic, partition))
        && v.partitions.dom().len() >= c.max_partitions_per_broker {
        Some(too_many(topic, partition, c.max_partitions_per_broker))
    } else {
        None
    }
}

/// What has to be done to use a partition.
#[derive(Debug, Clone, Copy, PartialEq, Eq, Structural)]
pub enum Access {
    /// It is open.
    Ready,
    /// Its log has to be opened first.
    Open,
}

/// What has to be done to use a partition that may be used.
pub open spec fn access(v: EngineView, topic: Seq<char>, partition: u32) -> Access {
    if v.partitions.contains_key((topic, partition)) {
        Access::Ready
    } else {
        Access::Open
    }
}

/// A partition whose log was just opened, as the topic's metadata has it.
pub open spec fn as_registered(v: EngineView, p: PartitionView) -> PartitionView {
    if v.topics.contains_key(p.topic) {
        let t = v.topics[p.topic];
        let q = PartitionView { cleanup_policy: t.cleanup_policy, ..p };
        if t.partitions.contains_key(p.partition) {
            let a = t.partitions[p.partition];
            PartitionView {
                leader_id: a.leader_id,
                leader_epoch: a.leader_epoch,
                replicas: a.replicas,
                isr: a.isr,
                ..q
            }
        } else {
            q
        }
    } else {
        p
    }
}

/// Who leads a partition, as far as this node knows: as the open partition has it, or else as
/// the topic's metadata has it.
pub open spec fn leader_of(v: EngineView, topic: Seq<char>, partition: u32) -> Option<u32> {
    if v.partitions.contains_key((topic, partition)) {
        Some(v.partitions[(topic, partition)].leader_id)
    } else if assigned(v, topic, partition) {
        Some(v.topics[topic].partitions[partition].leader_id)
    } else {
        None
    }
}

/// Whether the metadata gives the partition an assignment.
pub open spec fn assigned(v: EngineView, topic: Seq<char>, partition: u32) -> bool {
    v.topics.contains_key(topic) && v.topics[topic].partitions.contains_key(partition)
}

/// Whether this node takes writes for a partition. Where nobody is known to lead it, the
/// cluster's leader does, so that a topic is created in one place.
pub open spec fn leads(v: EngineView, c: EngineConfig, is_leader: bool, topic: Seq<char>, partition: u32) -> bool {
    match leader_of(v, topic, partition) {
        Some(id) => id == c.node_id,
        None => system_topic(topic) || is_leader,
    }
}

/// Whether this node may answer reads of a partition.
pub open spec fn replicates(v: EngineView, c: EngineConfig, topic: Seq<char>, partition: u32) -> bool {
    if v.partitions.contains_key((topic, partition)) {
        let p = v.partitions[(topic, partition)];
        p.leader_id == c.node_id || p.replicas.contains(c.node_id)
    } else if assigned(v, topic, partition) {
        let a = v.topics[topic].partitions[partition];
        a.leader_id == c.node_id || a.replicas.contains(c.node_id)
    } else {
        true
    }
}

/// Whether a topic is shown to clients.
pub open spec fn listed(v: EngineView, topic: Seq<char>) -> bool {
    &&& !system_topic(topic)
    &&& !v.deleting.contains(topic)
    &&& v.topics.contains_key(topic) || exists|p: u32| #[trigger]
        v.partitions.contains_key((topic, p))
}

/// What a client is told of a partition.
pub struct DescribedPartition {
    pub partition_id: u32,
    pub high_watermark: u64,
    pub leader_id: u32,
    pub replicas: Vec<u32>,
}

/// What a client is told of a partition, as values.
pub struct DescribedView {
    pub partition_id: u32,
    pub high_watermark: u64,
    pub leader_id: u32,
    pub replicas: Seq<u32>,
}

impl DescribedPartition {
    pub open spec fn view(self) -> DescribedView {
        DescribedView {
            partition_id: self.partition_id,
            high_watermark: self.high_watermark,
            leader_id: self.leader_id,
            replicas: self.replicas@,
        }
    }
}

/// What a client is told of a partition: what the open partition says, or else what the
/// metadata says, or else that this node has it and it is empty.
pub open spec fn described(v: EngineView, c: EngineConfig, topic: Seq<char>, p: u32) -> DescribedView {
    if v.partitions.contains_key((topic, p)) {
        let x = v.partitions[(topic, p)];
        DescribedView {
            partition_id: p,
            high_watermark: x.committed_hw,
            leader_id: x.leader_id,
            replicas: x.replicas,
        }
    } else if assigned(v, topic, p) {
        let a = v.topics[topic].partitions[p];
        DescribedView {
            partition_id: p,
            high_watermark: 0,
            leader_id: a.leader_id,
            replicas: a.replicas,
        }
    } else {
        DescribedView {
            partition_id: p,
            high_watermark: 0,
            leader_id: c.node_id,
            replicas: seq![c.node_id],
        }
    }
}

/// How many of the keys are of a topic.
pub open spec fn count_of(keys: Seq<PartitionKey>, topic: Seq<char>) -> nat
    decreases keys.len(),
{
    if keys.len() == 0 {
        0
    } else {
        count_of(keys.drop_last(), topic) + (if keys.last().0 == topic {
            1nat
        } else {
            0nat
        })
    }
}

/// How a request to describe a topic is answered.
pub open spec fn topic_described(
    e: StorageEngine,
    topic: Seq<char>,
    r: Option<Vec<DescribedPartition>>,
) -> bool {
    match r {
        None => e@.deleting.contains(topic) || (!e@.topics.contains_key(topic)
            && count_of(e.partitions.keys(), topic) == 0),
        Some(ps) => {
            &&& !e@.deleting.contains(topic)
            &&& e@.topics.contains_key(topic) || count_of(
                e.partitions.keys(),
                topic,
            ) > 0
            &&& ps@.len() == e.described_count(topic)
            &&& forall|p: int|
                0 <= p < ps@.len() ==> (#[trigger] ps@[p])@ == described(
                    e@,
                    e.config,
                    topic,
                    p as u32,
                )
        },
    }
}

impl StorageEngine {
    pub open spec fn wf(self) -> bool {
        &&& self.partitions.wf()
        &&& self.deleting_topics.wf()
        &&& self.topic_registry.wf()
        &&& self.brokers.wf()
        &&& self.acl.wf()
        &&& self.scram_credentials.wf()
        &&& self.transactions.wf()
    }

    pub open spec fn view(self) -> EngineView {
        EngineView {
            topics: self.topic_registry@,
            partitions: self.partitions@,
            deleting: self.deleting_topics@.dom(),
            brokers: self.brokers@,
            acls: self.acl@,
            credentials: self.scram_credentials@,
            producers: self.transactions.producers(),
            next_producer_id: self.transactions.next_producer_id,
            log_index: self.role.metadata_log_index,
        }
    }

    /// Only what the metadata says may differ.
    pub open spec fn same_node(self, other: Self) -> bool {
        &&& self.config == other.config
        &&& self.role.is_leader == other.role.is_leader
        &&& self.role.epoch == other.role.epoch
        &&& self.role.leader_addr == other.role.leader_addr
        &&& self.role.advertised_addr == other.role.advertised_addr
        &&& self.transactions.transactions == other.transactions.transactions
        &&& self.transactions.producer_sequences == other.transactions.producer_sequences
        &&& self.undiscovered_peers_since == other.undiscovered_peers_since
        &&& self.undiscovered_peers_warned == other.undiscovered_peers_warned
    }

    /// Whether a partition may be used, and whether its log has to be opened for that.
    pub fn get_or_create_partition(&self, topic: &str, partition: u32) -> (r: Result<Access, String>)
        requires
            self.wf(),
        ensures
            match r {
                Ok(a) => open_fault(self@, self.config, topic@, partition) is None && a == access(
                    self@,
                    topic@,
                    partition,
                ),
                Err(e) => open_fault(self@, self.config, topic@, partition) == Some(e@),
            },
    {
        match validate_topic_name(topic) {
            Ok(()) => {},
            Err(e) => {
                return Err(e);
            },
        }
        if self.deleting_topics.contains(topic) {
            return Err(concat3("Topic ", topic, " is currently being deleted"));
        }
        let system: bool = is_system_topic(topic);
        if partition >= self.config.max_partitions_per_topic && !system {
            let number: String = decimal_text(partition as u64);
            let max: String = decimal_text(self.config.max_partitions_per_topic as u64);
            let head: String = concat5(
                "Partition ",
                number.as_str(),
                " for topic '",
                topic,
                "' exceeds max.partitions.per.topic (",
            );
            return Err(concat3(head.as_str(), max.as_str(), ")"));
        }
        let open: bool = self.partitions.contains(topic, partition);
        if !system && !open && self.partitions.len() >= self.config.max_partitions_per_broker {
            let number: String = decimal_text(partition as u64);
            let max: String = decimal_text(self.config.max_partitions_per_broker as u64);
            let head: String = concat5(
                "Cannot create ",
                topic,
                "-",
                number.as_str(),
                ": broker is at max.partitions.per.broker (",
            );
            return Err(concat3(head.as_str(), max.as_str(), ")"));
        }
        Ok(
            if open {
                Access::Ready
            } else {
                Access::Open
            },
        )
    }

    /// Whether a client may use a partition. A topic that nobody created is refused unless
    /// clients may create topics by naming them.
    pub fn get_or_create_partition_for_client(&self, topic: &str, partition: u32) -> (r: Result<
        Access,
        String,
    >)
        requires
            self.wf(),
        ensures
            ({
                let known = system_topic(topic@) || self@.topics.contains_key(topic@);
                match r {
                    Ok(a) => a == access(self@, topic@, partition) && (a is Ready || ((known
                        || self.config.auto_create_topics_enable) && open_fault(
                        self@,
                        self.config,
                        topic@,
                        partition,
                    ) is None)),
                    Err(e) => access(self@, topic@, partition) is Open && (if !known
                        && !self.config.auto_create_topics_enable {
                        e@ == unknown_topic(topic@)
                    } else {
                        open_fault(self@, self.config, topic@, partition) == Some(e@)
                    }),
                }
            }),
    {
        if self.partitions.contains(topic, partition) {
            return Ok(Access::Ready);
        }
        let known: bool = is_system_topic(topic) || self.topic_registry.contains(topic);
        if !known && !self.config.auto_create_topics_enable {
            return Err(
                concat3("Unknown topic '", topic, "' (auto.create.topics.enable is false)"),
            );
        }
        self.get_or_create_partition(topic, partition)
    }

    /// Whether there is a partition to read: an open one, or one of a topic that is known.
    /// Reading creates no topic.
    pub fn partition_for_read(&self, topic: &str, partition: u32) -> (r: Result<
        Option<Access>,
        String,
    >)
        requires
            self.wf(),
        ensures
            ({
                let known = system_topic(topic@) || self@.topics.contains_key(topic@);
                let fault = open_fault(self@, self.config, topic@, partition);
                match r {
                    Ok(Some(a)) => a == access(self@, topic@, partition) && (a is Ready || (known
                        && fault is None)),
                    Ok(None) => access(self@, topic@, partition) is Open && !known,
                    Err(e) => access(self@, topic@, partition) is Open && known && fault == Some(e@),
                }
            }),
    {
        if self.partitions.contains(topic, partition) {
            return Ok(Some(Access::Ready));
        }
        if is_system_topic(topic) || self.topic_registry.contains(topic) {
            return match self.get_or_create_partition(topic, partition) {
                Ok(a) => Ok(Some(a)),
                Err(e) => Err(e),
            };
        }
        Ok(None)
    }

    /// Takes in a partition whose log was opened, and gives it what the metadata says of it. A
    /// partition that is open already stays as it is.
    pub fn take_partition(&mut self, p: PartitionManager)
        requires
            old(self).wf(),
        ensures
            final(self).wf(),
            final(self).same_node(*old(self)),
            final(self)@ == (EngineView {
                partitions: if old(self)@.partitions.contains_key(p@.key()) {
                    old(self)@.partitions
                } else {
                    old(self)@.partitions.insert(p@.key(), as_registered(old(self)@, p@))
                },
                ..old(self)@
            }),
    {
        if self.partitions.contains(p.topic.as_str(), p.partition) {
            return ;
        }
        let mut q: PartitionManager = p;
        match self.topic_registry.get(q.topic.as_str()) {
            Some(t) => {
                q.set_cleanup_policy(t.cleanup_policy);
                match t.assignment(q.partition) {
                    Some(a) => {
                        q.update_leadership(
                            a.leader_id,
                            a.leader_epoch,
                            copy_nodes(&a.replicas),
                            copy_nodes(&a.isr),
                        );
                    },
                    None => {},
                }
            },
            None => {},
        }
        self.partitions.insert(q);
    }

    /// A partition that is open. Nothing is created by asking.
    pub fn get_partition(&self, topic: &str, partition: u32) -> (r: Option<&PartitionManager>)
        requires
            self.wf(),
        ensures
            match r {
                Some(p) => self@.partitions.contains_key((topic@, partition)) && p@
                    == self@.partitions[(topic@, partition)],
                None => !self@.partitions.contains_key((topic@, partition)),
            },
    {
        self.partitions.get(topic, partition)
    }

    /// Whether the metadata knows a topic.
    pub fn topic_is_registered(&self, topic: &str) -> (r: bool)
        requires
            self.wf(),
        ensures
            r == self@.topics.contains_key(topic@),
    {
        self.topic_registry.contains(topic)
    }

    /// Whether the metadata gives a partition an assignment.
    pub fn has_partition_assignment(&self, topic: &str, partition: u32) -> (r: bool)
        requires
            self.wf(),
        ensures
            r == assigned(self@, topic@, partition),
    {
        self.topic_registry.has_partition_assignment(topic, partition)
    }

    /// Whether this node leads the cluster.
    pub fn is_leader(&self) -> (r: bool)
        ensures
            r == self.role.is_leader,
    {
        self.role.is_leader
    }

    /// The address of the cluster's leader, if it is known.
    pub fn leader_addr(&self) -> (r: Option<String>)
        ensures
            match r {
                Some(a) => self.role.leader_addr matches Some(b) && a@ == b@,
                None => self.role.leader_addr is None,
            },
    {
        match &self.role.leader_addr {
            Some(a) => Some(owned(a.as_str())),
            None => None,
        }
    }

    /// Notes the address of the cluster's leader.
    pub fn set_leader_addr(&mut self, addr: String)
        requires
            old(self).wf(),
        ensures
            final(self).wf(),
            *final(self) == (StorageEngine {
                role: ClusterRole { leader_addr: Some(addr), ..old(self).role },
                ..*old(self)
            }),
    {
        self.role.leader_addr = Some(addr);
    }

    /// Who leads a partition, as far as this node knows. Nothing is created by asking.
    pub fn partition_leader_id(&self, topic: &str, partition: u32) -> (r: Option<u32>)
        requires
            self.wf(),
        ensures
            r == leader_of(self@, topic@, partition),
    {
        match self.partitions.get(topic, partition) {
            Some(p) => Some(p.leader_id),
            None => match self.topic_registry.get(topic) {
                Some(t) => match t.assignment(partition) {
                    Some(a) => Some(a.leader_id),
                    None => None,
                },
                None => None,
            },
        }
    }

    /// Whether this node takes writes for a partition.
    pub fn is_partition_leader(&self, topic: &str, partition: u32) -> (r: bool)
        requires
            self.wf(),
        ensures
            r == leads(self@, self.config, self.role.is_leader, topic@, partition),
    {
        match self.partition_leader_id(topic, partition) {
            Some(id) => id == self.config.node_id,
            None => is_system_topic(topic) || self.role.is_leader,
        }
    }

    /// Whether this node may answer reads of a partition.
    pub fn is_partition_replica(&self, topic: &str, partition: u32) -> (r: bool)
        requires
            self.wf(),
        ensures
            r == replicates(self@, self.config, topic@, partition),
    {
        let node: u32 = self.config.node_id;
        match self.partitions.get(topic, partition) {
            Some(p) => p.leader_id == node || holds_u32(p.replicas.as_slice(), node),
            None => match self.topic_registry.get(topic) {
                Some(t) => match t.assignment(partition) {
                    Some(a) => a.leader_id == node || holds_u32(a.replicas.as_slice(), node),
                    None => true,
                },
                None => true,
            },
        }
    }

    /// How many replicas of a topic's partitions have to be in sync.
    pub fn effective_min_insync_replicas(&self, topic: &str) -> (r: usize)
        requires
            self.wf(),
        ensures
            r == (if self@.topics.contains_key(topic@) {
                min_insync(self@.topics[topic@].configs, self.config.min_insync_replicas)
            } else {
                self.config.min_insync_replicas
            }),
    {
        match self.topic_registry.get(topic) {
            Some(t) => min_insync_setting(&t.configs, self.config.min_insync_replicas),
            None => self.config.min_insync_replicas,
        }
    }

    /// The topics that clients are shown, in their order.
    pub fn list_topics(&self) -> (r: Vec<String>)
        requires
            self.wf(),
        ensures
            rising_texts(text_views(r@)),
            forall|t: Seq<char>| #[trigger] text_views(r@).contains(t) <==> listed(self@, t),
    {
        let mut out: Vec<String> = Vec::new();
        let n: usize = self.topic_registry.topics.len();
        let mut i: usize = 0;
        while i < n
            invariant
                self.wf(),
                i <= n == self.topic_registry.topics.names().len(),
                rising_texts(text_views(out@)),
                forall|t: Seq<char>| #[trigger] text_views(out@).contains(t) ==> listed(self@, t),
                forall|j: int|
                    0 <= j < i && listed(self@, #[trigger] self.topic_registry.topics.names()[j])
                        ==> text_views(out@).contains(self.topic_registry.topics.names()[j]),
            decreases n - i,
        {
            let name: &String = self.topic_registry.topics.name_at(i);
            if !is_system_topic(name.as_str()) && !self.deleting_topics.contains(name.as_str()) {
                insert_text(&mut out, owned(name.as_str()));
            }
            i = i + 1;
        }
        let m: usize = self.partitions.len();
        let mut k: usize = 0;
        while k < m
            invariant
                self.wf(),
                k <= m == self.partitions.count(),
                m == self.partitions.keys().len(),
                forall|i: int|
                    0 <= i < m ==> self.partitions@.contains_key(#[trigger] self.partitions.keys()[i]),
                rising_texts(text_views(out@)),
                forall|t: Seq<char>| #[trigger] text_views(out@).contains(t) ==> listed(self@, t),
                forall|j: int|
                    0 <= j < self.topic_registry.topics.names().len() && listed(
                        self@,
                        #[trigger] self.topic_registry.topics.names()[j],
                    ) ==> text_views(out@).contains(self.topic_registry.topics.names()[j]),
                forall|j: int|
                    0 <= j < k && listed(self@, (#[trigger] self.partitions.keys()[j]).0)
                        ==> text_views(out@).contains(self.partitions.keys()[j].0),
            decreases m - k,
        {
            let p: &PartitionManager = self.partitions.at(k);
            proof {
                let key = self.partitions.keys()[k as int];
                assert(key == (p.topic@, p.partition));
                assert(self@.partitions.contains_key((p.topic@, p.partition)));
            }
            if !is_system_topic(p.topic.as_str()) && !self.deleting_topics.contains(
                p.topic.as_str(),
            ) {
                insert_text(&mut out, owned(p.topic.as_str()));
            }
            k = k + 1;
        }
        assert forall|t: Seq<char>| listed(self@, t) implies text_views(out@).contains(t) by {
            if self@.topics.contains_key(t) {
                let names = self.topic_registry.topics.names();
                assert(self.topic_registry.topics@.contains_key(t));
                assert(names.contains(t));
                let j = choose|j: int| 0 <= j < names.len() && names[j] == t;
                assert(listed(self@, names[j]));
            } else {
                let p = choose|p: u32| #[trigger] self@.partitions.contains_key((t, p));
                assert(self.partitions.keys().contains((t, p)));
                let keys = self.partitions.keys();
                let j = choose|j: int| 0 <= j < keys.len() && keys[j] == (t, p);
                assert(keys[j].0 == t);
            }
        }
        out
    }

    /// How many partitions of a topic are open.
    pub fn open_partitions(&self, topic: &str) -> (r: usize)
        requires
            self.wf(),
        ensures
            r == count_of(self.partitions.keys(), topic@),
            r <= self.partitions.count(),
    {
        let m: usize = self.partitions.len();
        let ghost keys = self.partitions.keys();
        let mut n: usize = 0;
        let mut k: usize = 0;
        while k < m
            invariant
                self.wf(),
                k <= m == self.partitions.count(),
                keys == self.partitions.keys(),
                m == keys.len(),
                n <= k,
                n == count_of(keys.take(k as int), topic@),
            decreases m - k,
        {
            let p: &PartitionManager = self.partitions.at(k);
            proof {
                assert(keys.take(k + 1).drop_last() =~= keys.take(k as int));
                assert(keys.take(k + 1).last() == (p.topic@, p.partition));
            }
            if same_text(p.topic.as_str(), topic) {
                n = n + 1;
            }
            k = k + 1;
        }
        assert(keys.take(m as int) =~= keys);
        n
    }

    fn describe_partition(&self, topic: &str, p: u32) -> (r: DescribedPartition)
        requires
            self.wf(),
        ensures
            r@ == described(self@, self.config, topic@, p),
    {
        match self.partitions.get(topic, p) {
            Some(x) => {
                return DescribedPartition {
                    partition_id: p,
                    high_watermark: x.committed_hw,
                    leader_id: x.leader_id,
                    replicas: copy_nodes(&x.replicas),
                };
            },
            None => {},
        }
        match self.topic_registry.get(topic) {
            Some(t) => match t.assignment(p) {
                Some(a) => {
                    return DescribedPartition {
                        partition_id: p,
                        high_watermark: 0,
                        leader_id: a.leader_id,
                        replicas: copy_nodes(&a.replicas),
                    };
                },
                None => {},
            },
            None => {},
        }
        let mut replicas: Vec<u32> = Vec::new();
        replicas.push(self.config.node_id);
        assert(replicas@ =~= seq![self.config.node_id]);
        DescribedPartition {
            partition_id: p,
            high_watermark: 0,
            leader_id: self.config.node_id,
            replicas,
        }
    }

    /// How many partitions a client is told of: as many as the topic was created with, or as
    /// many as are open, whichever is more.
    pub open spec fn described_count(self, topic: Seq<char>) -> nat {
        let open = count_of(self.partitions.keys(), topic);
        if self@.topics.contains_key(topic) && self@.topics[topic].num_partitions >= open {
            self@.topics[topic].num_partitions as nat
        } else {
            open
        }
    }

    /// What a client is told of a topic, if it is known and not on its way out.
    pub fn describe_topic(&self, topic: &str) -> (r: Option<Vec<DescribedPartition>>)
        requires
            self.wf(),
            self.partitions.count() <= u32::MAX,
        ensures
            topic_described(*self, topic@, r),
    {
        if self.deleting_topics.contains(topic) {
            return None;
        }
        let open: usize = self.open_partitions(topic);
        let n: u32 = match self.topic_registry.get(topic) {
            Some(t) => if t.num_partitions as usize >= open {
                t.num_partitions
            } else {
                open as u32
            },
            None => {
                if open == 0 {
                    return None;
                }
                open as u32
            },
        };
        let mut out: Vec<DescribedPartition> = Vec::new();
        let mut p: u32 = 0;
        while p < n
            invariant
                self.wf(),
                p <= n,
                out@.len() == p,
                forall|k: int|
                    0 <= k < p ==> (#[trigger] out@[k])@ == described(
                        self@,
                        self.config,
                        topic@,
                        k as u32,
                    ),
            decreases n - p,
        {
            out.push(self.describe_partition(topic, p));
            p = p + 1;
        }
        Some(out)
    }

    /// Whether a principal may do something.
    pub fn authorize(
        &self,
        principal: &str,
        host: &str,
        operation: u8,
        resource_type: u8,
        resource_name: &str,
    ) -> (r: bool)
        requires
            self.wf(),
        ensures
            r == allowed(
                self@.acls,
                principal@,
                host@,
                operation,
                resource_type,
                resource_name@,
                self.config.super_users@,
                self.config.acls_enabled,
            ),
    {
        self.acl.authorize(
            principal,
            host,
            operation,
            resource_type,
            resource_name,
            self.config.super_users.as_slice(),
            self.config.acls_enabled,
        )
    }
}

/// A partition that this node leads it may also read.
pub proof fn a_leader_reads_what_it_writes(
    v: EngineView,
    c: EngineConfig,
    is_leader: bool,
    topic: Seq<char>,
    partition: u32,
)
    requires
        leads(v, c, is_leader, topic, partition),
    ensures
        replicates(v, c, topic, partition),
{
}

/// Two nodes that know the same of a partition do not both lead it.
pub proof fn one_leader_at_a_time(
    v: EngineView,
    a: EngineConfig,
    b: EngineConfig,
    a_leads: bool,
    b_leads: bool,
    topic: Seq<char>,
    partition: u32,
)
    requires
        a.node_id != b.node_id,
        !system_topic(topic),
        !(a_leads && b_leads),
    ensures
        !(leads(v, a, a_leads, topic, partition) && leads(v, b, b_leads, topic, partition)),
{
}

} // verus!
