//! Creating topics, and assigning partitions that were created without the metadata's knowledge.
use crate::engine::brokers::{available, discovered, has_role, rising, ProcessRole};
use crate::engine::metadata::{MetadataRecord, RecordView};
use crate::engine::snapshot::record_views;
use crate::engine::state::{
    being_deleted, count_of, is_system_topic, system_topic, unknown_topic, EngineConfig,
    EngineView, StorageEngine,
};
use crate::engine::table::{key_views, PartitionKey};
use crate::engine::topics::copy_nodes;
use crate::partition::PartitionManager;
use crate::placement::{
    fnv, holds_u32, placed, placement_is_full, striped_replicas, topic_fault, topic_placement_seed,
    validate_topic_name,
};
use crate::text::{concat3, concat5, decimal, decimal_text, owned, text_views};
use vstd::prelude::*;
use vstd::string::*;
use vstd::utf8::*;

verus! {

/// How long peers may stay unheard of before it is worth a warning, in nanoseconds.
pub const UNDISCOVERED_PEERS_WARN_AFTER: u64 = 30_000_000_000;

/// How many partitions one sweep assigns at most.
pub const MAX_ASSIGNMENTS_PER_SWEEP: usize = 50;

/// The message about a request that only the cluster's leader serves.
pub open spec fn not_controller() -> Seq<char> {
    "NOT_CONTROLLER: this node is not the cluster leader"@
}

/// Whether this node is a broker.
pub open spec fn is_broker(c: EngineConfig) -> bool {
    c.roles@.contains(ProcessRole::Broker)
}

/// `ids` are the nodes that partitions may be given to, in order.
pub open spec fn broker_list(v: EngineView, c: EngineConfig, ids: Seq<u32>) -> bool {
    rising(ids) && forall|id: u32| #[trigger]
        ids.contains(id) <==> available(v.brokers, id, c.node_id, is_broker(c))
}

/// The nodes that partitions may be given to, in order.
pub open spec fn broker_ids(v: EngineView, c: EngineConfig) -> Seq<u32> {
    choose|ids: Seq<u32>| broker_list(v, c, ids)
}

/// A broker that has noted that peers are missing.
pub open spec fn noted_missing(e: StorageEngine, now: u64) -> StorageEngine {
    StorageEngine {
        undiscovered_peers_since: match e.undiscovered_peers_since {
            Some(t) => Some(t),
            None => Some(now),
        },
        undiscovered_peers_warned: e.undiscovered_peers_warned || warning_due(e, now),
        ..e
    }
}

/// A broker that has heard of its peers.
pub open spec fn noted_found(e: StorageEngine) -> StorageEngine {
    StorageEngine {
        undiscovered_peers_since: None,
        undiscovered_peers_warned: if e.undiscovered_peers_since is Some {
            false
        } else {
            e.undiscovered_peers_warned
        },
        ..e
    }
}

/// The factor for a new topic: the one asked for, or the default, but not more than there are
/// brokers.
pub open spec fn factor_for(c: EngineConfig, explicit: Option<u16>, brokers: int) -> int {
    let wanted = match explicit {
        Some(f) => f as int,
        None => if c.default_replication_factor > 1 {
            c.default_replication_factor as int
        } else {
            1
        },
    };
    if wanted < brokers {
        wanted
    } else {
        brokers
    }
}

/// The record that assigns partition `p` of a new topic. All replicas start in sync.
pub open spec fn first_assignment(
    topic: Seq<char>,
    p: u32,
    brokers: Seq<u32>,
    rf: int,
) -> RecordView {
    let replicas = placed(brokers, p as int, rf, fnv(encode_utf8(topic)) as int, None);
    RecordView::PartitionLeadershipChange {
        topic,
        partition: p,
        leader_id: replicas[0],
        leader_epoch: 0,
        isr: replicas,
        replicas: Some(replicas),
    }
}

/// The records that create a topic: first the topic, then its partitions.
pub open spec fn creation(
    topic: Seq<char>,
    num_partitions: u32,
    brokers: Seq<u32>,
    rf: int,
) -> Seq<RecordView> {
    seq![
        RecordView::TopicCreated { topic, num_partitions, replication_factor: rf as u16 },
    ] + Seq::new(
        num_partitions as nat,
        |p: int| first_assignment(topic, p as u32, brokers, rf),
    )
}

/// What comes of naming a topic that may not exist.
pub enum Creation {
    /// It exists.
    Known,
    /// Its replicas cannot be chosen before the peers are known. `warn` says that it has been
    /// like this for so long that it is worth a warning, for the first time.
    Deferred { warn: bool },
    /// These records create it, one after the other.
    Create { records: Vec<MetadataRecord> },
}

/// Whether the replicas of a new topic would be this node alone only because no peer has been
/// heard of.
pub open spec fn peers_missing(c: EngineConfig, brokers: int) -> bool {
    brokers <= 1 && c.peer_addrs@.len() > 0
}

/// Whether the warning about peers is due.
pub open spec fn warning_due(e: StorageEngine, now: u64) -> bool {
    !e.undiscovered_peers_warned && (e.undiscovered_peers_since matches Some(t) && now - t
        >= UNDISCOVERED_PEERS_WARN_AFTER)
}

/// The keys of partitions that hold data of a client's topic and have no assignment.
pub open spec fn unassigned(v: EngineView, keys: Seq<PartitionKey>) -> Seq<PartitionKey>
    decreases keys.len(),
{
    if keys.len() == 0 {
        Seq::empty()
    } else {
        let k = keys.last();
        let before = unassigned(v, keys.drop_last());
        if system_topic(k.0) || (v.topics.contains_key(k.0) && v.topics[k.0].partitions.contains_key(
            k.1,
        )) {
            before
        } else {
            before.push(k)
        }
    }
}

/// The first of the keys, no more than one sweep assigns.
pub open spec fn first_ones(s: Seq<PartitionKey>) -> Seq<PartitionKey> {
    if s.len() <= MAX_ASSIGNMENTS_PER_SWEEP {
        s
    } else {
        s.take(MAX_ASSIGNMENTS_PER_SWEEP as int)
    }
}

/// The records that give a partition its first assignment without moving its data: the holder
/// leads, if it can be seen, and is in sync alone.
pub open spec fn late_assignment(
    e: StorageEngine,
    brokers: Seq<u32>,
    key: PartitionKey,
) -> Seq<RecordView> {
    let v = e@;
    let p = v.partitions[key];
    let leader = if brokers.contains(p.leader_id) {
        p.leader_id
    } else {
        e.config.node_id
    };
    let rf = factor_for(e.config, None, brokers.len() as int);
    let open = count_of(e.partitions.keys(), key.0);
    let assignment = RecordView::PartitionLeadershipChange {
        topic: key.0,
        partition: key.1,
        leader_id: leader,
        leader_epoch: p.leader_epoch,
        isr: seq![leader],
        replicas: Some(
            placed(brokers, key.1 as int, rf, fnv(encode_utf8(key.0)) as int, Some(leader)),
        ),
    };
    if v.topics.contains_key(key.0) {
        seq![assignment]
    } else {
        seq![
            RecordView::TopicCreated {
                topic: key.0,
                num_partitions: if open > key.1 {
                    open as u32
                } else {
                    (key.1 + 1) as u32
                },
                replication_factor: rf as u16,
            },
            assignment,
        ]
    }
}

/// How a request for a new topic is answered.
pub open spec fn created_by(
    e: StorageEngine,
    topic: Seq<char>,
    num_partitions: u32,
    r: Result<Vec<MetadataRecord>, String>,
) -> bool {
    let ids = broker_ids(e@, e.config);
    match r {
        Ok(records) => {
            &&& topic_fault(topic) is None
            &&& !e@.deleting.contains(topic)
            &&& ids.len() > 0
            &&& e.role.is_leader
            &&& record_views(records@) == creation(
                topic,
                num_partitions,
                ids,
                factor_for(e.config, None, ids.len() as int),
            )
        },
        Err(m) => if topic_fault(topic) is Some {
            m@ == topic_fault(topic)->0
        } else if e@.deleting.contains(topic) {
            m@ == being_deleted(topic)
        } else if ids.len() == 0 {
            m@ == "No brokers available for topic assignment"@
        } else {
            !e.role.is_leader && m@ == not_controller()
        },
    }
}

impl StorageEngine {
    /// The nodes that partitions may be given to, in order.
    pub fn available_broker_ids(&self) -> (r: Vec<u32>)
        requires
            self.wf(),
        ensures
            broker_list(self@, self.config, r@),
            r@ == broker_ids(self@, self.config),
    {
        let broker: bool = has_role(self.config.roles.as_slice(), ProcessRole::Broker);
        let r: Vec<u32> = self.brokers.available_broker_ids(self.config.node_id, broker);
        proof {
            assert(broker_list(self@, self.config, r@));
            crate::engine::brokers::lemma_rising_unique(broker_ids(self@, self.config), r@);
        }
        r
    }

    /// The peers that nobody has been heard of at.
    pub fn undiscovered_peer_addrs(&self) -> (r: Vec<String>)
        requires
            self.wf(),
        ensures
            text_views(r@) == text_views(self.config.peer_addrs@).filter(
                |a: Seq<char>| !discovered(self@.brokers, a),
            ),
    {
        let mut out: Vec<String> = Vec::new();
        let ghost peers = text_views(self.config.peer_addrs@);
        let ghost pred = |a: Seq<char>| !discovered(self@.brokers, a);
        let mut i: usize = 0;
        proof {
            assert(peers.take(0) =~= Seq::empty());
            assert(peers.take(0).filter(pred) =~= Seq::empty());
            assert(text_views(out@) =~= Seq::empty());
        }
        while i < self.config.peer_addrs.len()
            invariant
                self.wf(),
                i <= self.config.peer_addrs.len(),
                peers == text_views(self.config.peer_addrs@),
                pred == (|a: Seq<char>| !discovered(self@.brokers, a)),
                text_views(out@) == peers.take(i as int).filter(pred),
            decreases self.config.peer_addrs.len() - i,
        {
            let addr: &String = &self.config.peer_addrs[i];
            let ghost before = text_views(out@);
            let known: bool = self.brokers.knows_address(addr.as_str());
            proof {
                assert(peers.take(i + 1) =~= peers.take(i as int).push(addr@));
                peers.take(i as int).lemma_filter_push(addr@, pred);
            }
            if !known {
                out.push(owned(addr.as_str()));
                assert(text_views(out@) =~= before.push(addr@));
            }
            i = i + 1;
        }
        assert(peers.take(i as int) =~= peers);
        out
    }

    /// Notes that peers have not been heard of yet. Returns whether to warn: they have been
    /// missing for long enough, and no warning was given since they went missing.
    pub fn note_peers_undiscovered_and_maybe_warn(&mut self, now: u64) -> (warn: bool)
        ensures
            warn == warning_due(*old(self), now),
            *final(self) == noted_missing(*old(self), now),
    {
        let since: u64 = match self.undiscovered_peers_since {
            Some(t) => t,
            None => now,
        };
        self.undiscovered_peers_since = Some(since);
        if now < since || now - since < UNDISCOVERED_PEERS_WARN_AFTER {
            return false;
        }
        if self.undiscovered_peers_warned {
            return false;
        }
        self.undiscovered_peers_warned = true;
        true
    }

    /// Notes that peers have been heard of, so that the next time they go missing the clock
    /// starts anew.
    pub fn note_peers_discovered(&mut self)
        ensures
            *final(self) == noted_found(*old(self)),
    {
        if self.undiscovered_peers_since.is_some() {
            self.undiscovered_peers_warned = false;
        }
        self.undiscovered_peers_since = None;
    }

    /// The records that create a topic. An explicit factor is not zero.
    fn create_topic_inner(&self, topic: &str, num_partitions: u32, explicit_rf: Option<u16>) -> (r:
        Result<Vec<MetadataRecord>, String>)
        requires
            self.wf(),
            self@.brokers.dom().len() < 0xffff,
            self@.brokers.dom().finite(),
            explicit_rf != Some(0u16),
        ensures
            ({
                let ids = broker_ids(self@, self.config);
                match r {
                    Ok(records) => {
                        &&& topic_fault(topic@) is None
                        &&& !self@.deleting.contains(topic@)
                        &&& ids.len() > 0
                        &&& self.role.is_leader
                        &&& record_views(records@) == creation(
                            topic@,
                            num_partitions,
                            ids,
                            factor_for(self.config, explicit_rf, ids.len() as int),
                        )
                    },
                    Err(e) => if topic_fault(topic@) is Some {
                        e@ == topic_fault(topic@)->0
                    } else if self@.deleting.contains(topic@) {
                        e@ == being_deleted(topic@)
                    } else if ids.len() == 0 {
                        e@ == "No brokers available for topic assignment"@
                    } else {
                        !self.role.is_leader && e@ == not_controller()
                    },
                }
            }),
    {
        match validate_topic_name(topic) {
            Ok(()) => {},
            Err(e) => {
                return Err(e);
            },
        }
        if self.deleting_topics.contains(topic) {
            return Err(concat3("Topic ", topic, " is currently being deleted"));
        }
        let brokers: Vec<u32> = self.available_broker_ids();
        if brokers.len() == 0 {
            return Err(owned("No brokers available for topic assignment"));
        }
        if !self.role.is_leader {
            return Err(owned("NOT_CONTROLLER: this node is not the cluster leader"));
        }
        proof {
            self.lemma_few_brokers(brokers@);
        }
        let wanted: u16 = match explicit_rf {
            Some(f) => f,
            None => if self.config.default_replication_factor > 1 {
                self.config.default_replication_factor
            } else {
                1
            },
        };
        let n: u16 = brokers.len() as u16;
        let rf: u16 = if wanted < n {
            wanted
        } else {
            n
        };
        assert(rf == factor_for(self.config, explicit_rf, brokers@.len() as int));
        let mut records: Vec<MetadataRecord> = Vec::new();
        records.push(
            MetadataRecord::TopicCreated {
                topic: owned(topic),
                num_partitions,
                replication_factor: rf,
            },
        );
        let seed: u64 = topic_placement_seed(topic);
        let ghost whole = creation(topic@, num_partitions, brokers@, rf as int);
        let mut p: u32 = 0;
        assert(record_views(records@) =~= whole.take(1));
        while p < num_partitions
            invariant
                p <= num_partitions,
                rf >= 1,
                brokers@.len() >= 1,
                rf <= brokers@.len(),
                rising(brokers@),
                seed == fnv(encode_utf8(topic@)),
                whole == creation(topic@, num_partitions, brokers@, rf as int),
                record_views(records@) == whole.take(p + 1),
            decreases num_partitions - p,
        {
            let replicas: Vec<u32> = striped_replicas(
                brokers.as_slice(),
                p,
                rf as usize,
                seed,
                None,
            );
            proof {
                placement_is_full(brokers@, p as int, rf as int, seed as int, None);
            }
            let leader_id: u32 = replicas[0];
            let ghost before = record_views(records@);
            let rec = MetadataRecord::PartitionLeadershipChange {
                topic: owned(topic),
                partition: p,
                leader_id,
                leader_epoch: 0,
                isr: copy_nodes(&replicas),
                replicas: Some(replicas),
            };
            records.push(rec);
            proof {
                assert(rec@ == first_assignment(topic@, p, brokers@, rf as int));
                assert(whole[p + 1] == rec@);
                assert(record_views(records@) =~= before.push(rec@));
                assert(whole.take(p + 2) =~= whole.take(p + 1).push(rec@));
            }
            p = p + 1;
        }
        assert(whole.take(num_partitions + 1) =~= whole);
        Ok(records)
    }

    proof fn lemma_few_brokers(self, ids: Seq<u32>)
        requires
            broker_list(self@, self.config, ids),
            self@.brokers.dom().finite(),
            self@.brokers.dom().len() < 0xffff,
        ensures
            ids.len() <= 0xffff,
    {
        assert(ids.no_duplicates());
        ids.unique_seq_to_set();
        let most = self@.brokers.dom().insert(self.config.node_id);
        assert forall|id: u32| #[trigger] ids.to_set().contains(id) implies most.contains(id) by {
            assert(ids.contains(id));
        }
        vstd::set_lib::lemma_len_subset(ids.to_set(), most);
    }

    /// The records that create a topic with the default number of replicas, or with as many as
    /// there are brokers, if that is less.
    pub fn create_topic(&self, topic: &str, num_partitions: u32) -> (r: Result<
        Vec<MetadataRecord>,
        String,
    >)
        requires
            self.wf(),
            self@.brokers.dom().len() < 0xffff,
            self@.brokers.dom().finite(),
        ensures
            created_by(*self, topic@, num_partitions, r),
    {
        self.create_topic_inner(topic, num_partitions, None)
    }

    /// The records that create a topic with exactly so many replicas. If there are not enough
    /// brokers for them, it is not created at all.
    pub fn create_topic_with_replication_factor(
        &self,
        topic: &str,
        num_partitions: u32,
        replication_factor: u16,
    ) -> (r: Result<Vec<MetadataRecord>, String>)
        requires
            self.wf(),
            self@.brokers.dom().len() < 0xffff,
            self@.brokers.dom().finite(),
        ensures
            ({
                let ids = broker_ids(self@, self.config);
                match r {
                    Ok(records) => {
                        &&& 0 < replication_factor <= ids.len()
                        &&& topic_fault(topic@) is None
                        &&& !self@.deleting.contains(topic@)
                        &&& self.role.is_leader
                        &&& record_views(records@) == creation(
                            topic@,
                            num_partitions,
                            ids,
                            replication_factor as int,
                        )
                    },
                    Err(e) => if replication_factor == 0 {
                        e@ == "replication factor must be at least 1"@
                    } else if replication_factor > ids.len() {
                        e@ == "INVALID_REPLICATION_FACTOR: topic '"@ + topic@
                            + "' requested replication factor "@ + decimal(
                            replication_factor as nat,
                        ) + " but only "@ + decimal(ids.len()) + " broker(s) are available"@
                    } else if topic_fault(topic@) is Some {
                        e@ == topic_fault(topic@)->0
                    } else if self@.deleting.contains(topic@) {
                        e@ == being_deleted(topic@)
                    } else {
                        !self.role.is_leader && e@ == not_controller()
                    },
                }
            }),
    {
        if replication_factor == 0 {
            return Err(owned("replication factor must be at least 1"));
        }
        let brokers: Vec<u32> = self.available_broker_ids();
        if replication_factor as usize > brokers.len() {
            let factor: String = decimal_text(replication_factor as u64);
            let count: String = decimal_text(brokers.len() as u64);
            let head: String = concat5(
                "INVALID_REPLICATION_FACTOR: topic '",
                topic,
                "' requested replication factor ",
                factor.as_str(),
                " but only ",
            );
            return Err(concat3(head.as_str(), count.as_str(), " broker(s) are available"));
        }
        self.create_topic_inner(topic, num_partitions, Some(replication_factor))
    }

    /// Sees to it that a topic exists before it is written to.
    pub fn ensure_topic_created(&mut self, topic: &str, num_partitions: u32, now: u64) -> (r: Result<
        Creation,
        String,
    >)
        requires
            old(self).wf(),
            old(self)@.brokers.dom().len() < 0xffff,
            old(self)@.brokers.dom().finite(),
        ensures
            final(self).wf(),
            final(self)@ == old(self)@,
            final(self).config == old(self).config,
            final(self).role == old(self).role,
            ({
                let ids = broker_ids(old(self)@, old(self).config);
                let c = old(self).config;
                let v = old(self)@;
                if system_topic(topic@) || v.topics.contains_key(topic@) {
                    (r matches Ok(x) && x is Known) && *final(self) == *old(self)
                } else if !c.auto_create_topics_enable {
                    (r matches Err(e) && e@ == unknown_topic(topic@)) && *final(self)
                        == *old(self)
                } else if !old(self).role.is_leader {
                    (r matches Err(e) && e@
                        == "NOT_CONTROLLER: only the cluster leader may create a topic"@)
                        && *final(self) == *old(self)
                } else if peers_missing(c, ids.len() as int) {
                    &&& r matches Ok(Creation::Deferred { warn }) && warn == warning_due(
                        *old(self),
                        now,
                    )
                    &&& *final(self) == noted_missing(*old(self), now)
                } else {
                    &&& *final(self) == noted_found(*old(self))
                    &&& match r {
                        Ok(Creation::Create { records }) => {
                            &&& topic_fault(topic@) is None
                            &&& !v.deleting.contains(topic@)
                            &&& ids.len() > 0
                            &&& record_views(records@) == creation(
                                topic@,
                                if num_partitions > 1 {
                                    num_partitions
                                } else {
                                    1
                                },
                                ids,
                                factor_for(c, None, ids.len() as int),
                            )
                        },
                        Ok(_) => false,
                        Err(e) => if topic_fault(topic@) is Some {
                            e@ == topic_fault(topic@)->0
                        } else if v.deleting.contains(topic@) {
                            e@ == being_deleted(topic@)
                        } else {
                            ids.len() == 0 && e@
                                == "No brokers available for topic assignment"@
                        },
                    }
                }
            }),
    {
        if is_system_topic(topic) || self.topic_registry.contains(topic) {
            return Ok(Creation::Known);
        }
        if !self.config.auto_create_topics_enable {
            return Err(
                concat3("Unknown topic '", topic, "' (auto.create.topics.enable is false)"),
            );
        }
        if !self.role.is_leader {
            return Err(owned("NOT_CONTROLLER: only the cluster leader may create a topic"));
        }
        let brokers: Vec<u32> = self.available_broker_ids();
        if brokers.len() <= 1 && self.config.peer_addrs.len() > 0 {
            let warn: bool = self.note_peers_undiscovered_and_maybe_warn(now);
            return Ok(Creation::Deferred { warn });
        }
        self.note_peers_discovered();
        let n: u32 = if num_partitions > 1 {
            num_partitions
        } else {
            1
        };
        match self.create_topic(topic, n) {
            Ok(records) => Ok(Creation::Create { records }),
            Err(e) => Err(e),
        }
    }

    /// The partitions that a sweep assigns, and whether to warn that peers are missing. Only
    /// the cluster's leader assigns, and not before it has heard of its peers.
    pub fn unassigned_partitions(&mut self, now: u64) -> (r: (Vec<(String, u32)>, bool))
        requires
            old(self).wf(),
        ensures
            final(self).wf(),
            final(self)@ == old(self)@,
            final(self).config == old(self).config,
            final(self).role == old(self).role,
            final(self).partitions == old(self).partitions,
            ({
                let ids = broker_ids(old(self)@, old(self).config);
                let c = old(self).config;
                if !c.auto_assign_partitions_enable || !old(self).role.is_leader || ids.len()
                    == 0 {
                    key_views(r.0@).len() == 0 && !r.1 && *final(self) == *old(self)
                } else if peers_missing(c, ids.len() as int) {
                    &&& key_views(r.0@).len() == 0
                    &&& r.1 == warning_due(*old(self), now)
                    &&& *final(self) == noted_missing(*old(self), now)
                } else {
                    &&& key_views(r.0@) == first_ones(
                        unassigned(old(self)@, old(self).partitions.keys()),
                    )
                    &&& !r.1
                    &&& *final(self) == noted_found(*old(self))
                }
            }),
    {
        let mut out: Vec<(String, u32)> = Vec::new();
        assert(key_views(out@) =~= Seq::empty());
        if !self.config.auto_assign_partitions_enable || !self.role.is_leader {
            return (out, false);
        }
        let brokers: Vec<u32> = self.available_broker_ids();
        if brokers.len() == 0 {
            return (out, false);
        }
        if brokers.len() == 1 && self.config.peer_addrs.len() > 0 {
            let warn: bool = self.note_peers_undiscovered_and_maybe_warn(now);
            return (out, warn);
        }
        self.note_peers_discovered();
        let n: usize = self.partitions.len();
        let ghost keys = self.partitions.keys();
        let ghost v = self@;
        let mut i: usize = 0;
        assert(first_ones(unassigned(v, keys.take(0))) =~= Seq::empty());
        while i < n
            invariant
                self.wf(),
                v == self@,
                i <= n == self.partitions.count(),
                *self == noted_found(*old(self)),
                keys == self.partitions.keys(),
                n == keys.len(),
                key_views(out@) == first_ones(unassigned(v, keys.take(i as int))),
            decreases n - i,
        {
            let p: &PartitionManager = self.partitions.at(i);
            let skip: bool = is_system_topic(p.topic.as_str())
                || self.topic_registry.has_partition_assignment(p.topic.as_str(), p.partition);
            let ghost k = (p.topic@, p.partition);
            let ghost before = key_views(out@);
            proof {
                assert(keys.take(i + 1).drop_last() =~= keys.take(i as int));
                assert(keys.take(i + 1).last() == k);
            }
            if !skip && out.len() < MAX_ASSIGNMENTS_PER_SWEEP {
                out.push((owned(p.topic.as_str()), p.partition));
                proof {
                    assert(key_views(out@) =~= before.push(k));
                }
            }
            proof {
                let old_list = unassigned(v, keys.take(i as int));
                let new_list = unassigned(v, keys.take(i + 1));
                if !skip {
                    assert(new_list == old_list.push(k));
                    if old_list.len() >= MAX_ASSIGNMENTS_PER_SWEEP {
                        assert(new_list.take(MAX_ASSIGNMENTS_PER_SWEEP as int) =~= old_list.take(
                            MAX_ASSIGNMENTS_PER_SWEEP as int,
                        ));
                        assert(old_list.take(MAX_ASSIGNMENTS_PER_SWEEP as int).len()
                            == MAX_ASSIGNMENTS_PER_SWEEP);
                        if old_list.len() == MAX_ASSIGNMENTS_PER_SWEEP {
                            assert(old_list.take(MAX_ASSIGNMENTS_PER_SWEEP as int) =~= old_list);
                        }
                        assert(before.len() == MAX_ASSIGNMENTS_PER_SWEEP);
                    } else {
                        assert(before == old_list);
                    }
                }
                assert(key_views(out@) =~= first_ones(new_list));
            }
            i = i + 1;
        }
        assert(keys.take(n as int) =~= keys);
        (out, false)
    }

    /// The records that assign a partition which holds data already. The topic is registered
    /// first, if it is not.
    pub fn reconcile_unassigned_partition(&self, topic: &str, partition: u32) -> (r: Vec<
        MetadataRecord,
    >)
        requires
            self.wf(),
            self@.brokers.dom().len() < 0xffff,
            self@.brokers.dom().finite(),
            self.partitions.count() <= u32::MAX,
            partition < u32::MAX,
        ensures
            ({
                let ids = broker_ids(self@, self.config);
                record_views(r@) == (if self@.partitions.contains_key((topic@, partition))
                    && ids.len() > 0 {
                    late_assignment(*self, ids, (topic@, partition))
                } else {
                    Seq::empty()
                })
            }),
    {
        let mut out: Vec<MetadataRecord> = Vec::new();
        assert(record_views(out@) =~= Seq::empty());
        let brokers: Vec<u32> = self.available_broker_ids();
        proof {
            self.lemma_few_brokers(brokers@);
        }
        if brokers.len() == 0 {
            return out;
        }
        let p: &PartitionManager = match self.partitions.get(topic, partition) {
            Some(p) => p,
            None => {
                return out;
            },
        };
        let leader_id: u32 = if holds_u32(brokers.as_slice(), p.leader_id) {
            p.leader_id
        } else {
            self.config.node_id
        };
        let wanted: usize = if self.config.default_replication_factor > 1 {
            self.config.default_replication_factor as usize
        } else {
            1
        };
        let rf: usize = if wanted < brokers.len() {
            wanted
        } else {
            brokers.len()
        };
        let seed: u64 = topic_placement_seed(topic);
        let replicas: Vec<u32> = striped_replicas(
            brokers.as_slice(),
            partition,
            rf,
            seed,
            Some(leader_id),
        );
        if !self.topic_registry.contains(topic) {
            let open: usize = self.open_partitions(topic);
            let num_partitions: u32 = if open > partition as usize {
                open as u32
            } else {
                partition + 1
            };
            out.push(
                MetadataRecord::TopicCreated {
                    topic: owned(topic),
                    num_partitions,
                    replication_factor: rf as u16,
                },
            );
        }
        let mut isr: Vec<u32> = Vec::new();
        isr.push(leader_id);
        assert(isr@ =~= seq![leader_id]);
        out.push(
            MetadataRecord::PartitionLeadershipChange {
                topic: owned(topic),
                partition,
                leader_id,
                leader_epoch: p.leader_epoch,
                isr,
                replicas: Some(replicas),
            },
        );
        assert(record_views(out@) =~= late_assignment(*self, brokers@, (topic@, partition)));
        out
    }
}

/// A new topic's partitions each get as many different replicas as its factor says, and all of
/// them start in sync.
pub proof fn a_new_partition_is_fully_in_sync(
    topic: Seq<char>,
    p: u32,
    brokers: Seq<u32>,
    rf: int,
)
    requires
        rising(brokers),
        0 < rf <= brokers.len(),
    ensures
        first_assignment(topic, p, brokers, rf) matches RecordView::PartitionLeadershipChange {
            leader_id,
            isr,
            replicas,
            ..
        } && {
            &&& replicas == Some(isr)
            &&& isr.len() == rf
            &&& isr.no_duplicates()
            &&& leader_id == isr[0]
            &&& forall|n: u32| #[trigger] isr.contains(n) ==> brokers.contains(n)
        },
{
    placement_is_full(brokers, p as int, rf, fnv(encode_utf8(topic)) as int, None);
}

} // verus!
