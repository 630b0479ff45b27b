//! The topics that the cluster's metadata knows.
use crate::assoc::AssocMap;
use crate::engine::configs::settings;
use crate::name_map::NameMap;
use crate::partition::CleanupPolicy;
use std::collections::HashMap;
use vstd::prelude::*;
use vstd::slice::*;

verus! {

broadcast use vstd::std_specs::hash::group_hash_axioms;

/// Who leads a partition, who replicates it, and who is in sync.
#[derive(Debug)]
pub struct PartitionAssignment {
    pub partition: u32,
    pub leader_id: u32,
    pub leader_epoch: u32,
    pub replicas: Vec<u32>,
    pub isr: Vec<u32>,
}

/// An assignment, as values.
pub struct AssignmentView {
    pub leader_id: u32,
    pub leader_epoch: u32,
    pub replicas: Seq<u32>,
    pub isr: Seq<u32>,
}

impl PartitionAssignment {
    pub open spec fn view(self) -> AssignmentView {
        AssignmentView {
            leader_id: self.leader_id,
            leader_epoch: self.leader_epoch,
            replicas: self.replicas@,
            isr: self.isr@,
        }
    }
}

/// A topic.
pub struct TopicConfig {
    pub topic: String,
    pub num_partitions: u32,
    pub replication_factor: u16,
    pub cleanup_policy: CleanupPolicy,
    pub partitions: HashMap<u32, PartitionAssignment>,
    /// The settings that were given for this topic. Unknown ones are kept too.
    pub configs: AssocMap<String>,
}

/// A topic, as values.
pub struct TopicView {
    pub num_partitions: u32,
    pub replication_factor: u16,
    pub cleanup_policy: CleanupPolicy,
    pub partitions: Map<u32, AssignmentView>,
    pub configs: Map<Seq<char>, Seq<char>>,
}

/// Assignments, as values.
pub open spec fn assignments(m: Map<u32, PartitionAssignment>) -> Map<u32, AssignmentView> {
    m.map_values(|a: PartitionAssignment| a@)
}

impl TopicConfig {
    pub open spec fn view(self) -> TopicView {
        TopicView {
            num_partitions: self.num_partitions,
            replication_factor: self.replication_factor,
            cleanup_policy: self.cleanup_policy,
            partitions: assignments(self.partitions@),
            configs: settings(self.configs@),
        }
    }

    /// Each assignment stands under its own number.
    pub open spec fn wf(self) -> bool {
        forall|p: u32| #[trigger]
            self.partitions@.contains_key(p) ==> self.partitions@[p].partition == p
    }

    /// A topic without assignments or settings.
    pub fn new(
        topic: String,
        num_partitions: u32,
        replication_factor: u16,
        cleanup_policy: CleanupPolicy,
    ) -> (r: Self)
        ensures
            r.wf(),
            r.topic == topic,
            r@ == fresh_topic(num_partitions, replication_factor, cleanup_policy),
    {
        let r = TopicConfig {
            topic,
            num_partitions,
            replication_factor,
            cleanup_policy,
            partitions: HashMap::new(),
            configs: AssocMap::new(),
        };
        assert(r@.partitions =~= Map::<u32, AssignmentView>::empty());
        assert(r@.configs =~= Map::<Seq<char>, Seq<char>>::empty());
        r
    }

    /// The assignment of a partition.
    pub fn assignment(&self, partition: u32) -> (r: Option<&PartitionAssignment>)
        ensures
            match r {
                Some(a) => self@.partitions.contains_key(partition) && a@
                    == self@.partitions[partition],
                None => !self@.partitions.contains_key(partition),
            },
    {
        self.partitions.get(&partition)
    }
}

/// A topic that was just created.
pub open spec fn fresh_topic(
    num_partitions: u32,
    replication_factor: u16,
    cleanup_policy: CleanupPolicy,
) -> TopicView {
    TopicView {
        num_partitions,
        replication_factor,
        cleanup_policy,
        partitions: Map::empty(),
        configs: Map::empty(),
    }
}

/// Topics, as values.
pub open spec fn topic_views(m: Map<Seq<char>, TopicConfig>) -> Map<Seq<char>, TopicView> {
    m.map_values(|t: TopicConfig| t@)
}

/// The topics by name.
pub struct TopicRegistry {
    pub topics: NameMap<TopicConfig>,
}

impl TopicRegistry {
    pub open spec fn wf(self) -> bool {
        &&& self.topics.wf()
        &&& forall|k: Seq<char>| #[trigger]
            self.topics@.contains_key(k) ==> self.topics@[k].topic@ == k && self.topics@[k].wf()
    }

    pub open spec fn view(self) -> Map<Seq<char>, TopicView> {
        topic_views(self.topics@)
    }

    pub fn new() -> (r: Self)
        ensures
            r.wf(),
            r@ == Map::<Seq<char>, TopicView>::empty(),
    {
        let r = TopicRegistry { topics: NameMap::new() };
        assert(r@ =~= Map::<Seq<char>, TopicView>::empty());
        r
    }

    pub fn contains(&self, topic: &str) -> (r: bool)
        requires
            self.wf(),
        ensures
            r == self@.contains_key(topic@),
    {
        self.topics.contains(topic)
    }

    pub fn get(&self, topic: &str) -> (r: Option<&TopicConfig>)
        requires
            self.wf(),
        ensures
            match r {
                Some(t) => self@.contains_key(topic@) && t@ == self@[topic@] && t.wf() && t.topic@
                    == topic@,
                None => !self@.contains_key(topic@),
            },
    {
        self.topics.get(topic)
    }

    /// Puts a topic in, in place of what stood under its name.
    pub fn insert(&mut self, topic: TopicConfig)
        requires
            old(self).wf(),
            topic.wf(),
        ensures
            final(self).wf(),
            final(self)@ == old(self)@.insert(topic.topic@, topic@),
    {
        let name: String = crate::text::owned(topic.topic.as_str());
        self.topics.insert(name, topic);
        assert(self@ =~= old(self)@.insert(topic.topic@, topic@));
    }

    pub fn remove(&mut self, topic: &str)
        requires
            old(self).wf(),
        ensures
            final(self).wf(),
            final(self)@ == old(self)@.remove(topic@),
    {
        let _ = self.topics.remove(topic);
        assert(self@ =~= old(self)@.remove(topic@));
    }

    /// Sets the assignment of a partition, if the topic is known.
    pub fn assign(&mut self, topic: &str, assignment: PartitionAssignment)
        requires
            old(self).wf(),
        ensures
            final(self).wf(),
            final(self)@ == (if old(self)@.contains_key(topic@) {
                old(self)@.insert(
                    topic@,
                    TopicView {
                        partitions: old(self)@[topic@].partitions.insert(
                            assignment.partition,
                            assignment@,
                        ),
                        ..old(self)@[topic@]
                    },
                )
            } else {
                old(self)@
            }),
    {
        match self.topics.find(topic) {
            Some(i) => {
                let ghost before = self.topics@[topic@];
                let t = self.topics.value_mut(i);
                let p: u32 = assignment.partition;
                t.partitions.insert(p, assignment);
                proof {
                    let after = self.topics@[topic@];
                    assert(after@.partitions =~= before@.partitions.insert(p, assignment@));
                    assert(self@ =~= old(self)@.insert(
                        topic@,
                        TopicView {
                            partitions: old(self)@[topic@].partitions.insert(p, assignment@),
                            ..old(self)@[topic@]
                        },
                    ));
                }
            },
            None => {},
        }
    }

    /// Replaces the settings of a topic, if it is known.
    pub fn set_configs(&mut self, topic: &str, configs: AssocMap<String>)
        requires
            old(self).wf(),
        ensures
            final(self).wf(),
            final(self)@ == (if old(self)@.contains_key(topic@) {
                old(self)@.insert(
                    topic@,
                    TopicView { configs: settings(configs@), ..old(self)@[topic@] },
                )
            } else {
                old(self)@
            }),
    {
        match self.topics.find(topic) {
            Some(i) => {
                let t = self.topics.value_mut(i);
                t.configs = configs;
                assert(self@ =~= old(self)@.insert(
                    topic@,
                    TopicView { configs: settings(configs@), ..old(self)@[topic@] },
                ));
            },
            None => {},
        }
    }

    /// Sets the clean-up policy of a topic, if it is known.
    pub fn set_cleanup_policy(&mut self, topic: &str, policy: CleanupPolicy)
        requires
            old(self).wf(),
        ensures
            final(self).wf(),
            final(self)@ == (if old(self)@.contains_key(topic@) {
                old(self)@.insert(
                    topic@,
                    TopicView { cleanup_policy: policy, ..old(self)@[topic@] },
                )
            } else {
                old(self)@
            }),
    {
        match self.topics.find(topic) {
            Some(i) => {
                let t = self.topics.value_mut(i);
                t.cleanup_policy = policy;
                assert(self@ =~= old(self)@.insert(
                    topic@,
                    TopicView { cleanup_policy: policy, ..old(self)@[topic@] },
                ));
            },
            None => {},
        }
    }

    /// Whether a partition has an assignment.
    pub fn has_partition_assignment(&self, topic: &str, partition: u32) -> (r: bool)
        requires
            self.wf(),
        ensures
            r == (self@.contains_key(topic@) && self@[topic@].partitions.contains_key(partition)),
    {
        match self.get(topic) {
            Some(t) => t.assignment(partition).is_some(),
            None => false,
        }
    }
}

/// A copy of a list of nodes.
pub fn copy_nodes(v: &Vec<u32>) -> (r: Vec<u32>)
    ensures
        r@ == v@,
{
    slice_to_vec(v.as_slice())
}

} // verus!
