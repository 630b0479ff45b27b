//! The partitions that are open on this node.
use crate::assoc::AssocMap;
use crate::engine::configs::{apply_configs, configured, settings};
use crate::keys::{name_numbered, numbered_key, numbered_key_is_injective};
use crate::name_map::NameMap;
use crate::partition::{CleanupPolicy, PartitionManager, PartitionView};
use crate::text::same_text;
use vstd::prelude::*;

verus! {

/// A topic's name and the number of a partition.
pub type PartitionKey = (Seq<char>, u32);

/// The name under which a partition is kept.
pub open spec fn partition_name(k: PartitionKey) -> Seq<char> {
    numbered_key(k.1 as nat, k.0)
}

/// The open partitions.
pub struct PartitionTable {
    pub partitions: NameMap<PartitionManager>,
}

/// Keys as values.
pub open spec fn key_views(s: Seq<(String, u32)>) -> Seq<PartitionKey> {
    s.map_values(|k: (String, u32)| (k.0@, k.1))
}

proof fn lemma_names(k: PartitionKey)
    ensures
        forall|x: PartitionKey| partition_name(x) == partition_name(k) ==> x == k,
{
    assert forall|x: PartitionKey| partition_name(x) == partition_name(k) implies x == k by {
        numbered_key_is_injective(x.1 as nat, x.0, k.1 as nat, k.0);
    }
}

impl PartitionTable {
    pub open spec fn wf(self) -> bool {
        &&& self.partitions.wf()
        &&& forall|n: Seq<char>| #[trigger]
            self.partitions@.contains_key(n) ==> n == partition_name(
                self.partitions@[n]@.key(),
            )
    }

    pub open spec fn view(self) -> Map<PartitionKey, PartitionView> {
        Map::new(
            |k: PartitionKey| self.partitions@.contains_key(partition_name(k)),
            |k: PartitionKey| self.partitions@[partition_name(k)]@,
        )
    }

    /// The keys, in the order in which the table lists them.
    pub open spec fn keys(self) -> Seq<PartitionKey> {
        self.partitions.values().map_values(|p: PartitionManager| p@.key())
    }

    /// How many partitions the table lists.
    pub open spec fn count(self) -> nat {
        self.partitions.names().len()
    }

    /// The list of keys holds each open partition once.
    pub proof fn lemma_keys(self)
        requires
            self.wf(),
            self.partitions.names().no_duplicates(),
            self.partitions.names().len() == self.partitions.values().len(),
            forall|i: int|
                0 <= i < self.partitions.names().len() ==> self.partitions@.contains_key(
                    #[trigger] self.partitions.names()[i],
                ) && self.partitions@[self.partitions.names()[i]] == self.partitions.values()[i],
        ensures
            self.keys().no_duplicates(),
            self.keys().len() == self.count(),
            forall|k: PartitionKey| #[trigger] self.keys().contains(k) <==> self@.contains_key(k),
            forall|i: int|
                0 <= i < self.keys().len() ==> self@.contains_key(#[trigger] self.keys()[i])
                    && self@[self.keys()[i]] == self.partitions.values()[i]@
                    && self.partitions.names()[i] == partition_name(self.keys()[i]),
            forall|k: PartitionKey| #[trigger] self@.contains_key(k) ==> self@[k].key() == k,
            self@.dom().finite(),
            self@.dom().len() == self.count(),
    {
        let names = self.partitions.names();
        let keys = self.keys();
        assert forall|i: int| 0 <= i < keys.len() implies names[i] == partition_name(
            #[trigger] keys[i],
        ) && self@.contains_key(keys[i]) && self@[keys[i]] == self.partitions.values()[i]@ by {
            assert(self.partitions@.contains_key(names[i]));
        }
        assert forall|k: PartitionKey| #[trigger] self@.contains_key(k) implies keys.contains(k)
            && self@[k].key() == k by {
            assert(names.contains(partition_name(k)));
            let i = choose|i: int| 0 <= i < names.len() && names[i] == partition_name(k);
            assert(names[i] == partition_name(keys[i]));
            lemma_names(k);
            assert(keys[i] == k);
        }
        assert forall|i: int, j: int| 0 <= i < j < keys.len() implies keys[i] != keys[j] by {
            assert(names[i] == partition_name(keys[i]));
            assert(names[j] == partition_name(keys[j]));
        }
        assert forall|k: PartitionKey| keys.contains(k) implies self@.contains_key(k) by {
            let i = choose|i: int| 0 <= i < keys.len() && keys[i] == k;
            assert(self@.contains_key(keys[i]));
        }
        keys.unique_seq_to_set();
        assert(keys.to_set() =~= self@.dom());
    }

    pub fn new() -> (r: Self)
        ensures
            r.wf(),
            r.count() == 0,
            r@ == Map::<PartitionKey, PartitionView>::empty(),
    {
        let r = PartitionTable { partitions: NameMap::new() };
        assert(r@ =~= Map::<PartitionKey, PartitionView>::empty());
        r
    }

    /// How many partitions are open.
    pub fn len(&self) -> (r: usize)
        requires
            self.wf(),
        ensures
            r == self.count(),
            r == self@.dom().len(),
            self@.dom().finite(),
            self.keys().no_duplicates(),
            self.keys().len() == r,
            forall|k: PartitionKey| #[trigger] self.keys().contains(k) <==> self@.contains_key(k),
            forall|i: int|
                0 <= i < r ==> self@.contains_key(#[trigger] self.keys()[i]) && self@[self.keys()[i]]
                    == self.partitions.values()[i]@ && self.partitions.names()[i]
                    == partition_name(self.keys()[i]),
            forall|k: PartitionKey| #[trigger] self@.contains_key(k) ==> self@[k].key() == k,
            self.partitions.names().no_duplicates(),
            self.partitions.names().len() == self.partitions.values().len(),
    {
        let r: usize = self.partitions.len();
        proof {
            self.lemma_keys();
        }
        r
    }

    /// The partition at position `i`.
    pub fn at(&self, i: usize) -> (r: &PartitionManager)
        requires
            self.wf(),
            i < self.count(),
        ensures
            *r == self.partitions.values()[i as int],
    {
        self.partitions.value_at(i)
    }

    pub fn get(&self, topic: &str, partition: u32) -> (r: Option<&PartitionManager>)
        requires
            self.wf(),
        ensures
            match r {
                Some(p) => self@.contains_key((topic@, partition)) && p@ == self@[(
                    topic@,
                    partition,
                )] && p@.key() == (topic@, partition),
                None => !self@.contains_key((topic@, partition)),
            },
    {
        let name: String = name_numbered(partition as u64, topic);
        let r: Option<&PartitionManager> = self.partitions.get(name.as_str());
        proof {
            if r is Some {
                lemma_names((topic@, partition));
            }
        }
        r
    }

    pub fn contains(&self, topic: &str, partition: u32) -> (r: bool)
        requires
            self.wf(),
        ensures
            r == self@.contains_key((topic@, partition)),
    {
        self.get(topic, partition).is_some()
    }

    /// Puts a partition in, in place of the one that stood there.
    pub fn insert(&mut self, p: PartitionManager)
        requires
            old(self).wf(),
        ensures
            final(self).wf(),
            final(self)@ == old(self)@.insert(p@.key(), p@),
            final(self).count() == (if old(self)@.contains_key(p@.key()) {
                old(self).count()
            } else {
                old(self).count() + 1
            }),
    {
        let name: String = name_numbered(p.partition as u64, p.topic.as_str());
        self.partitions.insert(name, p);
        proof {
            lemma_names(p@.key());
            assert(self@ =~= old(self)@.insert(p@.key(), p@));
        }
    }

    /// Where a partition stands.
    pub fn find(&self, topic: &str, partition: u32) -> (r: Option<usize>)
        requires
            self.wf(),
        ensures
            match r {
                Some(i) => {
                    &&& self@.contains_key((topic@, partition))
                    &&& i < self.count()
                    &&& self.partitions.names()[i as int] == partition_name((topic@, partition))
                    &&& self.partitions.values()[i as int]@ == self@[(topic@, partition)]
                    &&& self@[(topic@, partition)].key() == (topic@, partition)
                },
                None => !self@.contains_key((topic@, partition)),
            },
    {
        let name: String = name_numbered(partition as u64, topic);
        let r: Option<usize> = self.partitions.find(name.as_str());
        proof {
            if r is Some {
                lemma_names((topic@, partition));
            }
        }
        r
    }

    /// What becomes of the table when one partition changes.
    pub proof fn lemma_replaced(self, after: PartitionTable, k: PartitionKey, q: PartitionManager)
        requires
            self.wf(),
            after.partitions.wf(),
            after.partitions@ == self.partitions@.insert(partition_name(k), q),
            q@.key() == k,
        ensures
            after.wf(),
            after@ == self@.insert(k, q@),
    {
        lemma_names(k);
        assert(after@ =~= self@.insert(k, q@));
    }

    /// Sets who leads a partition, who replicates it, and who is in sync, if it is open.
    pub fn update_leadership(
        &mut self,
        topic: &str,
        partition: u32,
        leader_id: u32,
        leader_epoch: u32,
        replicas: Vec<u32>,
        isr: Vec<u32>,
    )
        requires
            old(self).wf(),
        ensures
            final(self).wf(),
            final(self).count() == old(self).count(),
            final(self)@ == (if old(self)@.contains_key((topic@, partition)) {
                old(self)@.insert(
                    (topic@, partition),
                    PartitionView {
                        leader_id,
                        leader_epoch,
                        replicas: replicas@,
                        isr: isr@,
                        ..old(self)@[(topic@, partition)]
                    },
                )
            } else {
                old(self)@
            }),
    {
        let name: String = name_numbered(partition as u64, topic);
        match self.partitions.find(name.as_str()) {
            Some(i) => {
                let p = self.partitions.value_mut(i);
                p.update_leadership(leader_id, leader_epoch, replicas, isr);
                proof {
                    lemma_names((topic@, partition));
                    assert(self@ =~= old(self)@.insert(
                        (topic@, partition),
                        PartitionView {
                            leader_id,
                            leader_epoch,
                            replicas: replicas@,
                            isr: isr@,
                            ..old(self)@[(topic@, partition)]
                        },
                    ));
                }
            },
            None => {},
        }
    }

    /// Puts the open partitions of a topic under these settings.
    pub fn configure_topic(&mut self, topic: &str, configs: &AssocMap<String>)
        requires
            old(self).wf(),
        ensures
            final(self).wf(),
            final(self).count() == old(self).count(),
            final(self)@ == topic_mapped(
                old(self)@,
                topic@,
                |p: PartitionView| configured(p, settings(configs@)),
            ),
    {
        let n: usize = self.len();
        let ghost start = *self;
        let ghost f = |p: PartitionView| configured(p, settings(configs@));
        let mut i: usize = 0;
        while i < n
            invariant
                i <= n == start.count(),
                start == *old(self),
                start.wf(),
                self.wf(),
                self.partitions.names() == start.partitions.names(),
                start.partitions.names().no_duplicates(),
                n == start.partitions.values().len(),
                f == (|p: PartitionView| configured(p, settings(configs@))),
                self.partitions.values().len() == n,
                forall|j: int|
                    0 <= j < n ==> (#[trigger] self.partitions.values()[j])@ == (if j < i
                        && start.partitions.values()[j].topic@ == topic@ {
                        f(start.partitions.values()[j]@)
                    } else {
                        start.partitions.values()[j]@
                    }),
            decreases n - i,
        {
            let same: bool = same_text(self.partitions.value_at(i).topic.as_str(), topic);
            let ghost before = self.partitions;
            proof {
                assert(self.partitions.values()[i as int]@ == start.partitions.values()[i as int]@);
            }
            if same {
                let p = self.partitions.value_mut(i);
                apply_configs(p, configs);
                proof {
                    self.lemma_same_keys(before);
                }
            }
            i = i + 1;
        }
        proof {
            start.lemma_mapped(*self, topic@, f);
        }
    }

    /// Sets the clean-up policy of the open partitions of a topic.
    pub fn set_topic_cleanup_policy(&mut self, topic: &str, policy: CleanupPolicy)
        requires
            old(self).wf(),
        ensures
            final(self).wf(),
            final(self).count() == old(self).count(),
            final(self)@ == topic_mapped(
                old(self)@,
                topic@,
                |p: PartitionView| PartitionView { cleanup_policy: policy, ..p },
            ),
    {
        let n: usize = self.len();
        let ghost start = *self;
        let ghost f = |p: PartitionView| PartitionView { cleanup_policy: policy, ..p };
        let mut i: usize = 0;
        while i < n
            invariant
                i <= n == start.count(),
                start == *old(self),
                start.wf(),
                self.wf(),
                self.partitions.names() == start.partitions.names(),
                start.partitions.names().no_duplicates(),
                n == start.partitions.values().len(),
                f == (|p: PartitionView| PartitionView { cleanup_policy: policy, ..p }),
                self.partitions.values().len() == n,
                forall|j: int|
                    0 <= j < n ==> (#[trigger] self.partitions.values()[j])@ == (if j < i
                        && start.partitions.values()[j].topic@ == topic@ {
                        f(start.partitions.values()[j]@)
                    } else {
                        start.partitions.values()[j]@
                    }),
            decreases n - i,
        {
            let same: bool = same_text(self.partitions.value_at(i).topic.as_str(), topic);
            let ghost before = self.partitions;
            proof {
                assert(self.partitions.values()[i as int]@ == start.partitions.values()[i as int]@);
            }
            if same {
                let p = self.partitions.value_mut(i);
                p.set_cleanup_policy(policy);
                proof {
                    self.lemma_same_keys(before);
                }
            }
            i = i + 1;
        }
        proof {
            start.lemma_mapped(*self, topic@, f);
        }
    }

    /// Takes the partitions of a topic out.
    pub fn remove_topic(&mut self, topic: &str)
        requires
            old(self).wf(),
        ensures
            final(self).wf(),
            final(self)@ == without_topic(old(self)@, topic@),
    {
        let ghost start = self@;
        let mut i: usize = 0;
        while i < self.len()
            invariant
                self.wf(),
                i <= self.count(),
                start == old(self)@,
                forall|k: PartitionKey| #[trigger]
                    self@.contains_key(k) ==> start.contains_key(k) && self@[k] == start[k],
                forall|k: PartitionKey| #[trigger]
                    start.contains_key(k) && k.0 != topic@ ==> self@.contains_key(k),
                forall|j: int|
                    0 <= j < i ==> (#[trigger] self.partitions.values()[j]).topic@ != topic@,
            decreases self.count() - i,
        {
            let n: usize = self.len();
            assert(i < n);
            let p: &PartitionManager = self.partitions.value_at(i);
            if same_text(p.topic.as_str(), topic) {
                let number: u32 = p.partition;
                let name: String = name_numbered(number as u64, topic);
                let ghost before = *self;
                proof {
                    assert(before.keys()[i as int] == (topic@, number));
                    assert(before.partitions.names()[i as int] == name@);
                    crate::assoc::lemma_position(before.partitions.names(), i as int);
                }
                let _ = self.partitions.remove(name.as_str());
                proof {
                    lemma_names((topic@, number));
                    assert(self@ =~= before@.remove((topic@, number)));
                }
            } else {
                i = i + 1;
            }
        }
        proof {
            let n = self.partitions.names().len();
            assert forall|k: PartitionKey| #[trigger] self@.contains_key(k) implies k.0 != topic@ by {
                assert(self.keys().contains(k));
                let j = choose|j: int| 0 <= j < self.keys().len() && self.keys()[j] == k;
                assert(self.partitions.values()[j].topic@ != topic@);
            }
            assert(self@ =~= without_topic(old(self)@, topic@));
        }
    }

    proof fn lemma_same_keys(self, before: NameMap<PartitionManager>)
        requires
            before.wf(),
            self.partitions.wf(),
            self.partitions.names() == before.names(),
            before.names().no_duplicates(),
            self.partitions.values().len() == before.names().len(),
            before.values().len() == before.names().len(),
            (PartitionTable { partitions: before }).wf(),
            forall|j: int|
                0 <= j < before.values().len() ==> (#[trigger] self.partitions.values()[j])@.key()
                    == before.values()[j]@.key(),
        ensures
            self.wf(),
    {
        assert forall|n: Seq<char>| #[trigger] self.partitions@.contains_key(n) implies n
            == partition_name(self.partitions@[n]@.key()) by {
            let j = crate::assoc::position(before.names(), n);
            assert(before.names().contains(n));
            assert(before@.contains_key(n));
            assert(before@[n] == before.values()[j]);
            assert(self.partitions@[n] == self.partitions.values()[j]);
        }
    }

    proof fn lemma_mapped(
        self,
        after: PartitionTable,
        topic: Seq<char>,
        f: spec_fn(PartitionView) -> PartitionView,
    )
        requires
            self.wf(),
            after.wf(),
            after.partitions.names() == self.partitions.names(),
            self.partitions.names().no_duplicates(),
            self.partitions.names().len() == self.partitions.values().len(),
            after.partitions.values().len() == self.partitions.values().len(),
            forall|j: int|
                0 <= j < self.partitions.values().len() ==> (
                #[trigger] after.partitions.values()[j])@ == (
                if self.partitions.values()[j].topic@ == topic {
                    f(self.partitions.values()[j]@)
                } else {
                    self.partitions.values()[j]@
                }),
        ensures
            after@ == topic_mapped(self@, topic, f),
    {
        let names = self.partitions.names();
        let want = topic_mapped(self@, topic, f);
        assert forall|k: PartitionKey| #[trigger] after@.contains_key(k) implies after@[k]
            == want[k] by {
            let n = partition_name(k);
            let j = crate::assoc::position(names, n);
            assert(names.contains(n));
            assert(self.partitions@.contains_key(n));
            assert(self.partitions@[n] == self.partitions.values()[j]);
            assert(after.partitions@[n] == after.partitions.values()[j]);
            lemma_names(self.partitions@[n]@.key());
        }
        assert(after@ =~= want);
    }
}

/// The partitions with `f` applied to those of a topic.
pub open spec fn topic_mapped(
    m: Map<PartitionKey, PartitionView>,
    topic: Seq<char>,
    f: spec_fn(PartitionView) -> PartitionView,
) -> Map<PartitionKey, PartitionView> {
    Map::new(
        |k: PartitionKey| m.contains_key(k),
        |k: PartitionKey|
            if k.0 == topic {
                f(m[k])
            } else {
                m[k]
            },
    )
}

/// The partitions of all other topics.
pub open spec fn without_topic(
    m: Map<PartitionKey, PartitionView>,
    topic: Seq<char>,
) -> Map<PartitionKey, PartitionView> {
    Map::new(|k: PartitionKey| m.contains_key(k) && k.0 != topic, |k: PartitionKey| m[k])
}

} // verus!
