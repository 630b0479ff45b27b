//! Keeping the in-sync sets honest, moving partitions off dead leaders, and giving partitions
//! that were never assigned their replicas.
use crate::assoc::AssocMap;
use crate::engine::brokers::address_of;
use crate::engine::metadata::{MetadataRecord, RecordView};
use crate::engine::state::{open_fault, Access, EngineConfig, EngineView, StorageEngine};
use crate::engine::table::{key_views, PartitionKey};
use crate::partition::{PartitionManager, PartitionView};
use crate::text::owned;
use vstd::prelude::*;
use vstd::utf8::*;

verus! {

/// Whether the numbers never fall.
pub open spec fn ascending(s: Seq<u32>) -> bool {
    forall|i: int, j: int| 0 <= i <= j < s.len() ==> s[i] <= s[j]
}

/// The same numbers in order.
pub fn sorted_nodes(v: &Vec<u32>) -> (r: Vec<u32>)
    ensures
        ascending(r@),
        r@.to_multiset() == v@.to_multiset(),
        r@.len() == v@.len(),
        forall|x: u32| #[trigger] r@.contains(x) <==> v@.contains(x),
{
    let mut out: Vec<u32> = Vec::new();
    let mut i: usize = 0;
    assert(v@.take(0) =~= Seq::<u32>::empty());
    assert(out@ =~= v@.take(0));
    while i < v.len()
        invariant
            i <= v.len(),
            ascending(out@),
            out@.to_multiset() == v@.take(i as int).to_multiset(),
            out@.len() == i,
        decreases v.len() - i,
    {
        let x: u32 = v[i];
        let mut k: usize = 0;
        while k < out.len() && out[k] <= x
            invariant
                k <= out.len(),
                ascending(out@),
                forall|j: int| 0 <= j < k ==> out@[j] <= x,
            decreases out.len() - k,
        {
            k = k + 1;
        }
        let ghost before = out@;
        out.insert(k, x);
        proof {
            assert(v@.take(i + 1) =~= v@.take(i as int).push(x));
            broadcast use vstd::seq_lib::group_to_multiset_ensures;

            assert(out@.to_multiset() =~= before.to_multiset().insert(x));
            assert(v@.take(i + 1).to_multiset() =~= v@.take(i as int).to_multiset().insert(x));
        }
        i = i + 1;
    }
    proof {
        assert(v@.take(i as int) =~= v@);
        broadcast use vstd::seq_lib::group_to_multiset_ensures;

        assert forall|x: u32| #[trigger] out@.contains(x) <==> v@.contains(x) by {
            assert(out@.contains(x) <==> out@.to_multiset().count(x) > 0);
            assert(v@.contains(x) <==> v@.to_multiset().count(x) > 0);
        }
    }
    out
}

proof fn lemma_ascending_unique(a: Seq<u32>, b: Seq<u32>)
    requires
        ascending(a),
        ascending(b),
        a.to_multiset() == b.to_multiset(),
    ensures
        a == b,
{
    let leq = |x: u32, y: u32| x <= y;
    assert(vstd::relations::sorted_by(a, leq));
    assert(vstd::relations::sorted_by(b, leq));
    assert(vstd::relations::total_ordering(leq));
    vstd::seq_lib::lemma_sorted_unique(a, b, leq);
}

/// Whether a follower keeps up: its address is known, and it acknowledged something not longer
/// ago than allowed. `ack_ages` gives the milliseconds since then by address.
pub open spec fn keeps_up(
    v: EngineView,
    c: EngineConfig,
    node: u32,
    ack_ages: Map<Seq<char>, u64>,
) -> bool {
    match address_of(v.brokers, node) {
        Some(a) => ack_ages.contains_key(a) && ack_ages[a] <= c.replica_lag_max_ms,
        None => false,
    }
}

/// The replicas that are in sync: the leader itself, and the followers that keep up.
pub open spec fn in_sync(
    v: EngineView,
    c: EngineConfig,
    replicas: Seq<u32>,
    ack_ages: Map<Seq<char>, u64>,
) -> Seq<u32>
    decreases replicas.len(),
{
    if replicas.len() == 0 {
        Seq::empty()
    } else {
        let before = in_sync(v, c, replicas.drop_last(), ack_ages);
        let r = replicas.last();
        if r == c.node_id || keeps_up(v, c, r, ack_ages) {
            before.push(r)
        } else {
            before
        }
    }
}

/// The nodes other than `leader`.
pub open spec fn others(s: Seq<u32>, leader: u32) -> Seq<u32>
    decreases s.len(),
{
    if s.len() == 0 {
        Seq::empty()
    } else if s.last() == leader {
        others(s.drop_last(), leader)
    } else {
        others(s.drop_last(), leader).push(s.last())
    }
}

/// `x` is the least of the numbers.
pub open spec fn least(s: Seq<u32>, x: u32) -> bool {
    s.contains(x) && forall|y: u32| #[trigger] s.contains(y) ==> x <= y
}

/// What a sweep wants done about a partition.
pub enum SweepAction {
    Nothing,
    /// The set of nodes in sync has changed.
    UpdateIsr { record: MetadataRecord },
    /// The leader is dead. `unclean` says that the new one was not in sync, so records may be
    /// lost.
    Promote { record: MetadataRecord, unclean: bool },
    /// The leader is dead, and nobody may take over.
    Leaderless,
}

/// Whether a record says that `leader_id` leads from `leader_epoch` on, with `isr` in sync, and
/// says nothing of the replicas.
pub open spec fn leadership(
    rec: RecordView,
    key: PartitionKey,
    leader_id: u32,
    leader_epoch: u32,
    isr: Seq<u32>,
) -> bool {
    rec == (RecordView::PartitionLeadershipChange {
        topic: key.0,
        partition: key.1,
        leader_id,
        leader_epoch,
        isr,
        replicas: None,
    })
}

/// The epoch after this one.
pub open spec fn next_epoch(e: u32) -> u32 {
    if e == u32::MAX {
        0
    } else {
        (e + 1) as u32
    }
}

/// Whether the sweep acts on a partition at all.
pub open spec fn sweepable(v: EngineView, c: EngineConfig, key: PartitionKey) -> bool {
    v.partitions.contains_key(key) && open_fault(v, c, key.0, key.1) is None
}

/// Whether this node leads the partition, which has other replicas, and another set of nodes is
/// in sync than is on record.
pub open spec fn isr_moved(
    v: EngineView,
    c: EngineConfig,
    key: PartitionKey,
    ack_ages: Map<Seq<char>, u64>,
) -> bool {
    let p = v.partitions[key];
    let now = in_sync(v, c, p.replicas, ack_ages);
    p.leader_id == c.node_id && p.replicas.len() > 1 && now.len() > 0 && now.to_multiset()
        != p.isr.to_multiset()
}

/// Whether this node leads the cluster, another leads the partition, and that one has been
/// silent for too long. One that was never heard of is not dead.
pub open spec fn leader_lost(
    v: EngineView,
    c: EngineConfig,
    is_leader: bool,
    key: PartitionKey,
    leader_age: Option<u64>,
) -> bool {
    is_leader && v.partitions[key].leader_id != c.node_id && (leader_age matches Some(a) && a
        >= c.broker_down_threshold_ms)
}

/// Whether a record puts the nodes in sync, in order, on record.
pub open spec fn isr_record(
    p: PartitionView,
    now: Seq<u32>,
    rec: RecordView,
) -> bool {
    exists|isr: Seq<u32>|
        {
            &&& ascending(isr)
            &&& isr.to_multiset() == now.to_multiset()
            &&& #[trigger] leadership(rec, p.key(), p.leader_id, p.leader_epoch, isr)
        }
}

/// Whether a record makes the lowest of the candidates the leader, with all of them in sync.
pub open spec fn promotion(p: PartitionView, candidates: Seq<u32>, rec: RecordView) -> bool {
    exists|isr: Seq<u32>|
        {
            &&& ascending(isr)
            &&& #[trigger] isr.to_multiset() == candidates.to_multiset()
            &&& leadership(rec, p.key(), isr[0], next_epoch(p.leader_epoch), isr)
        }
}

/// Whether a record makes the lowest of the nodes the leader, in sync alone.
pub open spec fn last_resort(p: PartitionView, nodes: Seq<u32>, rec: RecordView) -> bool {
    exists|n: u32|
        #[trigger] least(nodes, n) && leadership(
            rec,
            p.key(),
            n,
            next_epoch(p.leader_epoch),
            seq![n],
        )
}

/// What a sweep has to do about a partition.
pub open spec fn swept(
    v: EngineView,
    c: EngineConfig,
    is_leader: bool,
    key: PartitionKey,
    ack_ages: Map<Seq<char>, u64>,
    leader_age: Option<u64>,
    action: SweepAction,
) -> bool {
    let p = v.partitions[key];
    if !sweepable(v, c, key) {
        action is Nothing
    } else if isr_moved(v, c, key, ack_ages) {
        action matches SweepAction::UpdateIsr { record } && isr_record(
            p,
            in_sync(v, c, p.replicas, ack_ages),
            record@,
        )
    } else if leader_lost(v, c, is_leader, key, leader_age) {
        let candidates = others(p.isr, p.leader_id);
        let fallback = others(p.replicas, p.leader_id);
        if candidates.len() > 0 {
            action matches SweepAction::Promote { record, unclean } && !unclean && promotion(
                p,
                candidates,
                record@,
            )
        } else if c.allow_unclean_leader_election && fallback.len() > 0 {
            action matches SweepAction::Promote { record, unclean } && unclean && last_resort(
                p,
                fallback,
                record@,
            )
        } else {
            action is Leaderless
        }
    } else {
        action is Nothing
    }
}

fn others_of(v: &Vec<u32>, leader: u32) -> (r: Vec<u32>)
    ensures
        r@ == others(v@, leader),
{
    let mut out: Vec<u32> = Vec::new();
    let mut i: usize = 0;
    while i < v.len()
        invariant
            i <= v.len(),
            out@ == others(v@.take(i as int), leader),
        decreases v.len() - i,
    {
        proof {
            assert(v@.take(i + 1).drop_last() =~= v@.take(i as int));
            assert(v@.take(i + 1).last() == v@[i as int]);
        }
        if v[i] != leader {
            out.push(v[i]);
        }
        i = i + 1;
    }
    assert(v@.take(i as int) =~= v@);
    out
}

impl StorageEngine {
    fn keeps_up_now(&self, node: u32, ack_ages: &AssocMap<u64>) -> (r: bool)
        requires
            self.wf(),
        ensures
            r == keeps_up(self@, self.config, node, ack_ages@),
    {
        match self.brokers.get_broker_address(node) {
            Some(a) => match ack_ages.get(a.as_str()) {
                Some(age) => *age <= self.config.replica_lag_max_ms,
                None => false,
            },
            None => false,
        }
    }

    fn in_sync_now(&self, replicas: &Vec<u32>, ack_ages: &AssocMap<u64>) -> (r: Vec<u32>)
        requires
            self.wf(),
        ensures
            r@ == in_sync(self@, self.config, replicas@, ack_ages@),
    {
        let mut out: Vec<u32> = Vec::new();
        let mut i: usize = 0;
        while i < replicas.len()
            invariant
                self.wf(),
                i <= replicas.len(),
                out@ == in_sync(self@, self.config, replicas@.take(i as int), ack_ages@),
            decreases replicas.len() - i,
        {
            proof {
                assert(replicas@.take(i + 1).drop_last() =~= replicas@.take(i as int));
                assert(replicas@.take(i + 1).last() == replicas@[i as int]);
            }
            if replicas[i] == self.config.node_id || self.keeps_up_now(replicas[i], ack_ages) {
                out.push(replicas[i]);
            }
            i = i + 1;
        }
        assert(replicas@.take(i as int) =~= replicas@);
        out
    }

    fn isr_update(&self, p: &PartitionManager, ack_ages: &AssocMap<u64>) -> (r: Option<
        MetadataRecord,
    >)
        requires
            self.wf(),
            self@.partitions.contains_key(p@.key()),
            self@.partitions[p@.key()] == p@,
        ensures
            match r {
                Some(rec) => isr_moved(self@, self.config, p@.key(), ack_ages@) && isr_record(
                    p@,
                    in_sync(self@, self.config, p@.replicas, ack_ages@),
                    rec@,
                ),
                None => !isr_moved(self@, self.config, p@.key(), ack_ages@),
            },
    {
        if p.leader_id != self.config.node_id || p.replicas.len() <= 1 {
            return None;
        }
        let now: Vec<u32> = self.in_sync_now(&p.replicas, ack_ages);
        let new_isr: Vec<u32> = sorted_nodes(&now);
        let current: Vec<u32> = sorted_nodes(&p.isr);
        let same: bool = same_nodes(&new_isr, &current);
        proof {
            if now@.to_multiset() == p.isr@.to_multiset() {
                lemma_ascending_unique(new_isr@, current@);
            }
        }
        if new_isr.len() == 0 || same {
            return None;
        }
        let rec = MetadataRecord::PartitionLeadershipChange {
            topic: owned(p.topic.as_str()),
            partition: p.partition,
            leader_id: p.leader_id,
            leader_epoch: p.leader_epoch,
            isr: new_isr,
            replicas: None,
        };
        proof {
            let v = p@;
            assert(leadership(rec@, v.key(), v.leader_id, v.leader_epoch, new_isr@));
            assert(isr_record(v, now@, rec@));
            assert(self@.partitions[v.key()] == v);
            assert(isr_moved(self@, self.config, v.key(), ack_ages@));
        }
        Some(rec)
    }

    fn failover(&self, p: &PartitionManager) -> (r: SweepAction)
        ensures
            ({
                let candidates = others(p.isr@, p.leader_id);
                let fallback = others(p.replicas@, p.leader_id);
                if candidates.len() > 0 {
                    r matches SweepAction::Promote { record, unclean } && !unclean && promotion(
                        p@,
                        candidates,
                        record@,
                    )
                } else if self.config.allow_unclean_leader_election && fallback.len() > 0 {
                    r matches SweepAction::Promote { record, unclean } && unclean && last_resort(
                        p@,
                        fallback,
                        record@,
                    )
                } else {
                    r is Leaderless
                }
            }),
    {
        let epoch: u32 = p.leader_epoch.wrapping_add(1);
        assert(epoch == next_epoch(p.leader_epoch));
        let candidates: Vec<u32> = others_of(&p.isr, p.leader_id);
        if candidates.len() > 0 {
            let isr: Vec<u32> = sorted_nodes(&candidates);
            let leader_id: u32 = isr[0];
            let record = MetadataRecord::PartitionLeadershipChange {
                topic: owned(p.topic.as_str()),
                partition: p.partition,
                leader_id,
                leader_epoch: epoch,
                isr,
                replicas: None,
            };
            assert(leadership(record@, p@.key(), isr@[0], epoch, isr@));
            return SweepAction::Promote { record, unclean: false };
        }
        let fallback: Vec<u32> = others_of(&p.replicas, p.leader_id);
        if self.config.allow_unclean_leader_election && fallback.len() > 0 {
            let ordered: Vec<u32> = sorted_nodes(&fallback);
            let n: u32 = ordered[0];
            proof {
                assert(ordered@.contains(n));
                assert forall|y: u32| #[trigger] fallback@.contains(y) implies n <= y by {
                    assert(ordered@.contains(y));
                    let k = choose|k: int| 0 <= k < ordered@.len() && ordered@[k] == y;
                    assert(ordered@[0] <= ordered@[k]);
                }
                assert(least(fallback@, n));
            }
            let mut isr: Vec<u32> = Vec::new();
            isr.push(n);
            assert(isr@ =~= seq![n]);
            let record = MetadataRecord::PartitionLeadershipChange {
                topic: owned(p.topic.as_str()),
                partition: p.partition,
                leader_id: n,
                leader_epoch: epoch,
                isr,
                replicas: None,
            };
            assert(leadership(record@, p@.key(), n, epoch, seq![n]));
            return SweepAction::Promote { record, unclean: true };
        }
        SweepAction::Leaderless
    }

    /// Decides what a sweep does about a partition. `ack_ages` gives, by address, how many
    /// milliseconds ago each peer acknowledged something of the partition, and `leader_age` how
    /// many ago its leader was heard of.
    pub fn sweep_partition(
        &self,
        topic: &str,
        partition: u32,
        ack_ages: &AssocMap<u64>,
        leader_age: Option<u64>,
    ) -> (r: SweepAction)
        requires
            self.wf(),
        ensures
            swept(
                self@,
                self.config,
                self.role.is_leader,
                (topic@, partition),
                ack_ages@,
                leader_age,
                r,
            ),
    {
        match self.get_or_create_partition(topic, partition) {
            Ok(Access::Ready) => {},
            _ => {
                return SweepAction::Nothing;
            },
        }
        let p: &PartitionManager = match self.partitions.get(topic, partition) {
            Some(p) => p,
            None => {
                return SweepAction::Nothing;
            },
        };
        match self.isr_update(p, ack_ages) {
            Some(record) => {
                return SweepAction::UpdateIsr { record };
            },
            None => {},
        }
        let dead: bool = match leader_age {
            Some(a) => a >= self.config.broker_down_threshold_ms,
            None => false,
        };
        if self.role.is_leader && p.leader_id != self.config.node_id && dead {
            return self.failover(p);
        }
        SweepAction::Nothing
    }

    /// The open partitions.
    pub fn partition_keys(&self) -> (r: Vec<(String, u32)>)
        requires
            self.wf(),
        ensures
            key_views(r@) == self.partitions.keys(),
            key_views(r@).no_duplicates(),
            forall|k: PartitionKey| #[trigger]
                key_views(r@).contains(k) <==> self@.partitions.contains_key(k),
    {
        let n: usize = self.partitions.len();
        let mut out: Vec<(String, u32)> = Vec::new();
        let mut i: usize = 0;
        assert(key_views(out@) =~= self.partitions.keys().take(0));
        while i < n
            invariant
                self.wf(),
                i <= n == self.partitions.count(),
                n == self.partitions.keys().len(),
                key_views(out@) == self.partitions.keys().take(i as int),
            decreases n - i,
        {
            let p: &PartitionManager = self.partitions.at(i);
            let ghost before = key_views(out@);
            out.push((owned(p.topic.as_str()), p.partition));
            proof {
                let keys = self.partitions.keys();
                assert(keys[i as int] == (p.topic@, p.partition));
                assert(key_views(out@) =~= before.push(keys[i as int]));
                assert(keys.take(i + 1) =~= keys.take(i as int).push(keys[i as int]));
            }
            i = i + 1;
        }
        assert(self.partitions.keys().take(n as int) =~= self.partitions.keys());
        out
    }
}

fn same_nodes(a: &Vec<u32>, b: &Vec<u32>) -> (r: bool)
    ensures
        r == (a@ == b@),
{
    if a.len() != b.len() {
        return false;
    }
    let mut i: usize = 0;
    while i < a.len()
        invariant
            i <= a.len() == b.len(),
            forall|j: int| 0 <= j < i ==> a@[j] == b@[j],
        decreases a.len() - i,
    {
        if a[i] != b[i] {
            return false;
        }
        i = i + 1;
    }
    assert(a@ =~= b@);
    true
}

pub proof fn lemma_others(s: Seq<u32>, leader: u32)
    ensures
        forall|n: u32| #[trigger] others(s, leader).contains(n) <==> s.contains(n) && n != leader,
    decreases s.len(),
{
    if s.len() > 0 {
        let init = s.drop_last();
        lemma_others(init, leader);
        let o = others(s, leader);
        assert forall|n: u32| #[trigger] o.contains(n) <==> s.contains(n) && n != leader by {
            if s.contains(n) && n != leader {
                let j = choose|j: int| 0 <= j < s.len() && s[j] == n;
                if j < init.len() {
                    assert(init[j] == n);
                    assert(others(init, leader).contains(n));
                    let k = choose|k: int|
                        0 <= k < others(init, leader).len() && others(init, leader)[k] == n;
                    assert(o[k] == n);
                } else {
                    assert(o[others(init, leader).len() as int] == n);
                }
            }
            if o.contains(n) {
                let k = choose|k: int| 0 <= k < o.len() && o[k] == n;
                if k < others(init, leader).len() {
                    assert(others(init, leader)[k] == n);
                    assert(others(init, leader).contains(n));
                    let j = choose|j: int| 0 <= j < init.len() && init[j] == n;
                    assert(s[j] == n);
                } else {
                    assert(s[s.len() - 1] == n);
                }
            }
        }
    }
}

/// A clean failover picks a node that was in sync and is not the dead leader, and keeps only
/// such nodes in sync.
pub proof fn a_clean_failover_loses_nothing(
    v: EngineView,
    c: EngineConfig,
    is_leader: bool,
    key: PartitionKey,
    ack_ages: Map<Seq<char>, u64>,
    leader_age: Option<u64>,
    record: MetadataRecord,
)
    requires
        swept(
            v,
            c,
            is_leader,
            key,
            ack_ages,
            leader_age,
            (SweepAction::Promote { record, unclean: false }),
        ),
    ensures
        record@ matches RecordView::PartitionLeadershipChange { leader_id, isr, .. } && {
            &&& leader_id != v.partitions[key].leader_id
            &&& v.partitions[key].isr.contains(leader_id)
            &&& isr.contains(leader_id)
            &&& forall|n: u32| #[trigger]
                isr.contains(n) ==> v.partitions[key].isr.contains(n) && n
                    != v.partitions[key].leader_id
        },
{
    broadcast use vstd::seq_lib::group_to_multiset_ensures;

    let p = v.partitions[key];
    let candidates = others(p.isr, p.leader_id);
    lemma_others(p.isr, p.leader_id);
    assert(promotion(p, candidates, record@));
    let isr = choose|isr: Seq<u32>|
        {
            &&& ascending(isr)
            &&& #[trigger] isr.to_multiset() == candidates.to_multiset()
            &&& leadership(record@, p.key(), isr[0], next_epoch(p.leader_epoch), isr)
        };
    isr.to_multiset_ensures();
    candidates.to_multiset_ensures();
    assert(isr.len() == candidates.len());
    assert forall|n: u32| #[trigger] isr.contains(n) implies candidates.contains(n) by {
        assert(isr.to_multiset().count(n) > 0);
    }
    assert(isr.contains(isr[0]));
}

/// Only the cluster's leader moves a partition to another leader, and never off itself.
pub proof fn only_the_controller_promotes(
    v: EngineView,
    c: EngineConfig,
    is_leader: bool,
    key: PartitionKey,
    ack_ages: Map<Seq<char>, u64>,
    leader_age: Option<u64>,
    action: SweepAction,
)
    requires
        swept(v, c, is_leader, key, ack_ages, leader_age, action),
        action is Promote || action is Leaderless,
    ensures
        is_leader,
        v.partitions[key].leader_id != c.node_id,
        leader_age is Some,
{
}

/// Only the leader of a partition changes its in-sync set, and it stays in it if it is a
/// replica.
pub proof fn a_leader_is_in_sync_with_itself(
    v: EngineView,
    c: EngineConfig,
    replicas: Seq<u32>,
    ack_ages: Map<Seq<char>, u64>,
)
    requires
        replicas.contains(c.node_id),
    ensures
        in_sync(v, c, replicas, ack_ages).contains(c.node_id),
    decreases replicas.len(),
{
    let init = replicas.drop_last();
    let all = in_sync(v, c, replicas, ack_ages);
    let before = in_sync(v, c, init, ack_ages);
    if replicas.last() == c.node_id {
        assert(all[before.len() as int] == c.node_id);
    } else {
        let j = choose|j: int| 0 <= j < replicas.len() && replicas[j] == c.node_id;
        assert(init[j] == c.node_id);
        a_leader_is_in_sync_with_itself(v, c, init, ack_ages);
        let k = choose|k: int| 0 <= k < before.len() && before[k] == c.node_id;
        assert(all[k] == c.node_id);
    }
}

} // verus!
