//! When a write counts as replicated.
use crate::assoc::AssocMap;
use crate::engine::brokers::address_of;
use crate::engine::configs::min_insync;
use crate::engine::state::{leads, EngineConfig, EngineView, StorageEngine};
use crate::text::{concat3, concat5, decimal, decimal_text, owned, text_views};
use vstd::prelude::*;
use vstd::string::*;

verus! {

/// How a write stands.
pub enum AckStatus {
    /// It is replicated as far as it has to be.
    Done,
    /// It is not replicated yet.
    Wait,
    /// It will not be, for this reason.
    Refused { reason: String },
}

/// Whether a peer has everything up to the offset. `acked` gives, by address, the highest
/// offset that each peer has acknowledged.
pub open spec fn has_acked(acked: Map<Seq<char>, u64>, addr: Seq<char>, target: u64) -> bool {
    acked.contains_key(addr) && acked[addr] >= target
}

/// How many of the peers have everything up to the offset.
pub open spec fn acked_count(
    peers: Seq<Seq<char>>,
    acked: Map<Seq<char>, u64>,
    target: u64,
) -> nat
    decreases peers.len(),
{
    if peers.len() == 0 {
        0
    } else {
        acked_count(peers.drop_last(), acked, target) + (if has_acked(acked, peers.last(), target) {
            1nat
        } else {
            0nat
        })
    }
}

/// The nodes in sync that do not have everything up to the offset. The leader has it.
pub open spec fn pending(
    v: EngineView,
    c: EngineConfig,
    isr: Seq<u32>,
    acked: Map<Seq<char>, u64>,
    target: u64,
) -> Seq<u32>
    decreases isr.len(),
{
    if isr.len() == 0 {
        Seq::empty()
    } else {
        let before = pending(v, c, isr.drop_last(), acked, target);
        let n = isr.last();
        if n == c.node_id || (address_of(v.brokers, n) matches Some(a) && has_acked(
            acked,
            a,
            target,
        )) {
            before
        } else {
            before.push(n)
        }
    }
}

/// Numbers between commas.
pub open spec fn nodes_between_commas(s: Seq<u32>) -> Seq<char>
    decreases s.len(),
{
    if s.len() == 0 {
        Seq::empty()
    } else if s.len() == 1 {
        decimal(s[0] as nat)
    } else {
        nodes_between_commas(s.drop_last()) + ", "@ + decimal(s.last() as nat)
    }
}

/// A list of numbers as it is shown.
pub open spec fn nodes_shown(s: Seq<u32>) -> Seq<char> {
    "["@ + nodes_between_commas(s) + "]"@
}

/// Shows a list of numbers.
pub fn show_nodes(v: &Vec<u32>) -> (r: String)
    ensures
        r@ == nodes_shown(v@),
{
    let mut body = String::new();
    let mut i: usize = 0;
    assert(body@ =~= nodes_between_commas(v@.take(0)));
    while i < v.len()
        invariant
            i <= v.len(),
            body@ == nodes_between_commas(v@.take(i as int)),
        decreases v.len() - i,
    {
        let number: String = decimal_text(v[i] as u64);
        proof {
            assert(v@.take(i + 1).drop_last() =~= v@.take(i as int));
            assert(v@.take(i + 1).last() == v@[i as int]);
            assert(v@.take(i + 1)[0] == v@[0]);
        }
        if i > 0 {
            body.append(", ");
        }
        let ghost before = body@;
        body.append(number.as_str());
        proof {
            if i == 0 {
                assert(body@ =~= decimal(v@[0] as nat));
            }
        }
        i = i + 1;
    }
    assert(v@.take(i as int) =~= v@);
    concat3("[", body.as_str(), "]")
}

/// The number of replicas in sync that a topic needs.
pub open spec fn needed_isr(v: EngineView, c: EngineConfig, topic: Seq<char>) -> usize {
    if v.topics.contains_key(topic) {
        min_insync(v.topics[topic].configs, c.min_insync_replicas)
    } else {
        c.min_insync_replicas
    }
}

/// A topic and a partition as they are shown.
pub open spec fn shown(topic: Seq<char>, partition: u32) -> Seq<char> {
    topic + "-"@ + decimal(partition as nat)
}

/// How a write to a partition stands that is done when every node in sync has it.
pub open spec fn ack_status(
    v: EngineView,
    c: EngineConfig,
    topic: Seq<char>,
    partition: u32,
    isr: Seq<u32>,
    acked: Map<Seq<char>, u64>,
    target: u64,
    timed_out: bool,
    timeout: Seq<char>,
    r: AckStatus,
) -> bool {
    let min = needed_isr(v, c, topic);
    if isr.len() == 0 {
        let n = acked_count(text_views(c.peer_addrs@), acked, target) + 1;
        if n >= min {
            r is Done
        } else if timed_out {
            r matches AckStatus::Refused { reason } && reason@ == "Only "@ + decimal(n)
                + " of the required "@ + decimal(min as nat) + " replicas acknowledged "@ + shown(
                topic,
                partition,
            ) + " at offset "@ + decimal(target as nat)
        } else {
            r is Wait
        }
    } else if isr.len() < min {
        r matches AckStatus::Refused { reason } && reason@ == "NOT_ENOUGH_REPLICAS: "@ + shown(
            topic,
            partition,
        ) + " ISR has "@ + decimal(isr.len()) + " replica(s), min.insync.replicas is "@ + decimal(
            min as nat,
        )
    } else {
        let missing = pending(v, c, isr, acked, target);
        if missing.len() == 0 {
            r is Done
        } else if timed_out {
            r matches AckStatus::Refused { reason } && reason@ == "ISR replicas "@ + nodes_shown(
                missing,
            ) + " did not acknowledge "@ + shown(topic, partition) + " at offset "@ + decimal(
                target as nat,
            ) + " within "@ + timeout
        } else {
            r is Wait
        }
    }
}

fn check_acked(acked: &AssocMap<u64>, addr: &str, target: u64) -> (r: bool)
    ensures
        r == has_acked(acked@, addr@, target),
{
    match acked.get(addr) {
        Some(w) => *w >= target,
        None => false,
    }
}

fn count_acked(peers: &Vec<String>, acked: &AssocMap<u64>, target: u64) -> (r: usize)
    ensures
        r == acked_count(text_views(peers@), acked@, target),
        r <= peers@.len(),
{
    let ghost all = text_views(peers@);
    let mut n: usize = 0;
    let mut i: usize = 0;
    while i < peers.len()
        invariant
            i <= peers.len(),
            n <= i,
            all == text_views(peers@),
            n == acked_count(all.take(i as int), acked@, target),
        decreases peers.len() - i,
    {
        proof {
            assert(all.take(i + 1).drop_last() =~= all.take(i as int));
            assert(all.take(i + 1).last() == peers@[i as int]@);
        }
        if check_acked(acked, peers[i].as_str(), target) {
            n = n + 1;
        }
        i = i + 1;
    }
    assert(all.take(i as int) =~= all);
    n
}

/// How many controllers there are, this one and its peers.
pub open spec fn quorum(c: EngineConfig) -> int {
    c.controller_peer_addrs@.len() as int + 1
}

/// How many of them are a majority.
pub open spec fn majority(c: EngineConfig) -> int {
    quorum(c) / 2 + 1
}

/// Whether a metadata record at an offset is on a majority of the controllers. This one has it.
pub open spec fn committed(c: EngineConfig, acked: Map<Seq<char>, u64>, offset: u64) -> bool {
    acked_count(text_views(c.controller_peer_addrs@), acked, offset) + 1 >= majority(c)
}

impl StorageEngine {
    fn pending_nodes(&self, isr: &Vec<u32>, acked: &AssocMap<u64>, target: u64) -> (r: Vec<u32>)
        requires
            self.wf(),
        ensures
            r@ == pending(self@, self.config, isr@, acked@, target),
    {
        let mut out: Vec<u32> = Vec::new();
        let mut i: usize = 0;
        while i < isr.len()
            invariant
                self.wf(),
                i <= isr.len(),
                out@ == pending(self@, self.config, isr@.take(i as int), acked@, target),
            decreases isr.len() - i,
        {
            proof {
                assert(isr@.take(i + 1).drop_last() =~= isr@.take(i as int));
                assert(isr@.take(i + 1).last() == isr@[i as int]);
            }
            let n: u32 = isr[i];
            let have: bool = n == self.config.node_id || match self.brokers.get_broker_address(n) {
                Some(a) => check_acked(acked, a.as_str(), target),
                None => false,
            };
            if !have {
                out.push(n);
            }
            i = i + 1;
        }
        assert(isr@.take(i as int) =~= isr@);
        out
    }

    /// How a write to a partition stands. It is done when every node in sync has acknowledged
    /// it, and refused when fewer are in sync than have to be. `acked` gives, by address, the
    /// highest offset that each peer acknowledged, `timed_out` says whether the time is up, and
    /// `timeout` how long that was.
    pub fn await_full_isr_ack(
        &self,
        topic: &str,
        partition: u32,
        isr: &Vec<u32>,
        acked: &AssocMap<u64>,
        target_offset: u64,
        timed_out: bool,
        timeout: &str,
    ) -> (r: AckStatus)
        requires
            self.wf(),
            self.config.peer_addrs@.len() < usize::MAX,
        ensures
            ack_status(
                self@,
                self.config,
                topic@,
                partition,
                isr@,
                acked@,
                target_offset,
                timed_out,
                timeout@,
                r,
            ),
    {
        let min: usize = self.effective_min_insync_replicas(topic);
        let number: String = decimal_text(partition as u64);
        let name: String = concat3(topic, "-", number.as_str());
        let offset: String = decimal_text(target_offset);
        if isr.len() == 0 {
            let n: usize = count_acked(&self.config.peer_addrs, acked, target_offset) + 1;
            if n >= min {
                return AckStatus::Done;
            }
            if timed_out {
                let have: String = decimal_text(n as u64);
                let want: String = decimal_text(min as u64);
                let head: String = concat5(
                    "Only ",
                    have.as_str(),
                    " of the required ",
                    want.as_str(),
                    " replicas acknowledged ",
                );
                let mut reason: String = concat3(head.as_str(), name.as_str(), " at offset ");
                reason.append(offset.as_str());
                return AckStatus::Refused { reason };
            }
            return AckStatus::Wait;
        }
        if isr.len() < min {
            let have: String = decimal_text(isr.len() as u64);
            let want: String = decimal_text(min as u64);
            let mut reason: String = concat5(
                "NOT_ENOUGH_REPLICAS: ",
                name.as_str(),
                " ISR has ",
                have.as_str(),
                " replica(s), min.insync.replicas is ",
            );
            reason.append(want.as_str());
            return AckStatus::Refused { reason };
        }
        let missing: Vec<u32> = self.pending_nodes(isr, acked, target_offset);
        if missing.len() == 0 {
            return AckStatus::Done;
        }
        if timed_out {
            let nodes: String = show_nodes(&missing);
            let head: String = concat5(
                "ISR replicas ",
                nodes.as_str(),
                " did not acknowledge ",
                name.as_str(),
                " at offset ",
            );
            let mut reason: String = concat3(head.as_str(), offset.as_str(), " within ");
            reason.append(timeout);
            return AckStatus::Refused { reason };
        }
        AckStatus::Wait
    }

    /// Whether a metadata record counts as committed: `Some(true)` once a majority of the
    /// controllers has acknowledged it, `Some(false)` if that did not happen in time, and `None`
    /// as long as it is open.
    pub fn await_metadata_commit(&self, acked: &AssocMap<u64>, offset: u64, timed_out: bool) -> (r:
        Option<bool>)
        requires
            self.config.controller_peer_addrs@.len() < usize::MAX,
        ensures
            r == (if committed(self.config, acked@, offset) {
                Some(true)
            } else if timed_out {
                Some(false)
            } else {
                None
            }),
    {
        let n: usize = self.config.controller_peer_addrs.len() + 1;
        let needed: usize = n / 2 + 1;
        let have: usize = count_acked(&self.config.controller_peer_addrs, acked, offset) + 1;
        if have >= needed {
            return Some(true);
        }
        if timed_out {
            return Some(false);
        }
        None
    }
}

proof fn lemma_pending(
    v: EngineView,
    c: EngineConfig,
    isr: Seq<u32>,
    acked: Map<Seq<char>, u64>,
    target: u64,
    node: u32,
)
    requires
        isr.contains(node),
        node != c.node_id,
        !(address_of(v.brokers, node) matches Some(a) && has_acked(acked, a, target)),
    ensures
        pending(v, c, isr, acked, target).contains(node),
    decreases isr.len(),
{
    let init = isr.drop_last();
    let all = pending(v, c, isr, acked, target);
    let before = pending(v, c, init, acked, target);
    if isr.last() == node {
        assert(all[before.len() as int] == node);
    } else {
        let j = choose|j: int| 0 <= j < isr.len() && isr[j] == node;
        assert(init[j] == node);
        lemma_pending(v, c, init, acked, target, node);
        let k = choose|k: int| 0 <= k < before.len() && before[k] == node;
        assert(all[k] == node);
    }
}

/// A write that is done is on every node in sync, not only on as many as have to be in sync.
pub proof fn done_means_on_every_node_in_sync(
    v: EngineView,
    c: EngineConfig,
    topic: Seq<char>,
    partition: u32,
    isr: Seq<u32>,
    acked: Map<Seq<char>, u64>,
    target: u64,
    timed_out: bool,
    timeout: Seq<char>,
    node: u32,
)
    requires
        ack_status(
            v,
            c,
            topic,
            partition,
            isr,
            acked,
            target,
            timed_out,
            timeout,
            AckStatus::Done,
        ),
        isr.contains(node),
    ensures
        isr.len() >= needed_isr(v, c, topic),
        node == c.node_id || (address_of(v.brokers, node) matches Some(a) && has_acked(
            acked,
            a,
            target,
        )),
{
    if node != c.node_id && !(address_of(v.brokers, node) matches Some(a) && has_acked(
        acked,
        a,
        target,
    )) {
        lemma_pending(v, c, isr, acked, target, node);
    }
}

/// Two majorities of the controllers have one in common, so no two leaders can commit
/// different records at one offset.
pub proof fn majorities_meet(c: EngineConfig, a: int, b: int)
    requires
        majority(c) <= a,
        majority(c) <= b,
    ensures
        a + b > quorum(c),
{
}

/// A controller without peers commits on its own.
pub proof fn a_sole_controller_commits(c: EngineConfig, acked: Map<Seq<char>, u64>, offset: u64)
    requires
        c.controller_peer_addrs@.len() == 0,
    ensures
        committed(c, acked, offset),
{
}

/// Where the metadata that a follower lacks begins, if it lacks any. `acked` is the highest
/// offset that it acknowledged, and `log_end` where the leader's log ends.
pub fn catch_up_from(acked: Option<u64>, log_end: u64) -> (r: Option<u64>)
    ensures
        r == (match acked {
            None => if log_end > 0 {
                Some(0u64)
            } else {
                None
            },
            Some(a) => if a + 1 < log_end {
                Some((a + 1) as u64)
            } else {
                None
            },
        }),
{
    match acked {
        None => if log_end > 0 {
            Some(0)
        } else {
            None
        },
        Some(a) => if a < u64::MAX && a + 1 < log_end {
            Some(a + 1)
        } else {
            None
        },
    }
}

/// The message about a metadata record that was not committed.
pub open spec fn not_committed(offset: u64) -> Seq<char> {
    "NOT_ENOUGH_CONTROLLERS: metadata record at offset "@ + decimal(offset as nat)
        + " was not acknowledged by a majority of the controller quorum"@
}

/// What the proposer of a metadata record is told if it was not committed.
pub fn uncommitted_message(offset: u64) -> (r: String)
    ensures
        r@ == not_committed(offset),
{
    let number: String = decimal_text(offset);
    concat3(
        "NOT_ENOUGH_CONTROLLERS: metadata record at offset ",
        number.as_str(),
        " was not acknowledged by a majority of the controller quorum",
    )
}

impl StorageEngine {
    /// Whether this node may change the metadata.
    pub fn propose_metadata(&self) -> (r: Result<(), String>)
        ensures
            match r {
                Ok(()) => self.role.is_leader,
                Err(e) => !self.role.is_leader && e@
                    == "NOT_CONTROLLER: this node is not the cluster leader"@,
            },
    {
        if self.role.is_leader {
            Ok(())
        } else {
            Err(owned("NOT_CONTROLLER: this node is not the cluster leader"))
        }
    }

    /// Whether this node may change the set of nodes in sync of a partition.
    pub fn propose_isr_update(&self, topic: &str, partition: u32) -> (r: Result<(), String>)
        requires
            self.wf(),
        ensures
            ({
                let ok = leads(self@, self.config, self.role.is_leader, topic@, partition);
                match r {
                    Ok(()) => ok,
                    Err(e) => !ok && e@
                        == "NOT_PARTITION_LEADER: only the current partition leader may update its ISR"@,
                }
            }),
    {
        if self.is_partition_leader(topic, partition) {
            Ok(())
        } else {
            Err(
                owned(
                    "NOT_PARTITION_LEADER: only the current partition leader may update its ISR",
                ),
            )
        }
    }

    /// Whether this node may move a partition to another leader.
    pub fn propose_partition_failover(&self) -> (r: Result<(), String>)
        ensures
            match r {
                Ok(()) => self.role.is_leader,
                Err(e) => !self.role.is_leader && e@
                    == "NOT_CONTROLLER: only the cluster leader may fail a partition over"@,
            },
    {
        if self.role.is_leader {
            Ok(())
        } else {
            Err(owned("NOT_CONTROLLER: only the cluster leader may fail a partition over"))
        }
    }
}

} // verus!
