//! One consumer group. Times are nanoseconds.
use crate::assoc::AssocMap;
use crate::text::{chars_of, find_text, has_text, lower_chars, lowered, same_text};
use vstd::prelude::*;
use vstd::string::*;

verus! {

/// Why a member was removed from its group.
#[derive(Debug, Clone, Copy, PartialEq, Eq, Structural)]
pub enum EvictionReason {
    /// No heartbeat came within the session timeout: the member is presumed dead.
    SessionTimeout,
    /// Heartbeats came, but no fetch within the poll interval: the member is alive and stuck.
    StalledConsumption,
}

/// One removal of a member.
#[derive(Debug)]
pub struct EvictionRecord {
    pub member_id: String,
    pub reason: EvictionReason,
    pub at: u64,
}

/// How many removals a group remembers.
pub const MAX_RECENT_EVICTIONS: usize = 20;

#[derive(Debug, Clone, Copy, PartialEq, Eq, Structural)]
pub enum GroupState {
    Empty,
    PreparingRebalance,
    CompletingRebalance,
    Stable,
    Dead,
}

/// A member of a group.
pub struct MemberState {
    pub member_id: String,
    pub client_id: String,
    pub session_timeout: u64,
    /// The partitions of each topic that the member consumes.
    pub assigned_partitions: AssocMap<Vec<u32>>,
    pub last_heartbeat: u64,
    /// When a fetch of this member was last served; at first, when it joined.
    pub last_progress: u64,
    /// The instance that the member is, where its place in the group outlives its process.
    pub group_instance_id: Option<String>,
}

/// A consumer group.
pub struct ConsumerGroup {
    pub group_id: String,
    pub state: GroupState,
    pub generation_id: u32,
    pub leader: Option<String>,
    pub members: AssocMap<MemberState>,
    /// The assignor that was agreed on when the group last formed.
    pub protocol_name: Option<String>,
    /// When the join window closes, where one was opened.
    pub rebalance_deadline: Option<u64>,
    /// The member that each instance is.
    pub static_members: AssocMap<String>,
    /// Behind the member ids of instances.
    pub member_id_seq: u64,
    /// The last removals, oldest first.
    pub recent_evictions: Vec<EvictionRecord>,
}

/// What a member is.
#[verifier::ext_equal]
pub struct MemberView {
    pub member_id: Seq<char>,
    pub client_id: Seq<char>,
    pub session_timeout: u64,
    pub assigned: Map<Seq<char>, Seq<u32>>,
    pub last_heartbeat: u64,
    pub last_progress: u64,
    pub instance: Option<Seq<char>>,
}

/// What a removal was.
pub struct EvictionView {
    pub member_id: Seq<char>,
    pub reason: EvictionReason,
    pub at: u64,
}

/// What a group is.
#[verifier::ext_equal]
pub struct GroupView {
    pub group_id: Seq<char>,
    pub state: GroupState,
    pub generation_id: u32,
    pub leader: Option<Seq<char>>,
    pub members: Map<Seq<char>, MemberView>,
    pub protocol: Option<Seq<char>>,
    pub deadline: Option<u64>,
    pub statics: Map<Seq<char>, Seq<char>>,
    pub seq: u64,
    pub evictions: Seq<EvictionView>,
}

pub open spec fn text_of(s: Option<String>) -> Option<Seq<char>> {
    match s {
        Some(t) => Some(t@),
        None => None,
    }
}

impl MemberState {
    pub open spec fn view(self) -> MemberView {
        MemberView {
            member_id: self.member_id@,
            client_id: self.client_id@,
            session_timeout: self.session_timeout,
            assigned: assignment_views(self.assigned_partitions@),
            last_heartbeat: self.last_heartbeat,
            last_progress: self.last_progress,
            instance: text_of(self.group_instance_id),
        }
    }
}

impl EvictionRecord {
    pub open spec fn view(self) -> EvictionView {
        EvictionView { member_id: self.member_id@, reason: self.reason, at: self.at }
    }
}

pub open spec fn assignment_views(m: Map<Seq<char>, Vec<u32>>) -> Map<Seq<char>, Seq<u32>> {
    m.map_values(|v: Vec<u32>| v@)
}

pub open spec fn member_views(m: Map<Seq<char>, MemberState>) -> Map<Seq<char>, MemberView> {
    m.map_values(|x: MemberState| x@)
}

pub open spec fn text_views(m: Map<Seq<char>, String>) -> Map<Seq<char>, Seq<char>> {
    m.map_values(|x: String| x@)
}

pub open spec fn eviction_views(s: Seq<EvictionRecord>) -> Seq<EvictionView> {
    s.map_values(|x: EvictionRecord| x@)
}

pub proof fn lemma_member_views(m: Map<Seq<char>, MemberState>, k: Seq<char>, v: MemberState)
    ensures
        member_views(m.insert(k, v)) == member_views(m).insert(k, v@),
        member_views(m.remove(k)) == member_views(m).remove(k),
{
    assert(member_views(m.insert(k, v)) =~= member_views(m).insert(k, v@));
    assert(member_views(m.remove(k)) =~= member_views(m).remove(k));
}

pub proof fn lemma_text_views(m: Map<Seq<char>, String>, k: Seq<char>, v: String)
    ensures
        text_views(m.insert(k, v)) == text_views(m).insert(k, v@),
        text_views(m.remove(k)) == text_views(m).remove(k),
{
    assert(text_views(m.insert(k, v)) =~= text_views(m).insert(k, v@));
    assert(text_views(m.remove(k)) =~= text_views(m).remove(k));
}

/// The last `n` of `s`.
pub open spec fn last_of<T>(s: Seq<T>, n: int) -> Seq<T> {
    if s.len() <= n {
        s
    } else {
        s.skip(s.len() - n)
    }
}

/// Whether a protocol name is that of a cooperative assignor.
pub open spec fn is_cooperative_name(name: Option<Seq<char>>) -> bool {
    match name {
        Some(p) => has_text(lowered(p), "cooperative"@),
        None => false,
    }
}

impl ConsumerGroup {
    pub open spec fn view(self) -> GroupView {
        GroupView {
            group_id: self.group_id@,
            state: self.state,
            generation_id: self.generation_id,
            leader: text_of(self.leader),
            members: member_views(self.members@),
            protocol: text_of(self.protocol_name),
            deadline: self.rebalance_deadline,
            statics: text_views(self.static_members@),
            seq: self.member_id_seq,
            evictions: eviction_views(self.recent_evictions@),
        }
    }

    /// A group without members.
    pub fn new(group_id: String) -> (r: Self)
        ensures
            r@ == GroupView::new(group_id@),
            r.recent_evictions@.len() == 0,
    {
        let r = ConsumerGroup {
            group_id,
            state: GroupState::Empty,
            generation_id: 0,
            leader: None,
            members: AssocMap::new(),
            protocol_name: None,
            rebalance_deadline: None,
            static_members: AssocMap::new(),
            member_id_seq: 0,
            recent_evictions: Vec::new(),
        };
        assert(r@ =~= GroupView::new(group_id@));
        r
    }

    /// Remembers a removal, and forgets the oldest beyond `MAX_RECENT_EVICTIONS`.
    pub fn record_eviction(&mut self, member_id: String, reason: EvictionReason, at: u64)
        ensures
            final(self)@ == (GroupView {
                evictions: last_of(
                    old(self)@.evictions.push(EvictionView { member_id: member_id@, reason, at }),
                    MAX_RECENT_EVICTIONS as int,
                ),
                ..old(self)@
            }),
            *final(self) == (ConsumerGroup {
                recent_evictions: final(self).recent_evictions,
                ..*old(self)
            }),
    {
        let ghost all = self.recent_evictions@.push(EvictionRecord { member_id, reason, at });
        self.recent_evictions.push(EvictionRecord { member_id, reason, at });
        assert(all.skip(0) =~= all);
        while self.recent_evictions.len() > MAX_RECENT_EVICTIONS
            invariant
                *self == (ConsumerGroup { recent_evictions: self.recent_evictions, ..*old(self) }),
                self.recent_evictions@.len() <= all.len(),
                self.recent_evictions@ == all.skip(all.len() - self.recent_evictions@.len()),
                all.len() <= MAX_RECENT_EVICTIONS ==> self.recent_evictions@.len() == all.len(),
                all.len() > MAX_RECENT_EVICTIONS ==> self.recent_evictions@.len()
                    >= MAX_RECENT_EVICTIONS,
            decreases self.recent_evictions@.len(),
        {
            let _ = self.recent_evictions.remove(0);
            assert(self.recent_evictions@ =~= all.skip(
                all.len() - self.recent_evictions@.len(),
            ));
        }
        proof {
            let e = EvictionView { member_id: member_id@, reason, at };
            assert(eviction_views(all) =~= old(self)@.evictions.push(e));
            assert(eviction_views(self.recent_evictions@) =~= last_of(
                eviction_views(all),
                MAX_RECENT_EVICTIONS as int,
            ));
        }
    }

    /// Whether the join window is open at `now`.
    pub fn join_window_open(&self, now: u64) -> (r: bool)
        ensures
            r == (self@.deadline matches Some(d) && now < d),
    {
        match self.rebalance_deadline {
            Some(deadline) => now < deadline,
            None => false,
        }
    }

    /// Whether the group agreed on a cooperative assignor.
    pub fn is_cooperative(&self) -> (r: bool)
        ensures
            r == is_cooperative_name(self@.protocol),
    {
        match &self.protocol_name {
            Some(p) => {
                let name: Vec<char> = lower_chars(p.as_str());
                let word: Vec<char> = chars_of("cooperative");
                find_text(name.as_slice(), word.as_slice()).is_some()
            },
            None => false,
        }
    }

    /// Whether `member_id` leads the group.
    pub fn is_led_by(&self, member_id: &str) -> (r: bool)
        ensures
            r == (self@.leader == Some(member_id@)),
    {
        match &self.leader {
            Some(leader) => same_text(leader.as_str(), member_id),
            None => false,
        }
    }
}

impl GroupView {
    /// A group without members.
    pub open spec fn new(group_id: Seq<char>) -> GroupView {
        GroupView {
            group_id,
            state: GroupState::Empty,
            generation_id: 0,
            leader: None,
            members: Map::empty(),
            protocol: None,
            deadline: None,
            statics: Map::empty(),
            seq: 0,
            evictions: Seq::empty(),
        }
    }
}

} // verus!
