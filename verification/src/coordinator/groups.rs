//! The coordinator of all consumer groups. Times are nanoseconds.
use crate::assoc::{position, AssocMap};
use crate::coordinator::group::{
    assignment_views, eviction_views, is_cooperative_name, lemma_member_views, lemma_text_views,
    ConsumerGroup, EvictionRecord, EvictionView, GroupState, GroupView, MemberState, MemberView,
};
use crate::coordinator::membership::{
    join_answer, joined, joining_id, keeps_place, no_members, or_empty, pruned, rejoined,
    session_timeout_of, DEFAULT_MAX_POLL_INTERVAL, DEFAULT_SESSION_TIMEOUT, MAX_SESSION_TIMEOUT,
    MIN_SESSION_TIMEOUT,
};
use crate::text::{decimal, owned, push_decimal};
use vstd::prelude::*;
use vstd::slice::*;
use vstd::string::*;

verus! {

/// All consumer groups.
pub struct GroupCoordinator {
    pub groups: AssocMap<ConsumerGroup>,
    /// How long a join window stays open.
    pub initial_rebalance_delay: u64,
    /// How long a member may go without a fetch.
    pub max_poll_interval: u64,
}

/// The partitions of one topic that the leader gives to one member.
#[derive(Debug)]
pub struct MemberAssignment {
    pub member_id: String,
    pub topic: String,
    pub partitions: Vec<u32>,
}

/// A member as it is described.
#[derive(Debug)]
pub struct DescribedGroupMember {
    pub member_id: String,
    pub assigned_partitions: Vec<(String, u32)>,
}

/// A group as it is described.
#[derive(Debug)]
pub struct GroupDescription {
    pub group_id: String,
    pub state_str: String,
    pub members: Vec<DescribedGroupMember>,
}

pub open spec fn group_views(m: Map<Seq<char>, ConsumerGroup>) -> Map<Seq<char>, GroupView> {
    m.map_values(|g: ConsumerGroup| g@)
}

proof fn lemma_group_views(m: Map<Seq<char>, ConsumerGroup>, k: Seq<char>, g: ConsumerGroup)
    ensures
        group_views(m.insert(k, g)) == group_views(m).insert(k, g@),
{
    assert(group_views(m.insert(k, g)) =~= group_views(m).insert(k, g@));
}

proof fn lemma_assignment_views(m: Map<Seq<char>, Vec<u32>>, k: Seq<char>, v: Vec<u32>)
    ensures
        assignment_views(m.insert(k, v)) == assignment_views(m).insert(k, v@),
{
    assert(assignment_views(m.insert(k, v)) =~= assignment_views(m).insert(k, v@));
}

/// `members` after one assignment; one for a member that is not there is ignored.
pub open spec fn assigned_one(
    members: Map<Seq<char>, MemberView>,
    a: MemberAssignment,
) -> Map<Seq<char>, MemberView> {
    if members.contains_key(a.member_id@) {
        let m = members[a.member_id@];
        members.insert(
            a.member_id@,
            MemberView { assigned: m.assigned.insert(a.topic@, a.partitions@), ..m },
        )
    } else {
        members
    }
}

/// `members` after assignments, in order.
pub open spec fn assigned_all(
    members: Map<Seq<char>, MemberView>,
    assignments: Seq<MemberAssignment>,
) -> Map<Seq<char>, MemberView>
    decreases assignments.len(),
{
    if assignments.len() == 0 {
        members
    } else {
        assigned_one(assigned_all(members, assignments.drop_last()), assignments.last())
    }
}

proof fn lemma_assigned_keys(members: Map<Seq<char>, MemberView>, assignments: Seq<MemberAssignment>)
    ensures
        assigned_all(members, assignments).dom() == members.dom(),
    decreases assignments.len(),
{
    if assignments.len() > 0 {
        lemma_assigned_keys(members, assignments.drop_last());
        assert(assigned_all(members, assignments).dom() =~= members.dom());
    }
}

/// "Generation mismatch: expected .., got .."
pub open spec fn mismatch_text(prefix: Seq<char>, expected: u32, got: u32) -> Seq<char> {
    prefix + decimal(expected as nat) + ", got "@ + decimal(got as nat)
}

fn mismatch(prefix: &str, expected: u32, got: u32) -> (r: String)
    ensures
        r@ == mismatch_text(prefix@, expected, got),
{
    let mut s = owned(prefix);
    push_decimal(&mut s, expected as u64);
    s.append(", got ");
    push_decimal(&mut s, got as u64);
    s
}

/// A copy of an assignment.
fn copy_assignment(a: &AssocMap<Vec<u32>>) -> (r: AssocMap<Vec<u32>>)
    ensures
        assignment_views(r@) == assignment_views(a@),
        r.names() == a.names(),
{
    let mut out: AssocMap<Vec<u32>> = AssocMap::new();
    let n: usize = a.len();
    let mut i: usize = 0;
    while i < n
        invariant
            i <= n,
            n == a.names().len(),
            n == a.values().len(),
            a.names().no_duplicates(),
            forall|j: int|
                0 <= j < n ==> a@.contains_key(#[trigger] a.names()[j]) && a@[a.names()[j]]
                    == a.values()[j],
            out.names() == a.names().take(i as int),
            forall|j: int|
                0 <= j < i ==> out@.contains_key(#[trigger] a.names()[j]) && out@[a.names()[j]]@
                    == a.values()[j]@,
        decreases n - i,
    {
        let name: String = a.name_at(i).clone();
        let list: Vec<u32> = slice_to_vec(a.value_at(i).as_slice());
        assert(!out@.contains_key(name@)) by {
            if out.names().contains(name@) {
                let j = position(out.names(), name@);
                assert(a.names()[j] == a.names()[i as int]);
            }
        }
        out.insert(name, list);
        i = i + 1;
        assert(out.names() =~= a.names().take(i as int));
    }
    proof {
        assert(out.names() =~= a.names());
        assert forall|k: Seq<char>| a@.contains_key(k) implies #[trigger] out@[k]@ == a@[k]@ by {
            assert(a.names().contains(k));
            let j = position(a.names(), k);
            assert(a.names()[j] == k);
        }
        assert(assignment_views(out@) =~= assignment_views(a@));
    }
    out
}

impl GroupCoordinator {
    pub open spec fn view(self) -> Map<Seq<char>, GroupView> {
        group_views(self.groups@)
    }

    pub open spec fn wf(self) -> bool {
        forall|k: Seq<char>| #[trigger] self.groups@.contains_key(k) ==> self.groups@[k].wf()
    }

    pub open spec fn same_settings(self, other: Self) -> bool {
        &&& self.initial_rebalance_delay == other.initial_rebalance_delay
        &&& self.max_poll_interval == other.max_poll_interval
    }

    /// The removals that a group remembers, oldest first.
    pub open spec fn remembered(self, group_id: Seq<char>) -> Seq<EvictionView> {
        if self@.contains_key(group_id) {
            self@[group_id].evictions
        } else {
            Seq::empty()
        }
    }

    /// The group of that name, or one without members.
    pub open spec fn group_or_new(self, group_id: Seq<char>) -> GroupView {
        if self@.contains_key(group_id) {
            self@[group_id]
        } else {
            GroupView::new(group_id)
        }
    }

    /// The session timeout that a request is given.
    pub fn resolve_session_timeout(requested_ms: Option<u32>) -> (r: u64)
        ensures
            r == session_timeout_of(requested_ms),
            requested_ms is Some ==> MIN_SESSION_TIMEOUT <= r <= MAX_SESSION_TIMEOUT,
    {
        match requested_ms {
            None => DEFAULT_SESSION_TIMEOUT,
            Some(ms) => {
                let requested: u64 = ms as u64 * 1_000_000;
                if requested < MIN_SESSION_TIMEOUT {
                    MIN_SESSION_TIMEOUT
                } else if requested > MAX_SESSION_TIMEOUT {
                    MAX_SESSION_TIMEOUT
                } else {
                    requested
                }
            },
        }
    }

    pub fn with_config(initial_rebalance_delay: u64, max_poll_interval: u64) -> (r: Self)
        ensures
            r.wf(),
            r@ == Map::<Seq<char>, GroupView>::empty(),
            r.initial_rebalance_delay == initial_rebalance_delay,
            r.max_poll_interval == max_poll_interval,
    {
        let r = GroupCoordinator {
            groups: AssocMap::new(),
            initial_rebalance_delay,
            max_poll_interval,
        };
        assert(r@ =~= Map::<Seq<char>, GroupView>::empty());
        r
    }

    pub fn with_rebalance_delay(initial_rebalance_delay: u64) -> (r: Self)
        ensures
            r.wf(),
            r@ == Map::<Seq<char>, GroupView>::empty(),
            r.initial_rebalance_delay == initial_rebalance_delay,
            r.max_poll_interval == DEFAULT_MAX_POLL_INTERVAL,
    {
        Self::with_config(initial_rebalance_delay, DEFAULT_MAX_POLL_INTERVAL)
    }

    pub fn new() -> (r: Self)
        ensures
            r.wf(),
            r@ == Map::<Seq<char>, GroupView>::empty(),
            r.initial_rebalance_delay == 3_000_000_000,
            r.max_poll_interval == DEFAULT_MAX_POLL_INTERVAL,
    {
        Self::with_rebalance_delay(3_000_000_000)
    }

    pub fn initial_rebalance_delay(&self) -> (r: u64)
        ensures
            r == self.initial_rebalance_delay,
    {
        self.initial_rebalance_delay
    }

    pub fn max_poll_interval(&self) -> (r: u64)
        ensures
            r == self.max_poll_interval,
    {
        self.max_poll_interval
    }

    /// How long the open join window of a group stays open, or nothing where none is open.
    pub fn join_window_remaining(&self, group_id: &str, now: u64) -> (r: Option<u64>)
        ensures
            r == (if self@.contains_key(group_id@) && (self@[group_id@].deadline matches Some(d) && now
                < d) {
                Some((self@[group_id@].deadline->0 - now) as u64)
            } else {
                None
            }),
    {
        match self.groups.get(group_id) {
            Some(group) => match group.rebalance_deadline {
                Some(deadline) => if now < deadline {
                    Some(deadline - now)
                } else {
                    None
                },
                None => None,
            },
            None => None,
        }
    }

    /// Closes a join window whose time is over, and goes on to assignment.
    pub fn close_join_window(&mut self, group_id: &str, now: u64)
        requires
            old(self).wf(),
        ensures
            final(self).wf(),
            final(self).same_settings(*old(self)),
            final(self)@ == window_closed(old(self)@, group_id@, now),
    {
        if let Some(i) = self.groups.find(group_id) {
            let ghost m = self.groups@;
            let over: bool = match self.groups.value_at(i).rebalance_deadline {
                Some(deadline) => deadline <= now,
                None => false,
            };
            if over {
                let group: &mut ConsumerGroup = self.groups.value_mut(i);
                group.rebalance_deadline = None;
                if group.state == GroupState::PreparingRebalance {
                    group.state = GroupState::CompletingRebalance;
                }
                proof {
                    lemma_group_views(m, group_id@, *group);
                }
            }
        }
    }

    /// The generation of a group, whether `member_id` leads it, and its protocol.
    pub fn join_result(&self, group_id: &str, member_id: &str) -> (r: Option<(u32, bool, String)>)
        ensures
            r is Some <==> self@.contains_key(group_id@),
            r matches Some(answer) ==> answer.0 == self@[group_id@].generation_id && answer.1 == (
            self@[group_id@].leader == Some(member_id@)) && answer.2@ == or_empty(
                self@[group_id@].protocol,
            ),
    {
        match self.groups.get(group_id) {
            Some(group) => {
                let protocol: String = match &group.protocol_name {
                    Some(p) => p.clone(),
                    None => String::new(),
                };
                Some((group.generation_id, group.is_led_by(member_id), protocol))
            },
            None => None,
        }
    }

    /// Takes a member into a group, which is begun if there is none of that name. A member that
    /// names an instance which the group keeps a place for gets that place back, and the group
    /// does not rebalance.
    pub fn join_group(
        &mut self,
        group_id: &str,
        member_id: &str,
        group_instance_id: Option<&str>,
        protocols: Vec<String>,
        session_timeout_ms: Option<u32>,
        now: u64,
        unix_nanos: u128,
    ) -> (r: Result<(String, u32, bool, String), String>)
        requires
            old(self).wf(),
            now + 2 * old(self).initial_rebalance_delay <= u64::MAX,
        ensures
            final(self).wf(),
            final(self).same_settings(*old(self)),
            joined_by(
                *old(self),
                *final(self),
                group_id@,
                member_id@,
                match group_instance_id {
                    Some(i) => Some(i@),
                    None => None,
                },
                if protocols@.len() > 0 {
                    Some(protocols@[0]@)
                } else {
                    None
                },
                session_timeout_ms,
                now,
                unix_nanos,
                r,
            ),
    {
        let ghost old_groups = self.groups@;
        if self.groups.find(group_id).is_none() {
            self.groups.insert(owned(group_id), ConsumerGroup::new(owned(group_id)));
        }
        let i: usize = match self.groups.find(group_id) {
            Some(i) => i,
            None => 0,
        };
        let ghost m = self.groups@;
        let delay: u64 = self.initial_rebalance_delay;
        let max_poll_interval: u64 = self.max_poll_interval;
        let group: &mut ConsumerGroup = self.groups.value_mut(i);
        group.prune_expired_members(now, max_poll_interval);
        let ghost p = group@;
        let session_timeout: u64 = Self::resolve_session_timeout(session_timeout_ms);
        let rejoined: Option<(String, u32, bool, String)> = match group_instance_id {
            Some(instance_id) => group.rejoin_static(instance_id, session_timeout, now),
            None => None,
        };
        let answer: (String, u32, bool, String) = match rejoined {
            Some(answer) => answer,
            None => group.take_in(
                member_id,
                group_instance_id,
                &protocols,
                session_timeout,
                now,
                unix_nanos,
                delay,
            ),
        };
        proof {
            lemma_group_views(m, group_id@, *group);
            assert(m.insert(group_id@, *group) =~= old_groups.insert(group_id@, *group));
            lemma_group_views(old_groups, group_id@, *group);
            assert(pruned(old(self).group_or_new(group_id@), p, now, max_poll_interval));
        }
        Ok(answer)
    }
}

/// The groups after the join window of one was closed, if its time was over.
pub open spec fn window_closed(m: Map<Seq<char>, GroupView>, group_id: Seq<char>, now: u64) -> Map<
    Seq<char>,
    GroupView,
> {
    let g = m[group_id];
    if m.contains_key(group_id) && (g.deadline matches Some(d) && d <= now) {
        m.insert(
            group_id,
            GroupView {
                deadline: None,
                state: if g.state is PreparingRebalance {
                    GroupState::CompletingRebalance
                } else {
                    g.state
                },
                ..g
            },
        )
    } else {
        m
    }
}

/// The groups after a fetch of a member was served.
pub open spec fn progressed(
    m: Map<Seq<char>, GroupView>,
    group_id: Seq<char>,
    member_id: Seq<char>,
    now: u64,
) -> Map<Seq<char>, GroupView> {
    let g = m[group_id];
    if m.contains_key(group_id) && g.members.contains_key(member_id) {
        m.insert(
            group_id,
            GroupView {
                members: g.members.insert(
                    member_id,
                    MemberView { last_progress: now, ..g.members[member_id] },
                ),
                ..g
            },
        )
    } else {
        m
    }
}

/// How a request to join is answered, and what becomes of the groups.
pub open spec fn joined_by(
    before: GroupCoordinator,
    after: GroupCoordinator,
    group_id: Seq<char>,
    member_id: Seq<char>,
    instance: Option<Seq<char>>,
    protocol: Option<Seq<char>>,
    session_timeout_ms: Option<u32>,
    now: u64,
    unix_nanos: u128,
    r: Result<(String, u32, bool, String), String>,
) -> bool {
    &&& r is Ok
    &&& exists|p: GroupView| #[trigger]
        pruned(before.group_or_new(group_id), p, now, before.max_poll_interval) && joins_as(
            p,
            member_id,
            instance,
            protocol,
            session_timeout_of(session_timeout_ms),
            now,
            unix_nanos,
            before.initial_rebalance_delay,
            after@[group_id],
            r->Ok_0,
        )
    &&& after@.contains_key(group_id)
    &&& after@ == before@.insert(group_id, after@[group_id])
}

/// How a request to join is answered, and what becomes of the group `p`.
pub open spec fn joins_as(
    p: GroupView,
    member_id: Seq<char>,
    instance: Option<Seq<char>>,
    protocol: Option<Seq<char>>,
    session_timeout: u64,
    now: u64,
    unix_nanos: u128,
    delay: u64,
    after: GroupView,
    answer: (String, u32, bool, String),
) -> bool {
    if instance matches Some(i) && keeps_place(p, i) {
        let i = instance->0;
        &&& after == rejoined(p, i, session_timeout, now)
        &&& answer.0@ == after.statics[i]
        &&& answer.1 == p.generation_id
        &&& answer.2 == (p.leader == Some(p.statics[i]))
        &&& answer.3@ == or_empty(p.protocol)
    } else {
        let id = joining_id(p, member_id, instance, unix_nanos);
        &&& after == joined(p, id, instance, protocol, session_timeout, now, delay)
        &&& join_answer(answer, after, id)
    }
}

/// How a member's request to sync is answered, and what becomes of the group `p`.
pub open spec fn syncs_as(
    p: GroupView,
    generation_id: u32,
    member_id: Seq<char>,
    assignments: Seq<MemberAssignment>,
    after: GroupView,
    r: Result<AssocMap<Vec<u32>>, String>,
) -> bool {
    if generation_id != p.generation_id {
        &&& after == p
        &&& r matches Err(e) && e@ == mismatch_text(
            "Generation mismatch: expected "@,
            p.generation_id,
            generation_id,
        )
    } else if !p.members.contains_key(member_id) {
        after == p && (r matches Err(e) && e@ == "Member not found in group"@)
    } else if p.leader == Some(member_id) {
        &&& after == (GroupView {
            members: assigned_all(p.members, assignments),
            state: GroupState::Stable,
            ..p
        })
        &&& r matches Ok(own) && assignment_views(own@) == after.members[member_id].assigned
    } else if !(p.state is Stable) {
        after == p && (r matches Err(e) && e@ == "REBALANCE_IN_PROGRESS"@)
    } else {
        after == p && (r matches Ok(own) && assignment_views(own@)
            == p.members[member_id].assigned)
    }
}

/// How a heartbeat is answered, and what becomes of the group `p`.
pub open spec fn beats_as(
    p: GroupView,
    generation_id: u32,
    member_id: Seq<char>,
    now: u64,
    after: GroupView,
    r: Result<(), String>,
) -> bool {
    let refreshed = GroupView {
        members: p.members.insert(
            member_id,
            MemberView { last_heartbeat: now, ..p.members[member_id] },
        ),
        ..p
    };
    if generation_id != p.generation_id {
        if is_cooperative_name(p.protocol) && !(p.state is Stable) && p.members.contains_key(
            member_id,
        ) {
            after == refreshed && (r matches Err(e) && e@ == "REBALANCE_IN_PROGRESS"@)
        } else {
            &&& after == p
            &&& r matches Err(e) && e@ == mismatch_text(
                "REBALANCE_IN_PROGRESS: generation mismatch, expected "@,
                p.generation_id,
                generation_id,
            )
        }
    } else if p.members.contains_key(member_id) {
        after == refreshed && r is Ok
    } else {
        after == p && (r matches Err(e) && e@ == "Group or member not found"@)
    }
}

/// Who leaves: the member that the instance is, where one is named and known, and otherwise the
/// member that is named.
pub open spec fn leaver(g: GroupView, member_id: Seq<char>, instance: Option<Seq<char>>) -> Seq<char> {
    if instance matches Some(i) && g.statics.contains_key(i) {
        g.statics[instance->0]
    } else {
        member_id
    }
}

/// `g` after a member left.
pub open spec fn left_as(
    g: GroupView,
    member_id: Seq<char>,
    instance: Option<Seq<char>>,
    after: GroupView,
) -> bool {
    let id = leaver(g, member_id, instance);
    let statics = match instance {
        Some(i) => g.statics.remove(i),
        None => g.statics,
    };
    &&& after.members == g.members.remove(id)
    &&& after.statics == (if g.members.contains_key(id) && g.members[id].instance is Some {
        statics.remove(g.members[id].instance->0)
    } else {
        statics
    })
    &&& if no_members(after.members) {
        after.state is Empty && after.leader is None
    } else {
        &&& after.state is PreparingRebalance
        &&& if g.leader == Some(id) {
            after.leader matches Some(l) && after.members.contains_key(l)
        } else {
            after.leader == g.leader
        }
    }
    &&& after.group_id == g.group_id
    &&& after.generation_id == g.generation_id
    &&& after.protocol == g.protocol
    &&& after.deadline == g.deadline
    &&& after.seq == g.seq
    &&& after.evictions == g.evictions
}

impl ConsumerGroup {
    /// Whether a member of that name is there.
    fn has_member(&self, member_id: &str) -> (r: bool)
        ensures
            r == self@.members.contains_key(member_id@),
    {
        self.members.contains(member_id)
    }

    /// Notes a heartbeat of a member, where it is there.
    fn refresh(&mut self, member_id: &str, now: u64) -> (r: bool)
        ensures
            r == old(self)@.members.contains_key(member_id@),
            final(self).recent_evictions == old(self).recent_evictions,
            final(self)@ == (if r {
                GroupView {
                    members: old(self)@.members.insert(
                        member_id@,
                        MemberView { last_heartbeat: now, ..old(self)@.members[member_id@] },
                    ),
                    ..old(self)@
                }
            } else {
                old(self)@
            }),
    {
        match self.members.find(member_id) {
            Some(i) => {
                let ghost m = self.members@;
                let member: &mut MemberState = self.members.value_mut(i);
                member.last_heartbeat = now;
                proof {
                    lemma_member_views(m, member_id@, *member);
                }
                true
            },
            None => false,
        }
    }

    /// Applies one assignment of the leader.
    fn assign(&mut self, a: MemberAssignment)
        ensures
            final(self).recent_evictions == old(self).recent_evictions,
            final(self)@ == (GroupView { members: assigned_one(old(self)@.members, a), ..old(self)@ }),
    {
        match self.members.find(a.member_id.as_str()) {
            Some(i) => {
                let ghost m = self.members@;
                let ghost k = a.member_id@;
                let member: &mut MemberState = self.members.value_mut(i);
                let ghost before = member.assigned_partitions@;
                proof {
                    lemma_assignment_views(before, a.topic@, a.partitions);
                }
                member.assigned_partitions.insert(a.topic, a.partitions);
                proof {
                    lemma_member_views(m, k, *member);
                    assert(member@ =~= (MemberView {
                        assigned: m[k]@.assigned.insert(a.topic@, a.partitions@),
                        ..m[k]@
                    }));
                }
            },
            None => {},
        }
    }

    /// A copy of what a member of the group is assigned.
    fn assignment_of(&self, member_id: &str) -> (r: AssocMap<Vec<u32>>)
        requires
            self@.members.contains_key(member_id@),
        ensures
            assignment_views(r@) == self@.members[member_id@].assigned,
    {
        match self.members.get(member_id) {
            Some(m) => copy_assignment(&m.assigned_partitions),
            None => AssocMap::new(),
        }
    }

    fn sync(&mut self, generation_id: u32, member_id: &str, assignments: Vec<MemberAssignment>) -> (r:
        Result<AssocMap<Vec<u32>>, String>)
        ensures
            final(self).recent_evictions == old(self).recent_evictions,
            syncs_as(old(self)@, generation_id, member_id@, assignments@, final(self)@, r),
    {
        if generation_id != self.generation_id {
            return Err(
                mismatch("Generation mismatch: expected ", self.generation_id, generation_id),
            );
        }
        if !self.has_member(member_id) {
            return Err(owned("Member not found in group"));
        }
        if self.is_led_by(member_id) {
            let ghost p = self@;
            let ghost all = assignments@;
            for a in it: assignments
                invariant
                    it.seq() == all,
                    self.recent_evictions == old(self).recent_evictions,
                    self@ == (GroupView {
                        members: assigned_all(p.members, all.take(it.index() as int)),
                        ..p
                    }),
            {
                proof {
                    assert(all.take(it.index() + 1).drop_last() =~= all.take(it.index() as int));
                }
                self.assign(a);
            }
            proof {
                assert(all.take(all.len() as int) =~= all);
                lemma_assigned_keys(p.members, all);
            }
            self.state = GroupState::Stable;
        } else if self.state != GroupState::Stable {
            return Err(owned("REBALANCE_IN_PROGRESS"));
        }
        Ok(self.assignment_of(member_id))
    }

    fn beat(&mut self, generation_id: u32, member_id: &str, now: u64) -> (r: Result<(), String>)
        ensures
            final(self).recent_evictions == old(self).recent_evictions,
            beats_as(old(self)@, generation_id, member_id@, now, final(self)@, r),
    {
        if generation_id != self.generation_id {
            if self.is_cooperative() && self.state != GroupState::Stable {
                if self.refresh(member_id, now) {
                    return Err(owned("REBALANCE_IN_PROGRESS"));
                }
            }
            return Err(
                mismatch(
                    "REBALANCE_IN_PROGRESS: generation mismatch, expected ",
                    self.generation_id,
                    generation_id,
                ),
            );
        }
        if self.refresh(member_id, now) {
            Ok(())
        } else {
            Err(owned("Group or member not found"))
        }
    }

    fn leave(&mut self, member_id: &str, group_instance_id: Option<&str>)
        ensures
            final(self).recent_evictions == old(self).recent_evictions,
            left_as(
                old(self)@,
                member_id@,
                match group_instance_id {
                    Some(i) => Some(i@),
                    None => None,
                },
                final(self)@,
            ),
    {
        let ghost g = self@;
        let id: String = match group_instance_id {
            Some(instance_id) => {
                let ghost statics0 = self.static_members@;
                proof {
                    lemma_text_views(statics0, instance_id@, statics0[instance_id@]);
                }
                match self.static_members.remove(instance_id) {
                    Some(resolved) => resolved,
                    None => {
                        assert(g.statics.remove(instance_id@) =~= g.statics);
                        owned(member_id)
                    },
                }
            },
            None => owned(member_id),
        };
        let ghost members0 = self.members@;
        let ghost statics1 = self.static_members@;
        proof {
            lemma_member_views(members0, id@, members0[id@]);
        }
        if let Some(member) = self.members.remove(id.as_str()) {
            if let Some(instance_id) = member.group_instance_id {
                proof {
                    lemma_text_views(statics1, instance_id@, statics1[instance_id@]);
                }
                let _ = self.static_members.remove(instance_id.as_str());
            }
        }
        let n: usize = self.members.len();
        if n == 0 {
            self.state = GroupState::Empty;
            self.leader = None;
            proof {
                assert forall|k: Seq<char>| !#[trigger] self@.members.contains_key(k) by {
                    if self@.members.contains_key(k) {
                        assert(self.members.names().contains(k));
                    }
                }
            }
        } else {
            self.state = GroupState::PreparingRebalance;
            let name: String = self.members.name_at(0).clone();
            assert(self@.members.contains_key(name@));
            if self.is_led_by(id.as_str()) {
                self.leader = Some(name);
            }
        }
    }
}

/// How a request to sync is answered, and what becomes of the groups.
pub open spec fn synced_by(
    before: GroupCoordinator,
    after: GroupCoordinator,
    group_id: Seq<char>,
    generation_id: u32,
    member_id: Seq<char>,
    assignments: Seq<MemberAssignment>,
    now: u64,
    r: Result<AssocMap<Vec<u32>>, String>,
) -> bool {
    &&& !before@.contains_key(group_id) ==> after@ == before@ && (r matches Err(e)
        && e@ == "Group not found"@)
    &&& before@.contains_key(group_id) ==> after@.contains_key(group_id)
        && after@ == before@.insert(group_id, after@[group_id])
        && exists|p: GroupView| #[trigger]
        pruned(before@[group_id], p, now, before.max_poll_interval) && syncs_as(
            p,
            generation_id,
            member_id,
            assignments,
            after@[group_id],
            r,
        )
}

/// How a heartbeat is answered, and what becomes of the groups.
pub open spec fn beaten_by(
    before: GroupCoordinator,
    after: GroupCoordinator,
    group_id: Seq<char>,
    generation_id: u32,
    member_id: Seq<char>,
    now: u64,
    r: Result<(), String>,
) -> bool {
    &&& !before@.contains_key(group_id) ==> after@ == before@ && (r matches Err(e)
        && e@ == "Group or member not found"@)
    &&& before@.contains_key(group_id) ==> after@.contains_key(group_id)
        && after@ == before@.insert(group_id, after@[group_id])
        && exists|p: GroupView| #[trigger]
        pruned(before@[group_id], p, now, before.max_poll_interval) && beats_as(
            p,
            generation_id,
            member_id,
            now,
            after@[group_id],
            r,
        )
}

/// How a member that leaves is answered, and what becomes of the groups.
pub open spec fn left_by(
    before: GroupCoordinator,
    after: GroupCoordinator,
    group_id: Seq<char>,
    member_id: Seq<char>,
    instance: Option<Seq<char>>,
    r: Result<(), String>,
) -> bool {
    &&& !before@.contains_key(group_id) ==> after@ == before@ && (r matches Err(e)
        && e@ == "Group not found"@)
    &&& before@.contains_key(group_id) ==> r is Ok && after@.contains_key(group_id)
        && after@ == before@.insert(group_id, after@[group_id]) && left_as(
        before@[group_id],
        member_id,
        instance,
        after@[group_id],
    )
}

impl GroupCoordinator {
    /// Gives a member its own assignment. The leader's call brings the assignment of all members
    /// and makes the group stable; other members are told to try again until that has happened.
    pub fn sync_group(
        &mut self,
        group_id: &str,
        generation_id: u32,
        member_id: &str,
        assignments: Vec<MemberAssignment>,
        now: u64,
    ) -> (r: Result<AssocMap<Vec<u32>>, String>)
        requires
            old(self).wf(),
        ensures
            final(self).wf(),
            final(self).same_settings(*old(self)),
            synced_by(*old(self), *final(self), group_id@, generation_id, member_id@, assignments@, now, r),
    {
        match self.groups.find(group_id) {
            Some(i) => {
                let ghost m = self.groups@;
                let max_poll_interval: u64 = self.max_poll_interval;
                let group: &mut ConsumerGroup = self.groups.value_mut(i);
                group.prune_expired_members(now, max_poll_interval);
                let ghost p = group@;
                let r: Result<AssocMap<Vec<u32>>, String> = group.sync(
                    generation_id,
                    member_id,
                    assignments,
                );
                proof {
                    lemma_group_views(m, group_id@, *group);
                    assert(pruned(old(self)@[group_id@], p, now, max_poll_interval));
                }
                r
            },
            None => Err(owned("Group not found")),
        }
    }

    /// Notes that a member is alive. A member of an old generation is told to join again; in a
    /// group with a cooperative assignor it is kept alive meanwhile.
    pub fn heartbeat(&mut self, group_id: &str, generation_id: u32, member_id: &str, now: u64) -> (r:
        Result<(), String>)
        requires
            old(self).wf(),
        ensures
            final(self).wf(),
            final(self).same_settings(*old(self)),
            beaten_by(*old(self), *final(self), group_id@, generation_id, member_id@, now, r),
    {
        match self.groups.find(group_id) {
            Some(i) => {
                let ghost m = self.groups@;
                let max_poll_interval: u64 = self.max_poll_interval;
                let group: &mut ConsumerGroup = self.groups.value_mut(i);
                group.prune_expired_members(now, max_poll_interval);
                let ghost p = group@;
                let r: Result<(), String> = group.beat(generation_id, member_id, now);
                proof {
                    lemma_group_views(m, group_id@, *group);
                    assert(pruned(old(self)@[group_id@], p, now, max_poll_interval));
                }
                r
            },
            None => Err(owned("Group or member not found")),
        }
    }

    /// Notes that a fetch of a member was served. A member that is not there is ignored.
    pub fn record_progress(&mut self, group_id: &str, member_id: &str, now: u64)
        requires
            old(self).wf(),
        ensures
            final(self).wf(),
            final(self).same_settings(*old(self)),
            final(self)@ == progressed(old(self)@, group_id@, member_id@, now),
    {
        if let Some(i) = self.groups.find(group_id) {
            let ghost groups0 = self.groups@;
            if let Some(j) = self.groups.value_at(i).members.find(member_id) {
                let group: &mut ConsumerGroup = self.groups.value_mut(i);
                let ghost m = group.members@;
                let member: &mut MemberState = group.members.value_mut(j);
                member.last_progress = now;
                proof {
                    lemma_member_views(m, member_id@, *member);
                    lemma_group_views(groups0, group_id@, *group);
                }
            }
        }
    }

    /// The last removals from a group, oldest first.
    pub fn recent_evictions(&self, group_id: &str) -> (r: Vec<EvictionRecord>)
        ensures
            eviction_views(r@) == self.remembered(group_id@),
    {
        let mut out: Vec<EvictionRecord> = Vec::new();
        match self.groups.get(group_id) {
            Some(group) => {
                let ghost all = group.recent_evictions@;
                let mut i: usize = 0;
                while i < group.recent_evictions.len()
                    invariant
                        i <= all.len(),
                        all == group.recent_evictions@,
                        eviction_views(out@) == eviction_views(all.take(i as int)),
                    decreases all.len() - i,
                {
                    let e: &EvictionRecord = &group.recent_evictions[i];
                    let ghost before = out@;
                    out.push(
                        EvictionRecord {
                            member_id: e.member_id.clone(),
                            reason: e.reason,
                            at: e.at,
                        },
                    );
                    proof {
                        assert(eviction_views(before).len() == eviction_views(
                            all.take(i as int),
                        ).len());
                        assert(eviction_views(out@) =~= eviction_views(before).push(
                            all[i as int]@,
                        ));
                        assert(eviction_views(all.take(i + 1)) =~= eviction_views(
                            all.take(i as int),
                        ).push(all[i as int]@));
                    }
                    i = i + 1;
                }
                assert(all.take(i as int) =~= all);
            },
            None => {
                assert(eviction_views(out@) =~= Seq::empty());
            },
        }
        out
    }

    /// Takes a member out of its group. An instance that is named, and known, stands for the
    /// member that it is, and gives up its place.
    pub fn leave_group(&mut self, group_id: &str, member_id: &str, group_instance_id: Option<&str>) -> (r:
        Result<(), String>)
        requires
            old(self).wf(),
        ensures
            final(self).wf(),
            final(self).same_settings(*old(self)),
            left_by(
                *old(self),
                *final(self),
                group_id@,
                member_id@,
                match group_instance_id {
                    Some(i) => Some(i@),
                    None => None,
                },
                r,
            ),
    {
        match self.groups.find(group_id) {
            Some(i) => {
                let ghost m = self.groups@;
                let group: &mut ConsumerGroup = self.groups.value_mut(i);
                group.leave(member_id, group_instance_id);
                proof {
                    lemma_group_views(m, group_id@, *group);
                }
                Ok(())
            },
            None => Err(owned("Group not found")),
        }
    }
}

} // verus!
