//! Listing and describing consumer groups.
use crate::assoc::{position, AssocMap};
use crate::coordinator::group::{assignment_views, ConsumerGroup, GroupState, GroupView, MemberState, MemberView};
use crate::coordinator::groups::{
    group_views, DescribedGroupMember, GroupCoordinator, GroupDescription,
};
use crate::coordinator::membership::pruned;
use crate::text::owned;
use vstd::prelude::*;
use vstd::string::*;

verus! {

/// The name of a state.
pub open spec fn state_name(state: GroupState) -> Seq<char> {
    match state {
        GroupState::Empty => "Empty"@,
        GroupState::PreparingRebalance => "PreparingRebalance"@,
        GroupState::CompletingRebalance => "CompletingRebalance"@,
        GroupState::Stable => "Stable"@,
        GroupState::Dead => "Dead"@,
    }
}

fn name_of_state(state: GroupState) -> (r: String)
    ensures
        r@ == state_name(state),
{
    match state {
        GroupState::Empty => owned("Empty"),
        GroupState::PreparingRebalance => owned("PreparingRebalance"),
        GroupState::CompletingRebalance => owned("CompletingRebalance"),
        GroupState::Stable => owned("Stable"),
        GroupState::Dead => owned("Dead"),
    }
}

/// Each of `parts` with the topic that it belongs to.
pub open spec fn with_topic(topic: Seq<char>, parts: Seq<u32>) -> Seq<(Seq<char>, u32)> {
    parts.map_values(|p: u32| (topic, p))
}

/// The partitions of each of `topics`, topic by topic.
pub open spec fn flattened(topics: Seq<Seq<char>>, assigned: Map<Seq<char>, Seq<u32>>) -> Seq<
    (Seq<char>, u32),
>
    decreases topics.len(),
{
    if topics.len() == 0 {
        Seq::empty()
    } else {
        flattened(topics.drop_last(), assigned) + with_topic(topics.last(), assigned[topics.last()])
    }
}

pub open spec fn pair_views(s: Seq<(String, u32)>) -> Seq<(Seq<char>, u32)> {
    s.map_values(|e: (String, u32)| (e.0@, e.1))
}

/// `d` describes the member `m` under the id `id`: its partitions, topic by topic.
pub open spec fn describes_member(d: DescribedGroupMember, id: Seq<char>, m: MemberView) -> bool {
    &&& d.member_id@ == id
    &&& exists|topics: Seq<Seq<char>>| #[trigger]
        lists_topics(topics, m.assigned) && pair_views(d.assigned_partitions@) == flattened(
            topics,
            m.assigned,
        )
}

/// `topics` lists each topic of an assignment once.
pub open spec fn lists_topics(topics: Seq<Seq<char>>, assigned: Map<Seq<char>, Seq<u32>>) -> bool {
    topics.no_duplicates() && forall|t: Seq<char>| #[trigger] topics.contains(t) <==> assigned.contains_key(t)
}

/// `d` describes the group `g`: each member once.
pub open spec fn describes(d: GroupDescription, g: GroupView) -> bool {
    &&& d.state_str@ == state_name(g.state)
    &&& forall|i: int|
        0 <= i < d.members@.len() ==> g.members.contains_key((#[trigger] d.members@[i]).member_id@)
            && describes_member(
            d.members@[i],
            d.members@[i].member_id@,
            g.members[d.members@[i].member_id@],
        )
    &&& forall|i: int, j: int|
        0 <= i < j < d.members@.len() ==> (#[trigger] d.members@[i]).member_id@ != (
        #[trigger] d.members@[j]).member_id@
    &&& forall|k: Seq<char>| #[trigger]
        g.members.contains_key(k) ==> exists|i: int|
            0 <= i < d.members@.len() && (#[trigger] d.members@[i]).member_id@ == k
}

/// The partitions of an assignment, topic by topic.
fn flatten(a: &AssocMap<Vec<u32>>) -> (r: Vec<(String, u32)>)
    ensures
        pair_views(r@) == flattened(a.names(), assignment_views(a@)),
        lists_topics(a.names(), assignment_views(a@)),
{
    let mut out: Vec<(String, u32)> = Vec::new();
    let n: usize = a.len();
    let ghost names = a.names();
    let ghost m = assignment_views(a@);
    let mut i: usize = 0;
    assert(pair_views(out@) =~= flattened(names.take(0), m));
    while i < n
        invariant
            i <= n,
            n == names.len(),
            names == a.names(),
            n == a.values().len(),
            m == assignment_views(a@),
            forall|j: int|
                0 <= j < n ==> a@.contains_key(#[trigger] names[j]) && a@[names[j]]
                    == a.values()[j],
            pair_views(out@) == flattened(names.take(i as int), m),
        decreases n - i,
    {
        let topic: &String = a.name_at(i);
        let parts: &Vec<u32> = a.value_at(i);
        let ghost before = pair_views(out@);
        let mut k: usize = 0;
        assert(pair_views(out@) =~= before + with_topic(topic@, parts@.take(0)));
        while k < parts.len()
            invariant
                k <= parts@.len(),
                pair_views(out@) == before + with_topic(topic@, parts@.take(k as int)),
            decreases parts@.len() - k,
        {
            let ghost prev = pair_views(out@);
            out.push((topic.clone(), parts[k]));
            proof {
                assert(pair_views(out@) =~= prev.push((topic@, parts@[k as int])));
                assert(with_topic(topic@, parts@.take(k + 1)) =~= with_topic(
                    topic@,
                    parts@.take(k as int),
                ).push((topic@, parts@[k as int])));
                assert(pair_views(out@) =~= before + with_topic(topic@, parts@.take(k + 1)));
            }
            k = k + 1;
        }
        proof {
            assert(parts@.take(k as int) =~= parts@);
            assert(names.take(i + 1).drop_last() =~= names.take(i as int));
            assert(a@.contains_key(names[i as int]));
        }
        i = i + 1;
    }
    assert(names.take(i as int) =~= names);
    out
}

/// How a request to describe a group is answered, and what becomes of the groups.
pub open spec fn group_described(
    before: GroupCoordinator,
    after: GroupCoordinator,
    group_id: Seq<char>,
    now: u64,
    r: Option<GroupDescription>,
) -> bool {
    &&& r is Some <==> before@.contains_key(group_id)
    &&& r is None ==> after@ == before@
    &&& r matches Some(d) ==> after@.contains_key(group_id) && after@
        == before@.insert(group_id, after@[group_id]) && pruned(
        before@[group_id],
        after@[group_id],
        now,
        before.max_poll_interval,
    ) && d.group_id@ == group_id && describes(d, after@[group_id])
}

/// How a request for the names of all groups is answered, and what becomes of the groups.
pub open spec fn groups_listed(
    before: GroupCoordinator,
    after: GroupCoordinator,
    now: u64,
    r: Seq<String>,
) -> bool {
    &&& after.groups.names() == before.groups.names()
    &&& after@.dom() == before@.dom()
    &&& forall|k: Seq<char>| #[trigger]
        before@.contains_key(k) ==> pruned(
            before@[k],
            after@[k],
            now,
            before.max_poll_interval,
        )
    &&& crate::text::text_views(r) == before.groups.names()
    &&& before.groups.names().no_duplicates()
    &&& forall|k: Seq<char>| #[trigger]
        before@.contains_key(k) <==> before.groups.names().contains(k)
}

impl GroupCoordinator {
    /// Describes a group, after members that are to be removed are gone.
    pub fn describe_group(&mut self, group_id: &str, now: u64) -> (r: Option<GroupDescription>)
        requires
            old(self).wf(),
        ensures
            final(self).wf(),
            final(self).same_settings(*old(self)),
            group_described(*old(self), *final(self), group_id@, now, r),
    {
        let i: usize = match self.groups.find(group_id) {
            Some(i) => i,
            None => {
                return None;
            },
        };
        let ghost groups0 = self.groups@;
        let max_poll_interval: u64 = self.max_poll_interval;
        let group: &mut ConsumerGroup = self.groups.value_mut(i);
        group.prune_expired_members(now, max_poll_interval);
        let state_str: String = name_of_state(group.state);
        let mut members: Vec<DescribedGroupMember> = Vec::new();
        let n: usize = group.members.len();
        let ghost g = *group;
        let ghost names = group.members.names();
        let ghost values = group.members.values();
        let mut k: usize = 0;
        while k < n
            invariant
                k <= n,
                n == names.len(),
                n == values.len(),
                *group == g,
                names == g.members.names(),
                values == g.members.values(),
                names.no_duplicates(),
                forall|j: int|
                    0 <= j < n ==> g.members@.contains_key(#[trigger] names[j])
                        && g.members@[names[j]] == values[j],
                members@.len() == k,
                forall|j: int|
                    0 <= j < k ==> describes_member(
                        #[trigger] members@[j],
                        names[j],
                        values[j]@,
                    ),
            decreases n - k,
        {
            let m: &MemberState = group.members.value_at(k);
            let member_id: String = group.members.name_at(k).clone();
            let assigned_partitions: Vec<(String, u32)> = flatten(&m.assigned_partitions);
            let ghost before = members@;
            members.push(DescribedGroupMember { member_id, assigned_partitions });
            proof {
                assert(lists_topics(m.assigned_partitions.names(), m@.assigned));
                assert(describes_member(members@[k as int], names[k as int], m@));
                assert forall|j: int| 0 <= j < k + 1 implies describes_member(
                    #[trigger] members@[j],
                    names[j],
                    values[j]@,
                ) by {
                    if j < k {
                        assert(members@[j] == before[j]);
                    }
                }
            }
            k = k + 1;
        }
        let d = GroupDescription { group_id: owned(group_id), state_str, members };
        proof {
            assert(group_views(groups0.insert(group_id@, *group)) =~= group_views(groups0).insert(
                group_id@,
                group@,
            ));
            let ds = d.members@;
            assert forall|j: int| 0 <= j < ds.len() implies g@.members.contains_key(
                (#[trigger] ds[j]).member_id@,
            ) && describes_member(
                ds[j],
                ds[j].member_id@,
                g@.members[ds[j].member_id@],
            ) by {
                assert(describes_member(ds[j], names[j], values[j]@));
                assert(g.members@.contains_key(names[j]));
            }
            assert forall|a: int, b: int| 0 <= a < b < ds.len() implies (
            #[trigger] ds[a]).member_id@ != (#[trigger] ds[b]).member_id@ by {
                assert(describes_member(ds[a], names[a], values[a]@));
                assert(describes_member(ds[b], names[b], values[b]@));
            }
            assert forall|x: Seq<char>| #[trigger] g@.members.contains_key(x) implies exists|j: int|
                0 <= j < ds.len() && (#[trigger] ds[j]).member_id@ == x by {
                assert(names.contains(x));
                let j = position(names, x);
                assert(describes_member(ds[j], names[j], values[j]@));
            }
            assert(d.state_str@ == state_name(g@.state));
            assert(describes(d, g@));
        }
        Some(d)
    }

    /// The names of all groups, after members that are to be removed are gone.
    pub fn list_groups(&mut self, now: u64) -> (r: Vec<String>)
        requires
            old(self).wf(),
        ensures
            final(self).wf(),
            final(self).same_settings(*old(self)),
            groups_listed(*old(self), *final(self), now, r@),
    {
        let mut out: Vec<String> = Vec::new();
        let n: usize = self.groups.len();
        let max_poll_interval: u64 = self.max_poll_interval;
        let ghost before = self.groups;
        let ghost names = self.groups.names();
        let mut i: usize = 0;
        while i < n
            invariant
                i <= n,
                n == names.len(),
                n == before.values().len(),
                names == before.names(),
                before == old(self).groups,
                names.no_duplicates(),
                max_poll_interval == old(self).max_poll_interval,
                forall|j: int|
                    0 <= j < n ==> before@.contains_key(#[trigger] names[j]) && before@[names[j]]
                        == before.values()[j],
                self.wf(),
                self.same_settings(*old(self)),
                self.groups.names() == names,
                self.groups.values().len() == n,
                forall|j: int|
                    0 <= j < i ==> pruned(
                        before.values()[j]@,
                        (#[trigger] self.groups.values()[j])@,
                        now,
                        max_poll_interval,
                    ),
                forall|j: int|
                    i <= j < n ==> (#[trigger] self.groups.values()[j]) == before.values()[j],
                out@.len() == i,
                forall|j: int| 0 <= j < i ==> (#[trigger] out@[j])@ == names[j],
            decreases n - i,
        {
            let ghost cur = self.groups.values();
            let name: String = self.groups.name_at(i).clone();
            let group: &mut ConsumerGroup = self.groups.value_mut(i);
            group.prune_expired_members(now, max_poll_interval);
            out.push(name);
            proof {
                assert forall|j: int| 0 <= j < i + 1 implies pruned(
                    before.values()[j]@,
                    (#[trigger] self.groups.values()[j])@,
                    now,
                    max_poll_interval,
                ) by {
                    if j < i {
                        assert(self.groups.values()[j] == cur[j]);
                    }
                }
            }
            i = i + 1;
        }
        let check: usize = self.groups.len();
        proof {
            assert forall|k: Seq<char>| #[trigger] old(self)@.contains_key(k) implies pruned(
                old(self)@[k],
                self@[k],
                now,
                max_poll_interval,
            ) by {
                assert(names.contains(k));
                let j = position(names, k);
                assert(names[j] == k);
                assert(pruned(before.values()[j]@, self.groups.values()[j]@, now, max_poll_interval));
                assert(self.groups@.contains_key(self.groups.names()[j]));
            }
            assert(self@.dom() =~= old(self)@.dom());
            assert(crate::text::text_views(out@) =~= names);
        }
        out
    }
}

} // verus!
