//! What the members of a group are promised by each request.
use crate::assoc::AssocMap;
use crate::coordinator::describe::{
    flattened, group_described, lists_topics, pair_views, with_topic,
};
use crate::coordinator::group::{
    assignment_views, last_of, EvictionView, GroupView, MemberView, MAX_RECENT_EVICTIONS,
};
use crate::coordinator::groups::{
    beaten_by, beats_as, joined_by, joins_as, left_as, left_by, progressed, synced_by, syncs_as,
    window_closed, GroupCoordinator, GroupDescription, MemberAssignment,
};
use crate::coordinator::join::next_sleep;
use crate::coordinator::laws::{a_plan_is_carried_out, planned_from};
use crate::coordinator::membership::{expired, instances_of, joined, pruned, tells_of};
use vstd::prelude::*;

verus! {

/// Whether a member has been silent, or has not fetched, for too long.
pub open spec fn overdue(m: MemberView, now: u64, max_poll_interval: u64) -> bool {
    now > m.last_heartbeat + m.session_timeout || now > m.last_progress + max_poll_interval
}

/// A member is removed if and only if it has been silent for longer than its session timeout, or
/// has not fetched for longer than the poll interval. Whoever stays is as before, and so is the
/// generation; the group is empty only when nobody is left. The place of an instance goes with the
/// member that it is.
pub proof fn only_the_overdue_are_removed(
    g: GroupView,
    after: GroupView,
    now: u64,
    max_poll_interval: u64,
)
    requires
        pruned(g, after, now, max_poll_interval),
    ensures
        forall|k: Seq<char>| #[trigger]
            after.members.contains_key(k) <==> g.members.contains_key(k) && !overdue(
                g.members[k],
                now,
                max_poll_interval,
            ),
        forall|k: Seq<char>| #[trigger]
            after.members.contains_key(k) ==> after.members[k] == g.members[k],
        forall|i: Seq<char>| #[trigger]
            after.statics.contains_key(i) <==> g.statics.contains_key(i) && !(exists|k: Seq<char>|
                g.members.contains_key(k) && overdue(g.members[k], now, max_poll_interval)
                    && #[trigger] g.members[k].instance == Some(i)),
        forall|i: Seq<char>| #[trigger]
            after.statics.contains_key(i) ==> after.statics[i] == g.statics[i],
        after.state == g.state || (after.state is Empty && forall|k: Seq<char>|
            !#[trigger] after.members.contains_key(k)),
        after.leader matches Some(l) ==> after.members.contains_key(l) || g.leader == Some(l),
        g.leader matches Some(l) ==> (after.members.contains_key(l) ==> after.leader == g.leader),
        after.group_id == g.group_id,
        after.generation_id == g.generation_id,
        after.protocol == g.protocol,
        after.deadline == g.deadline,
{
    let gone = expired(g, now, max_poll_interval);
    assert forall|k: Seq<char>| #[trigger] gone.contains(k) <==> g.members.contains_key(k)
        && overdue(g.members[k], now, max_poll_interval) by {}
    assert forall|i: Seq<char>| #[trigger]
        after.statics.contains_key(i) <==> g.statics.contains_key(i) && !(exists|k: Seq<char>|
            g.members.contains_key(k) && overdue(g.members[k], now, max_poll_interval)
                && #[trigger] g.members[k].instance == Some(i)) by {
        assert(after.statics.contains_key(i) <==> g.statics.contains_key(i) && !instances_of(
            g,
            gone,
        ).contains(i));
        if instances_of(g, gone).contains(i) {
            let k = choose|k: Seq<char>|
                gone.contains(k) && g.members.contains_key(k) && #[trigger] g.members[k].instance
                    == Some(i);
            assert(gone.contains(k));
        }
        if exists|k: Seq<char>|
            g.members.contains_key(k) && overdue(g.members[k], now, max_poll_interval)
                && #[trigger] g.members[k].instance == Some(i) {
            let k = choose|k: Seq<char>|
                g.members.contains_key(k) && overdue(g.members[k], now, max_poll_interval)
                    && #[trigger] g.members[k].instance == Some(i);
            assert(gone.contains(k));
        }
    }
}

/// Each member that is removed is told of once, with the time and why: a member that was silent
/// for silence, and only one that was not for want of progress. What is remembered is the newest
/// of what was told.
pub proof fn removals_are_told(g: GroupView, after: GroupView, now: u64, max_poll_interval: u64)
    requires
        pruned(g, after, now, max_poll_interval),
    ensures
        exists|evs: Seq<EvictionView>|
            {
                &&& #[trigger] removals(g, evs, now, max_poll_interval)
                &&& after.evictions.len() <= MAX_RECENT_EVICTIONS
                &&& (g.evictions + evs).len() <= MAX_RECENT_EVICTIONS ==> after.evictions
                    == g.evictions + evs
                &&& (g.evictions + evs).len() > MAX_RECENT_EVICTIONS ==> after.evictions.len()
                    == MAX_RECENT_EVICTIONS && forall|i: int|
                    0 <= i < MAX_RECENT_EVICTIONS ==> #[trigger] after.evictions[i] == (g.evictions
                        + evs)[(g.evictions + evs).len() - MAX_RECENT_EVICTIONS + i]
            },
{
    let gone = expired(g, now, max_poll_interval);
    let evs = choose|evs: Seq<EvictionView>| #[trigger]
        tells_of(g, gone, evs, now, max_poll_interval) && after.evictions == last_of(
            g.evictions + evs,
            MAX_RECENT_EVICTIONS as int,
        );
    assert(removals(g, evs, now, max_poll_interval)) by {
        assert forall|k: Seq<char>|
            g.members.contains_key(k) && overdue(
                #[trigger] g.members[k],
                now,
                max_poll_interval,
            ) implies tells(evs, k) by {
            assert(gone.contains(k));
        }
    }
}

/// Some removal is that of the member.
pub open spec fn tells(evs: Seq<EvictionView>, k: Seq<char>) -> bool {
    exists|i: int| 0 <= i < evs.len() && (#[trigger] evs[i]).member_id == k
}

/// The removals from a group at `now`, each once, with the reason.
pub open spec fn removals(
    g: GroupView,
    evs: Seq<EvictionView>,
    now: u64,
    max_poll_interval: u64,
) -> bool {
    &&& forall|k: Seq<char>|
        g.members.contains_key(k) && overdue(#[trigger] g.members[k], now, max_poll_interval)
            ==> tells(evs, k)
    &&& forall|i: int|
        0 <= i < evs.len() ==> g.members.contains_key((#[trigger] evs[i]).member_id) && overdue(
            g.members[evs[i].member_id],
            now,
            max_poll_interval,
        ) && evs[i].at == now && (evs[i].reason is SessionTimeout <==> now
            > g.members[evs[i].member_id].last_heartbeat
            + g.members[evs[i].member_id].session_timeout)
    &&& forall|i: int, j: int|
        0 <= i < j < evs.len() ==> (#[trigger] evs[i]).member_id != (#[trigger] evs[j]).member_id
}

/// A member that joins is in the group from then on, as heard from now and with the session
/// timeout that it got. A new one has nothing assigned; one that was there keeps what it had.
/// Nobody else is touched, and whoever led goes on leading; the first to come leads, and says which
/// protocol the group speaks.
pub proof fn who_joins_is_a_member(
    g: GroupView,
    id: Seq<char>,
    instance: Option<Seq<char>>,
    protocol: Option<Seq<char>>,
    session_timeout: u64,
    now: u64,
    delay: u64,
)
    ensures
        ({
            let after = joined(g, id, instance, protocol, session_timeout, now, delay);
            &&& after.members.contains_key(id)
            &&& after.members[id].last_heartbeat == now
            &&& after.members[id].session_timeout == session_timeout
            &&& !g.members.contains_key(id) ==> after.members[id].assigned == Map::<
                Seq<char>,
                Seq<u32>,
            >::empty() && after.members[id].member_id == id && after.members[id].instance
                == instance && after.members[id].last_progress == now
            &&& g.members.contains_key(id) ==> after.members[id].assigned
                == g.members[id].assigned && after.members[id].last_progress
                == g.members[id].last_progress && after.members[id].instance
                == g.members[id].instance
            &&& forall|k: Seq<char>|
                k != id ==> (#[trigger] after.members.contains_key(k)
                    <==> g.members.contains_key(k)) && (g.members.contains_key(k)
                    ==> after.members[k] == g.members[k])
            &&& g.leader is Some ==> after.leader == g.leader
            &&& g.leader is None ==> after.leader == Some(id)
            &&& g.state is Empty ==> after.protocol == protocol
            &&& !(g.state is Empty) ==> after.protocol == g.protocol
            &&& instance matches Some(i) ==> (!g.members.contains_key(id)
                ==> after.statics.contains_key(i) && after.statics[i] == id)
            &&& forall|i: Seq<char>|
                instance != Some(i) ==> (#[trigger] after.statics.contains_key(i)
                    <==> g.statics.contains_key(i)) && (g.statics.contains_key(i)
                    ==> after.statics[i] == g.statics[i])
            &&& after.evictions == g.evictions && after.group_id == g.group_id
        }),
{
}

/// A member that is there already opens no new generation by joining again, unless the group was
/// empty. A new one moves the end of an open window by a quarter of its length, up to two lengths
/// from now, and opens a window where none is open.
pub proof fn joining_again_opens_nothing(
    g: GroupView,
    id: Seq<char>,
    instance: Option<Seq<char>>,
    protocol: Option<Seq<char>>,
    session_timeout: u64,
    now: u64,
    delay: u64,
)
    requires
        now + 2 * delay <= u64::MAX,
    ensures
        ({
            let after = joined(g, id, instance, protocol, session_timeout, now, delay);
            &&& g.members.contains_key(id) && !(g.state is Empty) ==> after.generation_id
                == g.generation_id && after.state == g.state && after.deadline == g.deadline
            &&& !g.members.contains_key(id) && !(g.deadline matches Some(d) && now < d)
                ==> after.deadline == Some((now + delay) as u64)
            &&& !g.members.contains_key(id) ==> (g.deadline matches Some(d) ==> (now < d ==> (
            after.deadline matches Some(e) && (e == d + delay / 4 || e == now + 2 * delay) && e <= d
                + delay / 4 && e <= now + 2 * delay)))
        }),
{
}

/// Whoever joins is told the id under which it is a member, the generation of the group, whether
/// it leads, and the protocol.
pub proof fn who_joins_is_told_where_it_stands(
    p: GroupView,
    member_id: Seq<char>,
    instance: Option<Seq<char>>,
    protocol: Option<Seq<char>>,
    session_timeout: u64,
    now: u64,
    unix_nanos: u128,
    delay: u64,
    after: GroupView,
    answer: (String, u32, bool, String),
)
    requires
        joins_as(
            p,
            member_id,
            instance,
            protocol,
            session_timeout,
            now,
            unix_nanos,
            delay,
            after,
            answer,
        ),
    ensures
        after.members.contains_key(answer.0@),
        after.members[answer.0@].last_heartbeat == now,
        after.members[answer.0@].session_timeout == session_timeout,
        answer.1 == after.generation_id,
        answer.3@ == (match after.protocol {
            Some(t) => t,
            None => Seq::empty(),
        }),
        instance is None && member_id.len() > 0 ==> answer.0@ == member_id,
        answer.2 ==> after.leader == Some(answer.0@),
        !(instance matches Some(i) && p.statics.contains_key(i) && p.members.contains_key(
            p.statics[i],
        )) ==> (answer.2 <==> after.leader == Some(answer.0@)),
        instance matches Some(i) && p.statics.contains_key(i) && p.members.contains_key(
            p.statics[i],
        ) ==> (answer.2 <==> p.leader == Some(p.statics[instance->0])) && after.generation_id
            == p.generation_id,
{
}

/// What one group does is nothing to another.
pub open spec fn other_groups_untouched(
    before: GroupCoordinator,
    after: GroupCoordinator,
    group_id: Seq<char>,
) -> bool {
    forall|x: Seq<char>|
        x != group_id ==> (#[trigger] after@.contains_key(x) <==> before@.contains_key(x)) && (
        before@.contains_key(x) ==> after@[x] == before@[x])
}

/// Anyone may join: the group is there from then on, with whoever joined as a member.
pub proof fn anyone_may_join(
    before: GroupCoordinator,
    after: GroupCoordinator,
    group_id: Seq<char>,
    member_id: Seq<char>,
    instance: Option<Seq<char>>,
    protocol: Option<Seq<char>>,
    session_timeout_ms: Option<u32>,
    now: u64,
    unix_nanos: u128,
    r: Result<(String, u32, bool, String), String>,
)
    requires
        joined_by(
            before,
            after,
            group_id,
            member_id,
            instance,
            protocol,
            session_timeout_ms,
            now,
            unix_nanos,
            r,
        ),
    ensures
        r matches Ok(x) && after@.contains_key(group_id) && after@[group_id].members.contains_key(
            x.0@,
        ) && x.1 == after@[group_id].generation_id,
        other_groups_untouched(before, after, group_id),
{
}

/// A sync is answered if and only if the member is there, speaks of the current generation, and
/// either leads or finds the group stable. The leader's plan is carried out and makes the group
/// stable; nobody else changes anything. Each is told what is assigned to it.
pub proof fn a_sync_tells_what_is_assigned(
    p: GroupView,
    generation_id: u32,
    member_id: Seq<char>,
    plan: Seq<MemberAssignment>,
    after: GroupView,
    r: Result<AssocMap<Vec<u32>>, String>,
)
    requires
        syncs_as(p, generation_id, member_id, plan, after, r),
    ensures
        r is Ok <==> generation_id == p.generation_id && p.members.contains_key(member_id) && (
        p.leader == Some(member_id) || p.state is Stable),
        r is Err ==> after == p,
        p.leader != Some(member_id) ==> after == p,
        r matches Ok(own) ==> forall|t: Seq<char>|
            (#[trigger] own@.contains_key(t) <==> after.members[member_id].assigned.contains_key(t))
                && (own@.contains_key(t) ==> own@[t]@ == after.members[member_id].assigned[t]),
        r is Ok && p.leader == Some(member_id) ==> after.state is Stable && after.generation_id
            == p.generation_id && after.leader == p.leader && after.members.dom()
            == p.members.dom() && forall|j: int|
            0 <= j < plan.len() && p.members.contains_key(plan[j].member_id@) && !planned_from(
                plan,
                j + 1,
                plan[j].member_id@,
                plan[j].topic@,
            ) ==> after.members[(#[trigger] plan[j]).member_id@].assigned.contains_key(
                plan[j].topic@,
            ) && after.members[plan[j].member_id@].assigned[plan[j].topic@] == plan[j].partitions@,
{
    a_plan_is_carried_out(p.members, plan);
    if r is Ok {
        let own = r->Ok_0;
        assert forall|t: Seq<char>|
            (#[trigger] own@.contains_key(t) <==> after.members[member_id].assigned.contains_key(t))
                && (own@.contains_key(t) ==> own@[t]@ == after.members[member_id].assigned[t]) by {
            assert(assignment_views(own@).contains_key(t) <==> own@.contains_key(t));
        }
    }
}

/// A sync of a group that is not there is refused. One group's sync is nothing to another.
pub proof fn a_sync_stays_in_its_group(
    before: GroupCoordinator,
    after: GroupCoordinator,
    group_id: Seq<char>,
    generation_id: u32,
    member_id: Seq<char>,
    plan: Seq<MemberAssignment>,
    now: u64,
    r: Result<AssocMap<Vec<u32>>, String>,
)
    requires
        synced_by(before, after, group_id, generation_id, member_id, plan, now, r),
    ensures
        other_groups_untouched(before, after, group_id),
        after@.contains_key(group_id) <==> before@.contains_key(group_id),
        r is Ok ==> before@.contains_key(group_id) && before@[group_id].members.contains_key(
            member_id,
        ) && !overdue(
            before@[group_id].members[member_id],
            now,
            before.max_poll_interval,
        ) && generation_id == before@[group_id].generation_id,
{
    if before@.contains_key(group_id) {
        let p = choose|p: GroupView| #[trigger]
            pruned(before@[group_id], p, now, before.max_poll_interval) && syncs_as(
                p,
                generation_id,
                member_id,
                plan,
                after@[group_id],
                r,
            );
        only_the_overdue_are_removed(before@[group_id], p, now, before.max_poll_interval);
    }
}

/// A heartbeat is accepted if and only if the member is there and speaks of the current
/// generation; the member is then heard from now. Nothing else changes, and a heartbeat that is
/// refused changes at most when the member was heard from.
pub proof fn a_heartbeat_keeps_a_member(
    p: GroupView,
    generation_id: u32,
    member_id: Seq<char>,
    now: u64,
    after: GroupView,
    r: Result<(), String>,
)
    requires
        beats_as(p, generation_id, member_id, now, after, r),
    ensures
        r is Ok <==> generation_id == p.generation_id && p.members.contains_key(member_id),
        r is Ok ==> after.members[member_id].last_heartbeat == now,
        after.members.dom() =~= p.members.dom(),
        forall|k: Seq<char>|
            k != member_id && p.members.contains_key(k) ==> #[trigger] after.members[k]
                == p.members[k],
        p.members.contains_key(member_id) ==> after.members[member_id] == p.members[member_id]
            || after.members[member_id] == (MemberView {
            last_heartbeat: now,
            ..p.members[member_id]
        }),
        after.state == p.state,
        after.generation_id == p.generation_id,
        after.leader == p.leader,
        after.statics == p.statics,
        after.deadline == p.deadline,
        after.protocol == p.protocol,
{
}

/// A heartbeat of a group that is not there is refused. One that is accepted comes from a member
/// that was not overdue. One group's heartbeats are nothing to another.
pub proof fn a_heartbeat_stays_in_its_group(
    before: GroupCoordinator,
    after: GroupCoordinator,
    group_id: Seq<char>,
    generation_id: u32,
    member_id: Seq<char>,
    now: u64,
    r: Result<(), String>,
)
    requires
        beaten_by(before, after, group_id, generation_id, member_id, now, r),
    ensures
        other_groups_untouched(before, after, group_id),
        after@.contains_key(group_id) <==> before@.contains_key(group_id),
        r is Ok <==> before@.contains_key(group_id) && before@[group_id].members.contains_key(
            member_id,
        ) && !overdue(
            before@[group_id].members[member_id],
            now,
            before.max_poll_interval,
        ) && generation_id == before@[group_id].generation_id,
{
    if before@.contains_key(group_id) {
        let p = choose|p: GroupView| #[trigger]
            pruned(before@[group_id], p, now, before.max_poll_interval) && beats_as(
                p,
                generation_id,
                member_id,
                now,
                after@[group_id],
                r,
            );
        only_the_overdue_are_removed(before@[group_id], p, now, before.max_poll_interval);
    }
}

/// Whoever leaves is gone, and nobody else is: a member by its own id, an instance by the member
/// that it is, with its place. Those who are left have to balance anew.
pub proof fn who_leaves_is_gone(
    g: GroupView,
    member_id: Seq<char>,
    instance: Option<Seq<char>>,
    after: GroupView,
)
    requires
        left_as(g, member_id, instance, after),
    ensures
        ({
            let id = if instance matches Some(i) && g.statics.contains_key(i) {
                g.statics[instance->0]
            } else {
                member_id
            };
            &&& !after.members.contains_key(id)
            &&& forall|k: Seq<char>|
                k != id ==> (#[trigger] after.members.contains_key(k)
                    <==> g.members.contains_key(k)) && (g.members.contains_key(k)
                    ==> after.members[k] == g.members[k])
            &&& instance matches Some(i) ==> !after.statics.contains_key(i)
            &&& g.members.contains_key(id) ==> (g.members[id].instance matches Some(i)
                ==> !after.statics.contains_key(i))
            &&& forall|i: Seq<char>|
                instance != Some(i) && !(g.members.contains_key(id) && g.members[id].instance
                    == Some(i)) ==> (#[trigger] after.statics.contains_key(i)
                    <==> g.statics.contains_key(i)) && (g.statics.contains_key(i)
                    ==> after.statics[i] == g.statics[i])
            &&& after.state is PreparingRebalance || after.state is Empty
            &&& after.state is Empty <==> forall|k: Seq<char>|
                !#[trigger] after.members.contains_key(k)
            &&& g.leader != Some(id) && !(after.state is Empty) ==> after.leader == g.leader
            &&& after.leader matches Some(l) ==> l != id || g.leader != Some(id)
            &&& after.generation_id == g.generation_id && after.protocol == g.protocol
        }),
{
}

/// Leaving works in every group that is there, and only there.
pub proof fn leaving_stays_in_its_group(
    before: GroupCoordinator,
    after: GroupCoordinator,
    group_id: Seq<char>,
    member_id: Seq<char>,
    instance: Option<Seq<char>>,
    r: Result<(), String>,
)
    requires
        left_by(before, after, group_id, member_id, instance, r),
    ensures
        r is Ok <==> before@.contains_key(group_id),
        other_groups_untouched(before, after, group_id),
        after@.contains_key(group_id) <==> before@.contains_key(group_id),
{
}

/// A join window is closed once its time is over and not before, and the group that was preparing
/// goes on to be assigned. Nothing else changes.
pub proof fn a_window_closes_in_time(m: Map<Seq<char>, GroupView>, group_id: Seq<char>, now: u64)
    requires
        m.contains_key(group_id),
    ensures
        ({
            let g = m[group_id];
            let after = window_closed(m, group_id, now)[group_id];
            &&& window_closed(m, group_id, now).dom() =~= m.dom()
            &&& g.deadline matches Some(d) ==> (d <= now ==> after.deadline is None) && (now < d
                ==> after == g)
            &&& g.deadline is None ==> after == g
            &&& after.state == g.state || (g.state is PreparingRebalance && after.state
                is CompletingRebalance)
            &&& (g.deadline matches Some(d) && d <= now && g.state is PreparingRebalance)
                ==> after.state is CompletingRebalance
            &&& after.members == g.members && after.leader == g.leader && after.generation_id
                == g.generation_id
            &&& forall|x: Seq<char>|
                x != group_id && m.contains_key(x) ==> #[trigger] window_closed(m, group_id, now)[x]
                    == m[x]
        }),
{
}

/// A fetch of a member counts as progress of that member, and of nobody else.
pub proof fn a_fetch_is_progress(
    m: Map<Seq<char>, GroupView>,
    group_id: Seq<char>,
    member_id: Seq<char>,
    now: u64,
)
    ensures
        ({
            let after = progressed(m, group_id, member_id, now);
            &&& after.dom() =~= m.dom()
            &&& m.contains_key(group_id) && m[group_id].members.contains_key(member_id)
                ==> after[group_id].members[member_id] == (MemberView {
                last_progress: now,
                ..m[group_id].members[member_id]
            })
            &&& forall|g: Seq<char>, k: Seq<char>|
                m.contains_key(g) && (g != group_id || k != member_id) ==> (
                #[trigger] after[g].members.contains_key(k) <==> m[g].members.contains_key(k)) && (
                m[g].members.contains_key(k) ==> after[g].members[k] == m[g].members[k])
            &&& forall|g: Seq<char>|
                m.contains_key(g) ==> (#[trigger] after[g]).state == m[g].state && after[g].leader
                    == m[g].leader && after[g].generation_id == m[g].generation_id
        }),
{
}

/// Whoever waits for a window sleeps no longer than the window is open, and looks again at least
/// forty times a second. It gives up after three times the length of a window.
pub proof fn nobody_waits_for_ever(remaining: Option<u64>, delay: u64, started: u64, now: u64)
    ensures
        next_sleep(remaining, delay, started, now) is Some <==> remaining is Some && now < started
            + 3 * delay,
        next_sleep(remaining, delay, started, now) matches Some(s) ==> s <= remaining->0 && s
            <= 25_000_000 && (s == remaining->0 || s == 25_000_000),
{
}

proof fn lemma_flattened(topics: Seq<Seq<char>>, assigned: Map<Seq<char>, Seq<u32>>)
    ensures
        forall|i: int, j: int|
            0 <= i < topics.len() && 0 <= j < assigned[topics[i]].len() ==> flattened(
                topics,
                assigned,
            ).contains((topics[i], #[trigger] assigned[topics[i]][j])),
        forall|k: int|
            0 <= k < flattened(topics, assigned).len() ==> topics.contains(
                (#[trigger] flattened(topics, assigned)[k]).0,
            ) && assigned[flattened(topics, assigned)[k].0].contains(
                flattened(topics, assigned)[k].1,
            ),
    decreases topics.len(),
{
    if topics.len() > 0 {
        let less = topics.drop_last();
        let n = topics.len() - 1;
        lemma_flattened(less, assigned);
        let before = flattened(less, assigned);
        let own = with_topic(topics[n], assigned[topics[n]]);
        let all = flattened(topics, assigned);
        assert forall|i: int, j: int|
            0 <= i < topics.len() && 0 <= j < assigned[topics[i]].len() implies all.contains(
            (topics[i], #[trigger] assigned[topics[i]][j]),
        ) by {
            let x = (topics[i], assigned[topics[i]][j]);
            if i < n {
                assert(less[i] == topics[i]);
                assert(before.contains((less[i], assigned[less[i]][j])));
                let q = choose|q: int| 0 <= q < before.len() && before[q] == x;
                assert(all[q] == x);
            } else {
                assert(own[j] == x);
                assert(all[before.len() + j] == x);
            }
        }
        assert forall|k: int| 0 <= k < all.len() implies topics.contains((#[trigger] all[k]).0)
            && assigned[all[k].0].contains(all[k].1) by {
            if k < before.len() {
                assert(all[k] == before[k]);
                let q = choose|q: int| 0 <= q < less.len() && less[q] == before[k].0;
                assert(topics[q] == all[k].0);
            } else {
                assert(all[k] == own[k - before.len()]);
                assert(topics[n] == all[k].0);
                assert(assigned[topics[n]][k - before.len()] == all[k].1);
            }
        }
    }
}

/// A description of a group lists every member once, with exactly the partitions that are assigned
/// to it.
pub proof fn a_description_is_complete(
    before: GroupCoordinator,
    after: GroupCoordinator,
    group_id: Seq<char>,
    now: u64,
    d: GroupDescription,
    i: int,
)
    requires
        group_described(before, after, group_id, now, Some(d)),
        0 <= i < d.members@.len(),
    ensures
        ({
            let assigned = after@[group_id].members[d.members@[i].member_id@].assigned;
            &&& after@[group_id].members.contains_key(d.members@[i].member_id@)
            &&& forall|t: Seq<char>, j: int|
                assigned.contains_key(t) && 0 <= j < assigned[t].len() ==> lists_pair(
                    d.members@[i].assigned_partitions@,
                    t,
                    #[trigger] assigned[t][j],
                )
            &&& forall|k: int|
                0 <= k < d.members@[i].assigned_partitions@.len() ==> assigned.contains_key(
                    (#[trigger] d.members@[i].assigned_partitions@[k]).0@,
                ) && assigned[d.members@[i].assigned_partitions@[k].0@].contains(
                    d.members@[i].assigned_partitions@[k].1,
                )
        }),
{
    let g = after@[group_id];
    let m = d.members@[i];
    let assigned = g.members[m.member_id@].assigned;
    let topics = choose|topics: Seq<Seq<char>>| #[trigger]
        lists_topics(topics, assigned) && pair_views(m.assigned_partitions@) == flattened(
            topics,
            assigned,
        );
    lemma_flattened(topics, assigned);
    let flat = flattened(topics, assigned);
    assert forall|t: Seq<char>, j: int|
        assigned.contains_key(t) && 0 <= j < assigned[t].len() implies lists_pair(
        m.assigned_partitions@,
        t,
        #[trigger] assigned[t][j],
    ) by {
        assert(topics.contains(t));
        let q = choose|q: int| 0 <= q < topics.len() && topics[q] == t;
        assert(flat.contains((topics[q], assigned[topics[q]][j])));
        let k = choose|k: int| 0 <= k < flat.len() && flat[k] == (t, assigned[t][j]);
        assert(pair_views(m.assigned_partitions@)[k] == (t, assigned[t][j]));
        assert(m.assigned_partitions@[k].0@ == t);
    }
    assert forall|k: int| 0 <= k < m.assigned_partitions@.len() implies assigned.contains_key(
        (#[trigger] m.assigned_partitions@[k]).0@,
    ) && assigned[m.assigned_partitions@[k].0@].contains(m.assigned_partitions@[k].1) by {
        assert(pair_views(m.assigned_partitions@)[k] == flat[k]);
        assert(topics.contains(flat[k].0));
    }
}

/// Some pair is that of the topic and the partition.
pub open spec fn lists_pair(s: Seq<(String, u32)>, topic: Seq<char>, partition: u32) -> bool {
    exists|k: int| 0 <= k < s.len() && (#[trigger] s[k]).0@ == topic && s[k].1 == partition
}

/// A group is cooperative if the name of its protocol says so, in whatever letters.
pub proof fn cooperative_groups_say_so(name: Seq<char>)
    ensures
        crate::coordinator::group::is_cooperative_name(Some(name)) <==> crate::text::has_text(
            crate::text::lowered(name),
            "cooperative"@,
        ),
        !crate::coordinator::group::is_cooperative_name(None),
{
}

} // verus!
