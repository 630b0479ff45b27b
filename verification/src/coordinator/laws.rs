//! What consumer groups promise.
use crate::coordinator::group::{last_of, GroupView, MemberView, MAX_RECENT_EVICTIONS};
use crate::coordinator::groups::{assigned_all, left_as, MemberAssignment};
use crate::coordinator::membership::{
    expired, expiry_of, instance_member, joined, keeps_place, next_seq, no_members, pruned,
    rejoined, session_timeout_of, window_after, DEFAULT_SESSION_TIMEOUT, MAX_SESSION_TIMEOUT,
    MIN_SESSION_TIMEOUT,
};
use vstd::prelude::*;

verus! {

/// A group with members is led by one of them, and a group without members by nobody.
pub open spec fn led(g: GroupView) -> bool {
    if no_members(g.members) {
        g.leader is None
    } else {
        g.leader matches Some(l) && g.members.contains_key(l)
    }
}

/// A new group is led as it should be.
pub proof fn new_group_is_led(group_id: Seq<char>)
    ensures
        led(GroupView::new(group_id)),
{
}

/// A group is led as it should be after members were removed.
pub proof fn pruned_group_is_led(g: GroupView, after: GroupView, now: u64, max_poll_interval: u64)
    requires
        led(g),
        pruned(g, after, now, max_poll_interval),
    ensures
        led(after),
{
    if !no_members(after.members) {
        let k = choose|k: Seq<char>| after.members.contains_key(k);
        assert(g.members.contains_key(k));
    }
}

/// A group is led as it should be after a member joined.
pub proof fn joined_group_is_led(
    g: GroupView,
    id: Seq<char>,
    instance: Option<Seq<char>>,
    protocol: Option<Seq<char>>,
    session_timeout: u64,
    now: u64,
    delay: u64,
)
    requires
        led(g),
    ensures
        led(joined(g, id, instance, protocol, session_timeout, now, delay)),
{
    assert(joined(g, id, instance, protocol, session_timeout, now, delay).members.contains_key(id));
}

/// A group is led as it should be after an instance came back.
pub proof fn rejoined_group_is_led(g: GroupView, instance: Seq<char>, session_timeout: u64, now: u64)
    requires
        led(g),
        keeps_place(g, instance),
    ensures
        led(rejoined(g, instance, session_timeout, now)),
{
    let after = rejoined(g, instance, session_timeout, now);
    assert(after.members.contains_key(after.statics[instance]));
    assert(g.members.contains_key(g.statics[instance]));
}

/// A group is led as it should be after a member left.
pub proof fn left_group_is_led(
    g: GroupView,
    member_id: Seq<char>,
    instance: Option<Seq<char>>,
    after: GroupView,
)
    requires
        led(g),
        left_as(g, member_id, instance, after),
    ensures
        led(after),
{
    if !no_members(after.members) {
        let k = choose|k: Seq<char>| after.members.contains_key(k);
        assert(g.members.contains_key(k));
    }
}

/// After members were removed at `now`, no member is left that would be removed at `now`, and
/// each that is left is as it was.
pub proof fn nobody_overdue_is_left(g: GroupView, after: GroupView, now: u64, max_poll_interval: u64)
    requires
        pruned(g, after, now, max_poll_interval),
    ensures
        forall|k: Seq<char>| #[trigger]
            after.members.contains_key(k) ==> g.members.contains_key(k) && after.members[k]
                == g.members[k] && expiry_of(after.members[k], now, max_poll_interval) is None,
        forall|k: Seq<char>|
            g.members.contains_key(k) && expiry_of(#[trigger] g.members[k], now, max_poll_interval)
                is None ==> after.members.contains_key(k),
{
}

/// Removing twice at one time is removing once.
pub proof fn pruning_twice_changes_nothing(
    g: GroupView,
    once: GroupView,
    twice: GroupView,
    now: u64,
    max_poll_interval: u64,
)
    requires
        led(g),
        pruned(g, once, now, max_poll_interval),
        pruned(once, twice, now, max_poll_interval),
        g.evictions.len() <= MAX_RECENT_EVICTIONS,
    ensures
        twice == once,
{
    nobody_overdue_is_left(g, once, now, max_poll_interval);
    pruned_group_is_led(g, once, now, max_poll_interval);
    let gone = expired(once, now, max_poll_interval);
    assert(gone =~= Set::empty());
    assert(twice.members =~= once.members);
    assert(twice.statics =~= once.statics);
    let evs = choose|evs: Seq<crate::coordinator::group::EvictionView>| #[trigger]
        crate::coordinator::membership::tells_of(once, gone, evs, now, max_poll_interval)
            && twice.evictions == last_of(once.evictions + evs, MAX_RECENT_EVICTIONS as int);
    if evs.len() > 0 {
        assert(gone.contains(evs[0].member_id));
    }
    assert(once.evictions + evs =~= once.evictions);
    assert(once.evictions.len() <= MAX_RECENT_EVICTIONS);
    assert(twice =~= once);
}

/// A member that is heard from and makes progress in time is never removed.
pub proof fn a_live_member_stays(
    g: GroupView,
    after: GroupView,
    id: Seq<char>,
    now: u64,
    max_poll_interval: u64,
)
    requires
        pruned(g, after, now, max_poll_interval),
        g.members.contains_key(id),
        now - g.members[id].last_heartbeat <= g.members[id].session_timeout,
        now - g.members[id].last_progress <= max_poll_interval,
    ensures
        after.members.contains_key(id),
        after.members[id] == g.members[id],
{
}

/// A member that misses both limits is removed for the missed session timeout.
pub proof fn session_timeout_counts_first(m: MemberView, now: u64, max_poll_interval: u64)
    requires
        now - m.last_heartbeat > m.session_timeout,
    ensures
        expiry_of(m, now, max_poll_interval) == Some(
            crate::coordinator::group::EvictionReason::SessionTimeout,
        ),
{
}

/// An instance that comes back finds its place as it left it: the group keeps its generation,
/// its state and its join window, the instance keeps its assignment, and it leads if it led.
/// Its old member id is gone, unless the new one reads the same.
pub proof fn static_rejoin_keeps_the_place(
    g: GroupView,
    instance: Seq<char>,
    session_timeout: u64,
    now: u64,
)
    requires
        keeps_place(g, instance),
    ensures
        ({
            let after = rejoined(g, instance, session_timeout, now);
            let previous = g.statics[instance];
            let id = instance_member(instance, next_seq(g.seq));
            &&& after.generation_id == g.generation_id
            &&& after.state == g.state
            &&& after.deadline == g.deadline
            &&& after.members.contains_key(id)
            &&& after.members[id].assigned == g.members[previous].assigned
            &&& after.members[id].session_timeout == session_timeout
            &&& g.leader == Some(previous) ==> after.leader == Some(id)
            &&& previous != id ==> !after.members.contains_key(previous)
            &&& keeps_place(after, instance)
            &&& forall|k: Seq<char>|
                k != previous && k != id ==> after.members.contains_key(k)
                    == g.members.contains_key(k)
        }),
{
}

/// Members that join while a window is open share its generation: the first one to join opens
/// the window and the generation with it, the others change neither.
pub proof fn one_window_is_one_generation(
    g: GroupView,
    id: Seq<char>,
    instance: Option<Seq<char>>,
    protocol: Option<Seq<char>>,
    session_timeout: u64,
    now: u64,
    delay: u64,
)
    requires
        now + 2 * delay <= u64::MAX,
    ensures
        ({
            let after = joined(g, id, instance, protocol, session_timeout, now, delay);
            let open = g.deadline matches Some(d) && now < d;
            &&& open ==> after.generation_id == g.generation_id && after.state == g.state
            &&& !open && !g.members.contains_key(id) ==> after.state is PreparingRebalance
                && after.deadline == Some((now + delay) as u64) && (g.generation_id < u32::MAX
                ==> after.generation_id == g.generation_id + 1)
            &&& after.generation_id >= g.generation_id
        }),
{
}

/// A window never stays open for more than two delays from the last member that joined in it.
pub proof fn a_window_is_bounded(deadline: Option<u64>, now: u64, delay: u64)
    requires
        now + 2 * delay <= u64::MAX,
    ensures
        window_after(deadline, now, delay) <= now + 2 * delay,
        now <= window_after(deadline, now, delay),
{
}

/// A requested session timeout stays within its bounds and is given as requested between them.
pub proof fn session_timeouts_are_bounded(requested_ms: Option<u32>)
    ensures
        MIN_SESSION_TIMEOUT <= session_timeout_of(requested_ms) <= MAX_SESSION_TIMEOUT,
        requested_ms matches Some(ms) ==> (MIN_SESSION_TIMEOUT <= ms * 1_000_000
            <= MAX_SESSION_TIMEOUT ==> session_timeout_of(requested_ms) == ms * 1_000_000),
        requested_ms is None ==> session_timeout_of(requested_ms) == DEFAULT_SESSION_TIMEOUT,
{
}

/// A group never remembers more than `MAX_RECENT_EVICTIONS` removals.
pub proof fn evictions_are_bounded(g: GroupView, after: GroupView, now: u64, max_poll_interval: u64)
    requires
        pruned(g, after, now, max_poll_interval),
    ensures
        after.evictions.len() <= MAX_RECENT_EVICTIONS,
{
}

/// The plan says something of the topic for the member from its `n`-th entry on.
pub open spec fn planned_from(
    plan: Seq<MemberAssignment>,
    n: int,
    member: Seq<char>,
    topic: Seq<char>,
) -> bool {
    exists|j: int|
        n <= j < plan.len() && (#[trigger] plan[j]).member_id@ == member && plan[j].topic@ == topic
}

/// A plan gives each member of the group, under each topic that it names for that member, the
/// partitions of the last entry that says so. What it does not name stays as it was, nothing else
/// of a member changes, and nobody joins or leaves by it.
pub proof fn a_plan_is_carried_out(members: Map<Seq<char>, MemberView>, plan: Seq<MemberAssignment>)
    ensures
        ({
            let after = assigned_all(members, plan);
            &&& after.dom() == members.dom()
            &&& forall|k: Seq<char>| #[trigger]
                members.contains_key(k) ==> after[k] == (MemberView {
                    assigned: after[k].assigned,
                    ..members[k]
                })
            &&& forall|j: int|
                0 <= j < plan.len() && members.contains_key(plan[j].member_id@) && !planned_from(
                    plan,
                    j + 1,
                    plan[j].member_id@,
                    plan[j].topic@,
                ) ==> after[(#[trigger] plan[j]).member_id@].assigned.contains_key(plan[j].topic@)
                    && after[plan[j].member_id@].assigned[plan[j].topic@] == plan[j].partitions@
            &&& forall|k: Seq<char>, t: Seq<char>|
                members.contains_key(k) && !planned_from(plan, 0, k, t) ==> (
                #[trigger] after[k].assigned.contains_key(t) <==> members[k].assigned.contains_key(
                    t,
                )) && (members[k].assigned.contains_key(t) ==> after[k].assigned[t]
                    == members[k].assigned[t])
        }),
    decreases plan.len(),
{
    if plan.len() > 0 {
        let less = plan.drop_last();
        let n = plan.len() - 1;
        let a = plan[n];
        a_plan_is_carried_out(members, less);
        let before = assigned_all(members, less);
        let after = assigned_all(members, plan);
        assert(after.dom() =~= members.dom());
        assert forall|k: Seq<char>, t: Seq<char>| planned_from(less, 0, k, t) implies planned_from(
            plan,
            0,
            k,
            t,
        ) by {
            let j = choose|j: int|
                0 <= j < less.len() && (#[trigger] less[j]).member_id@ == k && less[j].topic@ == t;
            assert(plan[j].member_id@ == k);
        }
        assert(planned_from(plan, 0, a.member_id@, a.topic@));
        assert forall|j: int|
            0 <= j < plan.len() && members.contains_key(plan[j].member_id@) && !planned_from(
                plan,
                j + 1,
                plan[j].member_id@,
                plan[j].topic@,
            ) implies after[(#[trigger] plan[j]).member_id@].assigned.contains_key(plan[j].topic@)
            && after[plan[j].member_id@].assigned[plan[j].topic@] == plan[j].partitions@ by {
            if j < n {
                let k = plan[j].member_id@;
                let t = plan[j].topic@;
                assert(less[j] == plan[j]);
                if planned_from(less, j + 1, k, t) {
                    let q = choose|q: int|
                        j + 1 <= q < less.len() && (#[trigger] less[q]).member_id@ == k
                            && less[q].topic@ == t;
                    assert(plan[q].member_id@ == k);
                }
                assert(!(a.member_id@ == k && a.topic@ == t));
                assert(before[less[j].member_id@].assigned.contains_key(t));
            }
        }
        assert forall|k: Seq<char>, t: Seq<char>|
            members.contains_key(k) && !planned_from(plan, 0, k, t) implies (
        #[trigger] after[k].assigned.contains_key(t) <==> members[k].assigned.contains_key(t)) && (
        members[k].assigned.contains_key(t) ==> after[k].assigned[t] == members[k].assigned[t]) by {
            assert(!planned_from(less, 0, k, t));
            assert(before[k].assigned.contains_key(t) <==> members[k].assigned.contains_key(t));
            assert(!(a.member_id@ == k && a.topic@ == t));
        }
    }
}

} // verus!
