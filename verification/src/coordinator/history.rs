//! What holds of consumer groups after any calls, from a new coordinator on.
use crate::assoc::AssocMap;
use crate::coordinator::describe::{group_described, groups_listed};
use crate::coordinator::group::{
    last_of, EvictionView, GroupView, MemberView, MAX_RECENT_EVICTIONS,
};
use crate::coordinator::groups::{
    assigned_all, assigned_one, beaten_by, beats_as, joined_by, joins_as, leaver, left_as, left_by,
    progressed, synced_by, syncs_as, window_closed, GroupCoordinator, GroupDescription,
    MemberAssignment,
};
use crate::coordinator::laws::{
    joined_group_is_led, led, left_group_is_led, pruned_group_is_led, rejoined_group_is_led,
};
use crate::coordinator::membership::{
    expired, instance_member, instances_of, joining_id, keeps_place, next_seq, no_members, pruned,
    rejoined, session_timeout_of, tells_of,
};
use crate::text::{decimal, lemma_decimal_digits, text_views};
use vstd::prelude::*;

verus! {

/// A call of a coordinator that may change its groups, and its answer.
pub enum GroupCall {
    Join {
        group_id: Seq<char>,
        member_id: Seq<char>,
        instance: Option<Seq<char>>,
        protocol: Option<Seq<char>>,
        session_timeout_ms: Option<u32>,
        now: u64,
        unix_nanos: u128,
        joined: Result<(String, u32, bool, String), String>,
    },
    Sync {
        group_id: Seq<char>,
        generation_id: u32,
        member_id: Seq<char>,
        assignments: Seq<MemberAssignment>,
        now: u64,
        synced: Result<AssocMap<Vec<u32>>, String>,
    },
    Beat {
        group_id: Seq<char>,
        generation_id: u32,
        member_id: Seq<char>,
        now: u64,
        beaten: Result<(), String>,
    },
    Progress { group_id: Seq<char>, member_id: Seq<char>, now: u64 },
    Leave {
        group_id: Seq<char>,
        member_id: Seq<char>,
        instance: Option<Seq<char>>,
        left: Result<(), String>,
    },
    Close { group_id: Seq<char>, now: u64 },
    Describe { group_id: Seq<char>, now: u64, told: Option<GroupDescription> },
    List { now: u64, listed: Seq<String> },
}

/// What a call makes of the coordinator: what the contract of the function says.
pub open spec fn stepped(before: GroupCoordinator, call: GroupCall, after: GroupCoordinator) -> bool {
    &&& after.same_settings(before)
    &&& match call {
        GroupCall::Join {
            group_id,
            member_id,
            instance,
            protocol,
            session_timeout_ms,
            now,
            unix_nanos,
            joined: r,
        } => joined_by(
            before,
            after,
            group_id,
            member_id,
            instance,
            protocol,
            session_timeout_ms,
            now,
            unix_nanos,
            r,
        ),
        GroupCall::Sync { group_id, generation_id, member_id, assignments, now, synced: r } => synced_by(
            before,
            after,
            group_id,
            generation_id,
            member_id,
            assignments,
            now,
            r,
        ),
        GroupCall::Beat { group_id, generation_id, member_id, now, beaten: r } => beaten_by(
            before,
            after,
            group_id,
            generation_id,
            member_id,
            now,
            r,
        ),
        GroupCall::Progress { group_id, member_id, now } => after@ == progressed(
            before@,
            group_id,
            member_id,
            now,
        ),
        GroupCall::Leave { group_id, member_id, instance, left: r } => left_by(
            before,
            after,
            group_id,
            member_id,
            instance,
            r,
        ),
        GroupCall::Close { group_id, now } => after@ == window_closed(before@, group_id, now),
        GroupCall::Describe { group_id, now, told: r } => group_described(before, after, group_id, now, r),
        GroupCall::List { now, listed: r } => groups_listed(before, after, now, r),
    }
}

/// `states` are what a new coordinator was before and after each of `calls`.
pub open spec fn ran(states: Seq<GroupCoordinator>, calls: Seq<GroupCall>) -> bool {
    &&& states.len() == calls.len() + 1
    &&& states[0]@ == Map::<Seq<char>, GroupView>::empty()
    &&& forall|i: int|
        #![trigger calls[i]]
        0 <= i < calls.len() ==> stepped(states[i], calls[i], states[i + 1])
}

/// Whether each member is found under its own id.
pub open spec fn members_named(g: GroupView) -> bool {
    forall|k: Seq<char>| #[trigger] g.members.contains_key(k) ==> g.members[k].member_id == k
}

/// Whether instances and the members that they are point at each other, and such a member has an
/// id made of its instance.
pub open spec fn instances_matched(g: GroupView) -> bool {
    &&& forall|i: Seq<char>| #[trigger]
        g.statics.contains_key(i) ==> g.members.contains_key(g.statics[i])
            && g.members[g.statics[i]].instance == Some(i)
    &&& forall|k: Seq<char>| #[trigger]
        g.members.contains_key(k) && g.members[k].instance is Some ==> {
            let i = g.members[k].instance->0;
            &&& g.statics.contains_key(i)
            &&& g.statics[i] == k
            &&& made_for(i, k)
        }
}

/// Whether `id` is a member id that instance `i` may be given.
pub open spec fn made_for(i: Seq<char>, id: Seq<char>) -> bool {
    exists|n: u64| id == #[trigger] instance_member(i, n)
}

/// Whether a group is as it should be: it is led by a member if it has any, each member is found
/// under its own id, and instances and members match.
pub open spec fn sound(g: GroupView) -> bool {
    &&& led(g)
    &&& members_named(g)
    &&& instances_matched(g)
}

/// Whether `id` has the form of the member ids that instances are given.
pub open spec fn generated(id: Seq<char>) -> bool {
    exists|i: Seq<char>| #[trigger] made_for(i, id)
}

/// Whether no member that is not an instance has an id like those of instances.
pub open spec fn told_apart(g: GroupView) -> bool {
    forall|k: Seq<char>| #[trigger]
        g.members.contains_key(k) && g.members[k].instance is None ==> !generated(k)
}

/// Member ids made for instances tell the instances apart.
proof fn lemma_made_for_one(i: Seq<char>, j: Seq<char>, id: Seq<char>)
    requires
        made_for(i, id),
        made_for(j, id),
    ensures
        i == j,
{
    let n = choose|n: u64| id == #[trigger] instance_member(i, n);
    let m = choose|m: u64| id == #[trigger] instance_member(j, m);
    lemma_decimal_digits(n as nat);
    lemma_decimal_digits(m as nat);
    let (a, b) = (i.push('-'), j.push('-'));
    assert(id == a + decimal(n as nat) && id == b + decimal(m as nat));
    assert(id.len() == a.len() + decimal(n as nat).len());
    assert(id.len() == b.len() + decimal(m as nat).len());
    if i.len() < j.len() {
        let at = j.len() - a.len();
        assert(b[j.len() as int] == '-' && id[j.len() as int] == '-');
        assert((a + decimal(n as nat))[a.len() + at] == decimal(n as nat)[at]);
    } else if j.len() < i.len() {
        let at = i.len() - b.len();
        assert(a[i.len() as int] == '-' && id[i.len() as int] == '-');
        assert((b + decimal(m as nat))[b.len() + at] == decimal(m as nat)[at]);
    } else {
        assert forall|k: int| 0 <= k < i.len() implies i[k] == j[k] by {
            assert(id[k] == i[k]);
            assert(id[k] == j[k]);
        }
        assert(i =~= j);
    }
}

/// A number alone is no id of an instance.
proof fn lemma_number_not_generated(n: nat)
    ensures
        !generated(decimal(n)),
{
    lemma_decimal_digits(n);
    if generated(decimal(n)) {
        let i = choose|i: Seq<char>| #[trigger] made_for(i, decimal(n));
        let m = choose|m: u64| decimal(n) == #[trigger] instance_member(i, m);
        assert(decimal(n)[i.len() as int] == '-');
    }
}

proof fn lemma_pruned(g: GroupView, after: GroupView, now: u64, max_poll_interval: u64)
    requires
        pruned(g, after, now, max_poll_interval),
    ensures
        sound(g) ==> sound(after),
        told_apart(g) ==> told_apart(after),
{
    if sound(g) {
        pruned_group_is_led(g, after, now, max_poll_interval);
        let gone = expired(g, now, max_poll_interval);
        let lost = instances_of(g, gone);
        assert forall|i: Seq<char>| #[trigger]
            after.statics.contains_key(i) implies after.members.contains_key(after.statics[i])
            && after.members[after.statics[i]].instance == Some(i) by {
            assert(g.statics.contains_key(i));
            let k = g.statics[i];
            assert(g.members[k].instance == Some(i));
            if gone.contains(k) {
                assert(lost.contains(i));
            }
        }
        assert forall|k: Seq<char>| #[trigger]
            after.members.contains_key(k) && after.members[k].instance is Some implies {
            let i = after.members[k].instance->0;
            &&& after.statics.contains_key(i)
            &&& after.statics[i] == k
            &&& made_for(i, k)
        } by {
            assert(g.members.contains_key(k));
            let i = g.members[k].instance->0;
            if lost.contains(i) {
                let other = choose|o: Seq<char>|
                    gone.contains(o) && g.members.contains_key(o) && #[trigger] g.members[o].instance
                        == Some(i);
                assert(g.statics[i] == other);
            }
        }
    }
}

proof fn lemma_joins(
    p: GroupView,
    member_id: Seq<char>,
    instance: Option<Seq<char>>,
    protocol: Option<Seq<char>>,
    session_timeout: u64,
    now: u64,
    unix_nanos: u128,
    delay: u64,
    after: GroupView,
    answer: (String, u32, bool, String),
)
    requires
        sound(p),
        joins_as(
            p,
            member_id,
            instance,
            protocol,
            session_timeout,
            now,
            unix_nanos,
            delay,
            after,
            answer,
        ),
    ensures
        sound(after),
        told_apart(p) && (instance is None ==> !generated(member_id)) ==> told_apart(after)
            && answer.2 == (after.leader == Some(answer.0@)),
{
    if instance is Some && keeps_place(p, instance->0) {
        let i = instance->0;
        let previous = p.statics[i];
        let id = instance_member(i, next_seq(p.seq));
        assert(made_for(i, id));
        rejoined_group_is_led(p, i, session_timeout, now);
        assert(after == rejoined(p, i, session_timeout, now));
        assert forall|j: Seq<char>| #[trigger]
            after.statics.contains_key(j) implies after.members.contains_key(after.statics[j])
            && after.members[after.statics[j]].instance == Some(j) by {
            if j != i {
                assert(p.statics.contains_key(j));
                let k = p.statics[j];
                if k == id {
                    assert(p.members.contains_key(k));
                    lemma_made_for_one(i, j, id);
                }
                assert(k != previous);
            }
        }
        assert forall|k: Seq<char>| #[trigger]
            after.members.contains_key(k) && after.members[k].instance is Some implies {
            let j = after.members[k].instance->0;
            &&& after.statics.contains_key(j)
            &&& after.statics[j] == k
            &&& made_for(j, k)
        } by {
            if k != id {
                assert(p.members.contains_key(k));
            }
        }
        if told_apart(p) && p.leader == Some(id) && id != previous {
            assert(p.members.contains_key(id));
            assert(generated(id));
            let j = p.members[id].instance->0;
            lemma_made_for_one(i, j, id);
        }
    } else {
        let id = joining_id(p, member_id, instance, unix_nanos);
        joined_group_is_led(p, id, instance, protocol, session_timeout, now, delay);
        if instance is Some {
            let i = instance->0;
            assert(made_for(i, id));
            assert(!p.statics.contains_key(i));
            if p.members.contains_key(id) && p.members[id].instance is Some {
                lemma_made_for_one(i, p.members[id].instance->0, id);
            }
        } else if member_id.len() == 0 {
            lemma_number_not_generated(unix_nanos as nat);
        }
        assert forall|j: Seq<char>| #[trigger]
            after.statics.contains_key(j) implies after.members.contains_key(after.statics[j])
            && after.members[after.statics[j]].instance == Some(j) by {
            if p.statics.contains_key(j) {
                assert(p.members.contains_key(p.statics[j]));
            }
        }
        assert forall|k: Seq<char>| #[trigger]
            after.members.contains_key(k) && after.members[k].instance is Some implies {
            let j = after.members[k].instance->0;
            &&& after.statics.contains_key(j)
            &&& after.statics[j] == k
            &&& made_for(j, k)
        } by {
            if p.members.contains_key(k) {
                assert(p.members[k].instance == after.members[k].instance);
            }
        }
    }
}

/// `b` is `a` with nothing changed that soundness rests on.
pub open spec fn alike(a: GroupView, b: GroupView) -> bool {
    &&& b.leader == a.leader
    &&& b.statics == a.statics
    &&& b.members.dom() == a.members.dom()
    &&& forall|k: Seq<char>| #[trigger]
        a.members.contains_key(k) ==> b.members[k].member_id == a.members[k].member_id
            && b.members[k].instance == a.members[k].instance
}

proof fn lemma_alike(a: GroupView, b: GroupView)
    requires
        alike(a, b),
    ensures
        sound(a) ==> sound(b),
        told_apart(a) ==> told_apart(b),
{
    assert forall|k: Seq<char>| b.members.contains_key(k) == a.members.contains_key(k) by {
        assert(b.members.dom().contains(k) == a.members.dom().contains(k));
    }
    if sound(a) {
        if !no_members(a.members) {
            let k = choose|k: Seq<char>| a.members.contains_key(k);
            assert(b.members.contains_key(k));
        }
        assert(led(b));
    }
}

proof fn lemma_assigned_alike(
    members: Map<Seq<char>, MemberView>,
    assignments: Seq<MemberAssignment>,
)
    ensures
        ({
            let after = assigned_all(members, assignments);
            &&& after.dom() == members.dom()
            &&& forall|k: Seq<char>| #[trigger]
                members.contains_key(k) ==> after[k].member_id == members[k].member_id
                    && after[k].instance == members[k].instance
        }),
    decreases assignments.len(),
{
    if assignments.len() > 0 {
        lemma_assigned_alike(members, assignments.drop_last());
        let before = assigned_all(members, assignments.drop_last());
        let after = assigned_one(before, assignments.last());
        assert(after.dom() =~= before.dom());
        assert forall|k: Seq<char>| #[trigger] members.contains_key(k) implies after[k].member_id
            == members[k].member_id && after[k].instance == members[k].instance by {
            assert(before.dom().contains(k));
        }
    }
}

proof fn lemma_left(
    g: GroupView,
    member_id: Seq<char>,
    instance: Option<Seq<char>>,
    after: GroupView,
)
    requires
        left_as(g, member_id, instance, after),
    ensures
        sound(g) ==> sound(after),
        told_apart(g) ==> told_apart(after),
{
    if sound(g) {
        left_group_is_led(g, member_id, instance, after);
        let id = leaver(g, member_id, instance);
        assert forall|j: Seq<char>| #[trigger]
            after.statics.contains_key(j) implies after.members.contains_key(after.statics[j])
            && after.members[after.statics[j]].instance == Some(j) by {
            assert(g.statics.contains_key(j));
            assert(g.members.contains_key(g.statics[j]));
        }
        assert forall|k: Seq<char>| #[trigger]
            after.members.contains_key(k) && after.members[k].instance is Some implies {
            let j = after.members[k].instance->0;
            &&& after.statics.contains_key(j)
            &&& after.statics[j] == k
            &&& made_for(j, k)
        } by {
            assert(g.members.contains_key(k));
            let j = g.members[k].instance->0;
            assert(g.statics[j] == k);
        }
    }
}

/// Whether every group of the coordinator is sound.
pub open spec fn all_sound(c: GroupCoordinator) -> bool {
    forall|k: Seq<char>| #[trigger] c@.contains_key(k) ==> sound(c@[k])
}

/// Whether the members of every group of the coordinator are told apart.
pub open spec fn all_told_apart(c: GroupCoordinator) -> bool {
    forall|k: Seq<char>| #[trigger] c@.contains_key(k) ==> told_apart(c@[k])
}

/// Whether a call names no member that could be taken for an instance.
pub open spec fn names_plainly(call: GroupCall) -> bool {
    call matches GroupCall::Join { member_id, instance, .. } ==> instance is None ==> !generated(
        member_id,
    )
}

/// What becomes of one group in a call, but for its removals: `g` is what it was, or a new one.
proof fn lemma_step_of_group(
    before: GroupCoordinator,
    call: GroupCall,
    after: GroupCoordinator,
    k: Seq<char>,
)
    requires
        stepped(before, call, after),
        after@.contains_key(k),
    ensures
        sound(before.group_or_new(k)) ==> sound(after@[k]),
        sound(before.group_or_new(k)) && told_apart(before.group_or_new(k)) && names_plainly(call)
            ==> told_apart(after@[k]) && (call matches GroupCall::Join { group_id, joined: r, .. }
            ==> group_id == k ==> r->Ok_0.2 == (after@[k].leader == Some(r->Ok_0.0@))),
{
    let g = before.group_or_new(k);
    let x = after@[k];
    let max = before.max_poll_interval;
    match call {
        GroupCall::Join {
            group_id,
            member_id,
            instance,
            protocol,
            session_timeout_ms,
            now,
            unix_nanos,
            joined: r,
        } => {
            if group_id == k {
                let p = choose|p: GroupView| #[trigger]
                    pruned(g, p, now, max) && joins_as(
                        p,
                        member_id,
                        instance,
                        protocol,
                        session_timeout_of(session_timeout_ms),
                        now,
                        unix_nanos,
                        before.initial_rebalance_delay,
                        x,
                        r->Ok_0,
                    );
                lemma_pruned(g, p, now, max);
                if sound(g) {
                    lemma_joins(
                        p,
                        member_id,
                        instance,
                        protocol,
                        session_timeout_of(session_timeout_ms),
                        now,
                        unix_nanos,
                        before.initial_rebalance_delay,
                        x,
                        r->Ok_0,
                    );
                }
            }
        },
        GroupCall::Sync { group_id, generation_id, member_id, assignments, now, synced: r } => {
            if group_id == k {
                let p = choose|p: GroupView| #[trigger]
                    pruned(g, p, now, max) && syncs_as(
                        p,
                        generation_id,
                        member_id,
                        assignments,
                        x,
                        r,
                    );
                lemma_pruned(g, p, now, max);
                lemma_assigned_alike(p.members, assignments);
                lemma_alike(p, x);
            }
        },
        GroupCall::Beat { group_id, generation_id, member_id, now, beaten: r } => {
            if group_id == k {
                let p = choose|p: GroupView| #[trigger]
                    pruned(g, p, now, max) && beats_as(p, generation_id, member_id, now, x, r);
                lemma_pruned(g, p, now, max);
                assert(x.members.dom() =~= p.members.dom());
                lemma_alike(p, x);
            }
        },
        GroupCall::Progress { group_id, member_id, now } => {
            assert(x.members.dom() =~= g.members.dom());
            lemma_alike(g, x);
        },
        GroupCall::Leave { group_id, member_id, instance, left: r } => {
            if group_id == k {
                lemma_left(g, member_id, instance, x);
            }
        },
        GroupCall::Close { group_id, now } => {
            lemma_alike(g, x);
        },
        GroupCall::Describe { group_id, now, told: r } => {
            if group_id == k {
                lemma_pruned(g, x, now, max);
            }
        },
        GroupCall::List { now, listed: r } => {
            assert(before@.dom().contains(k));
            lemma_pruned(g, x, now, max);
        },
    }
}

proof fn lemma_new_is_sound(group_id: Seq<char>)
    ensures
        sound(GroupView::new(group_id)),
        told_apart(GroupView::new(group_id)),
{
}

proof fn lemma_all_sound(states: Seq<GroupCoordinator>, calls: Seq<GroupCall>, n: int)
    requires
        ran(states, calls),
        0 <= n < states.len(),
    ensures
        all_sound(states[n]),
        (forall|i: int| 0 <= i < n ==> names_plainly(#[trigger] calls[i])) ==> all_told_apart(
            states[n],
        ),
    decreases n,
{
    if n > 0 {
        lemma_all_sound(states, calls, n - 1);
        let before = states[n - 1];
        let call = calls[n - 1];
        assert(stepped(before, call, states[n]));
        assert forall|k: Seq<char>| #[trigger] states[n]@.contains_key(k) implies sound(
            states[n]@[k],
        ) && ((forall|i: int| 0 <= i < n ==> names_plainly(#[trigger] calls[i])) ==> told_apart(
            states[n]@[k],
        )) by {
            lemma_new_is_sound(k);
            lemma_step_of_group(before, call, states[n], k);
        }
    }
}

/// Whatever was called on a new coordinator, in every group: there is a leader, which is a
/// member, if and only if there are members; each member is found under its own id; and each
/// instance is a member that is that instance, and the other way round.
pub proof fn groups_stay_sound(
    states: Seq<GroupCoordinator>,
    calls: Seq<GroupCall>,
    n: int,
    group_id: Seq<char>,
)
    requires
        ran(states, calls),
        0 <= n < states.len(),
        states[n]@.contains_key(group_id),
    ensures
        ({
            let g = states[n]@[group_id];
            &&& g.leader is None <==> no_members(g.members)
            &&& g.leader matches Some(l) ==> g.members.contains_key(l)
            &&& forall|k: Seq<char>| #[trigger]
                g.members.contains_key(k) ==> g.members[k].member_id == k
            &&& forall|i: Seq<char>| #[trigger]
                g.statics.contains_key(i) ==> g.members.contains_key(g.statics[i])
                    && g.members[g.statics[i]].instance == Some(i)
            &&& forall|k: Seq<char>| #[trigger]
                g.members.contains_key(k) && g.members[k].instance is Some ==> g.statics.contains_key(
                    g.members[k].instance->0,
                ) && g.statics[g.members[k].instance->0] == k
        }),
{
    lemma_all_sound(states, calls, n);
}

/// A member that joins is told that it leads if and only if it does, unless some member called
/// itself by an id of the form that instances are given.
pub proof fn joiners_know_who_leads(
    states: Seq<GroupCoordinator>,
    calls: Seq<GroupCall>,
    n: int,
)
    requires
        ran(states, calls),
        0 <= n < calls.len(),
        calls[n] is Join,
        forall|i: int| 0 <= i <= n ==> names_plainly(#[trigger] calls[i]),
    ensures
        calls[n] matches GroupCall::Join { group_id, joined: r, .. } && states[n + 1]@.contains_key(group_id)
            && (r matches Ok(answer) && answer.2 == (states[n + 1]@[group_id].leader == Some(
            answer.0@,
        )) && states[n + 1]@[group_id].members.contains_key(answer.0@)),
{
    lemma_all_sound(states, calls, n);
    lemma_all_sound(states, calls, n + 1);
    assert(stepped(states[n], calls[n], states[n + 1]));
    let group_id = calls[n]->Join_group_id;
    lemma_new_is_sound(group_id);
    lemma_step_of_group(states[n], calls[n], states[n + 1], group_id);
}

/// Whether a call takes a member into the group.
pub open spec fn joins(call: GroupCall, group_id: Seq<char>) -> bool {
    call matches GroupCall::Join { group_id: g, .. } && g == group_id
}

proof fn lemma_known_groups(
    states: Seq<GroupCoordinator>,
    calls: Seq<GroupCall>,
    n: int,
    group_id: Seq<char>,
)
    requires
        ran(states, calls),
        0 <= n < states.len(),
    ensures
        states[n]@.contains_key(group_id) <==> exists|i: int|
            0 <= i < n && joins(#[trigger] calls[i], group_id),
    decreases n,
{
    if n > 0 {
        lemma_known_groups(states, calls, n - 1, group_id);
        let call = calls[n - 1];
        let before = states[n - 1];
        let after = states[n];
        assert(stepped(before, call, after));
        assert(after@.contains_key(group_id) <==> before@.contains_key(group_id) || joins(
            call,
            group_id,
        )) by {
            if call is List {
                assert(after@.dom().contains(group_id) == before@.dom().contains(group_id));
            }
        }
        if after@.contains_key(group_id) {
            if joins(call, group_id) {
                assert(joins(calls[n - 1], group_id));
            } else {
                let i = choose|i: int| 0 <= i < n - 1 && joins(#[trigger] calls[i], group_id);
                assert(joins(calls[i], group_id));
            }
        }
        if exists|i: int| 0 <= i < n && joins(#[trigger] calls[i], group_id) {
            let i = choose|i: int| 0 <= i < n && joins(#[trigger] calls[i], group_id);
            if i < n - 1 {
                assert(joins(calls[i], group_id));
            }
        }
    }
}

/// Whatever was called on a new coordinator, the groups that it lists are exactly those that some
/// member asked to join, each once, whether or not anyone is left in them.
pub proof fn groups_ever_joined_are_listed(
    states: Seq<GroupCoordinator>,
    calls: Seq<GroupCall>,
    after: GroupCoordinator,
    now: u64,
    r: Seq<String>,
)
    requires
        ran(states, calls),
        groups_listed(states.last(), after, now, r),
    ensures
        text_views(r).no_duplicates(),
        forall|k: Seq<char>| #[trigger]
            text_views(r).contains(k) <==> exists|i: int|
                0 <= i < calls.len() && joins(#[trigger] calls[i], k),
{
    assert(text_views(r) =~= states.last().groups.names());
    assert forall|k: Seq<char>| #[trigger]
        text_views(r).contains(k) <==> exists|i: int|
        0 <= i < calls.len() && joins(#[trigger] calls[i], k) by {
        lemma_known_groups(states, calls, calls.len() as int, k);
        assert(states.last()@.contains_key(k) <==> states.last().groups.names().contains(k));
    }
}

/// When a call removes the overdue members of the group, if it does.
pub open spec fn prunes_at(call: GroupCall, group_id: Seq<char>) -> Option<u64> {
    match call {
        GroupCall::Join { group_id: g, now, .. } => if g == group_id {
            Some(now)
        } else {
            None
        },
        GroupCall::Sync { group_id: g, now, .. } => if g == group_id {
            Some(now)
        } else {
            None
        },
        GroupCall::Beat { group_id: g, now, .. } => if g == group_id {
            Some(now)
        } else {
            None
        },
        GroupCall::Describe { group_id: g, now, .. } => if g == group_id {
            Some(now)
        } else {
            None
        },
        GroupCall::List { now, .. } => Some(now),
        _ => None,
    }
}

/// `evs` tells of the members that a call removes from the group: each that is overdue then, once,
/// and why.
pub open spec fn evicts(
    before: GroupCoordinator,
    call: GroupCall,
    group_id: Seq<char>,
    evs: Seq<EvictionView>,
) -> bool {
    let g = before.group_or_new(group_id);
    let max = before.max_poll_interval;
    match prunes_at(call, group_id) {
        Some(now) => tells_of(g, expired(g, now, max), evs, now, max),
        None => evs.len() == 0,
    }
}

/// All evictions of several calls, in order.
pub open spec fn in_one(evs: Seq<Seq<EvictionView>>) -> Seq<EvictionView>
    decreases evs.len(),
{
    if evs.len() == 0 {
        Seq::empty()
    } else {
        in_one(evs.drop_last()) + evs.last()
    }
}

/// `evs` tells, call by call, of the members that were removed from the group.
pub open spec fn evicted(
    states: Seq<GroupCoordinator>,
    calls: Seq<GroupCall>,
    group_id: Seq<char>,
    evs: Seq<Seq<EvictionView>>,
) -> bool {
    &&& evs.len() == calls.len()
    &&& forall|i: int|
        #![trigger evs[i]]
        0 <= i < calls.len() ==> evicts(states[i], calls[i], group_id, evs[i])
}

/// What was forgotten before makes no difference to the last of a longer list.
proof fn lemma_last_of_last(s: Seq<EvictionView>, t: Seq<EvictionView>, n: int)
    requires
        0 <= n,
    ensures
        last_of(last_of(s, n) + t, n) == last_of(s + t, n),
        last_of(s, n).len() <= n,
{
    assert(last_of(last_of(s, n) + t, n) =~= last_of(s + t, n));
}

proof fn lemma_removed_in_step(
    before: GroupCoordinator,
    call: GroupCall,
    after: GroupCoordinator,
    group_id: Seq<char>,
) -> (evs: Seq<EvictionView>)
    requires
        stepped(before, call, after),
        before.remembered(group_id).len() <= MAX_RECENT_EVICTIONS,
    ensures
        evicts(before, call, group_id, evs),
        after.remembered(group_id) == last_of(
            before.remembered(group_id) + evs,
            MAX_RECENT_EVICTIONS as int,
        ),
{
    let g = before.group_or_new(group_id);
    let max = before.max_poll_interval;
    let none = Seq::<EvictionView>::empty();
    assert(g.evictions + none =~= g.evictions);
    assert(g.evictions == before.remembered(group_id));
    match prunes_at(call, group_id) {
        None => none,
        Some(now) => {
            if !before@.contains_key(group_id) {
                assert(expired(g, now, max) =~= Set::empty());
            }
            if !before@.contains_key(group_id) && !(call is Join) {
                if call is List {
                    assert(after@.dom().contains(group_id) == before@.dom().contains(group_id));
                }
                none
            } else {
                let p = match call {
                    GroupCall::Join {
                        member_id,
                        instance,
                        protocol,
                        session_timeout_ms,
                        unix_nanos,
                        joined: r,
                        ..
                    } => choose|p: GroupView| #[trigger]
                        pruned(g, p, now, max) && joins_as(
                            p,
                            member_id,
                            instance,
                            protocol,
                            session_timeout_of(session_timeout_ms),
                            now,
                            unix_nanos,
                            before.initial_rebalance_delay,
                            after@[group_id],
                            r->Ok_0,
                        ),
                    GroupCall::Sync { generation_id, member_id, assignments, synced: r, .. } =>
                        choose|p: GroupView| #[trigger]
                        pruned(g, p, now, max) && syncs_as(
                            p,
                            generation_id,
                            member_id,
                            assignments,
                            after@[group_id],
                            r,
                        ),
                    GroupCall::Beat { generation_id, member_id, beaten: r, .. } => choose|
                        p: GroupView,
                    | #[trigger]
                        pruned(g, p, now, max) && beats_as(
                            p,
                            generation_id,
                            member_id,
                            now,
                            after@[group_id],
                            r,
                        ),
                    _ => after@[group_id],
                };
                if call is List {
                    assert(after@.dom().contains(group_id) == before@.dom().contains(group_id));
                }
                assert(pruned(g, p, now, max));
                assert(p.evictions == after@[group_id].evictions);
                choose|evs: Seq<EvictionView>| #[trigger]
                    tells_of(g, expired(g, now, max), evs, now, max) && p.evictions == last_of(
                        g.evictions + evs,
                        MAX_RECENT_EVICTIONS as int,
                    )
            }
        },
    }
}

/// Whatever was called on a new coordinator, the removals that a group remembers are the last
/// twenty of all that there were, oldest first. A group that is not there remembers none.
pub proof fn the_last_removals_are_remembered(
    states: Seq<GroupCoordinator>,
    calls: Seq<GroupCall>,
    group_id: Seq<char>,
)
    requires
        ran(states, calls),
    ensures
        exists|evs: Seq<Seq<EvictionView>>| #[trigger]
            evicted(states, calls, group_id, evs) && states.last().remembered(group_id) == last_of(
                in_one(evs),
                20,
            ),
        states.last().remembered(group_id).len() <= 20,
    decreases calls.len(),
{
    if calls.len() == 0 {
        let evs = Seq::<Seq<EvictionView>>::empty();
        assert(evicted(states, calls, group_id, evs));
        assert(states.last().remembered(group_id) =~= last_of(in_one(evs), 20));
    } else {
        let n = calls.len() - 1;
        let (s, c) = (states.drop_last(), calls.drop_last());
        assert(ran(s, c)) by {
            assert forall|i: int| #![trigger c[i]] 0 <= i < c.len() implies stepped(
                s[i],
                c[i],
                s[i + 1],
            ) by {
                assert(c[i] == calls[i]);
            }
        }
        the_last_removals_are_remembered(s, c, group_id);
        let before = choose|evs: Seq<Seq<EvictionView>>| #[trigger]
            evicted(s, c, group_id, evs) && s.last().remembered(group_id) == last_of(
                in_one(evs),
                20,
            );
        assert(stepped(states[n], calls[n], states[n + 1]));
        let more = lemma_removed_in_step(states[n], calls[n], states[n + 1], group_id);
        let evs = before.push(more);
        assert(evs.drop_last() =~= before);
        assert forall|i: int| #![trigger evs[i]] 0 <= i < calls.len() implies evicts(
            states[i],
            calls[i],
            group_id,
            evs[i],
        ) by {
            if i < n {
                assert(evs[i] == before[i]);
                assert(s[i] == states[i] && c[i] == calls[i]);
            }
        }
        assert(evicted(states, calls, group_id, evs));
        lemma_last_of_last(in_one(before), more, 20);
        lemma_last_of_last(in_one(evs), Seq::empty(), 20);
    }
}

} // verus!
