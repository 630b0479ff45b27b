//! How members come into a group, stay in it and leave it.
use crate::assoc::{lemma_position, position, AssocMap};
use crate::coordinator::group::{
    last_of, lemma_member_views, lemma_text_views, ConsumerGroup, EvictionReason,
    EvictionView, GroupState, GroupView, MemberState, MemberView, MAX_RECENT_EVICTIONS,
};
use crate::text::{decimal, owned, push_decimal, push_decimal_wide};
use vstd::prelude::*;
use vstd::string::*;

verus! {

/// The shortest session timeout that a member is given.
pub const MIN_SESSION_TIMEOUT: u64 = 200_000_000;

/// The longest session timeout that a member is given.
pub const MAX_SESSION_TIMEOUT: u64 = 300_000_000_000;

/// The session timeout of a member that asked for none.
pub const DEFAULT_SESSION_TIMEOUT: u64 = 10_000_000_000;

/// How long a member may go without a fetch, where nothing else is configured.
pub const DEFAULT_MAX_POLL_INTERVAL: u64 = 300_000_000_000;

/// Why `m` would be removed at `now`, if at all: a missed session timeout counts before a missed
/// poll interval.
pub open spec fn expiry_of(m: MemberView, now: u64, max_poll_interval: u64) -> Option<EvictionReason> {
    if now - m.last_heartbeat > m.session_timeout {
        Some(EvictionReason::SessionTimeout)
    } else if now - m.last_progress > max_poll_interval {
        Some(EvictionReason::StalledConsumption)
    } else {
        None
    }
}

/// The members of `g` that would be removed at `now`.
pub open spec fn expired(g: GroupView, now: u64, max_poll_interval: u64) -> Set<Seq<char>> {
    Set::new(
        |k: Seq<char>|
            g.members.contains_key(k) && expiry_of(g.members[k], now, max_poll_interval) is Some,
    )
}

/// The instances that the members `gone` of `g` are.
pub open spec fn instances_of(g: GroupView, gone: Set<Seq<char>>) -> Set<Seq<char>> {
    Set::new(
        |i: Seq<char>|
            exists|k: Seq<char>|
                gone.contains(k) && g.members.contains_key(k) && #[trigger] g.members[k].instance
                    == Some(i),
    )
}

/// `evs` tells of each of the members `gone` of `g` once, and why it was removed at `now`.
pub open spec fn tells_of(
    g: GroupView,
    gone: Set<Seq<char>>,
    evs: Seq<EvictionView>,
    now: u64,
    max_poll_interval: u64,
) -> bool {
    &&& forall|k: Seq<char>| #[trigger]
        gone.contains(k) <==> exists|i: int| 0 <= i < evs.len() && (#[trigger] evs[i]).member_id == k
    &&& forall|i: int, j: int|
        0 <= i < j < evs.len() ==> (#[trigger] evs[i]).member_id != (#[trigger] evs[j]).member_id
    &&& forall|i: int|
        0 <= i < evs.len() ==> (#[trigger] evs[i]).at == now && g.members.contains_key(
            evs[i].member_id,
        ) && expiry_of(g.members[evs[i].member_id], now, max_poll_interval) == Some(evs[i].reason)
}

/// Who leads after the members `gone` of `g` went: whoever did, if it stayed, and otherwise
/// anyone of those who are left.
pub open spec fn led_on(
    before: Option<Seq<char>>,
    gone: Set<Seq<char>>,
    left: Map<Seq<char>, MemberView>,
    leader: Option<Seq<char>>,
) -> bool {
    if before matches Some(l) && gone.contains(l) {
        match leader {
            Some(l) => left.contains_key(l),
            None => forall|k: Seq<char>| !left.contains_key(k),
        }
    } else {
        leader == before
    }
}

/// `after` is `g` without the members that are to be removed at `now`.
pub open spec fn pruned(g: GroupView, after: GroupView, now: u64, max_poll_interval: u64) -> bool {
    let gone = expired(g, now, max_poll_interval);
    &&& after.members == g.members.remove_keys(gone)
    &&& after.statics == g.statics.remove_keys(instances_of(g, gone))
    &&& after.state == (if no_members(after.members) {
        GroupState::Empty
    } else {
        g.state
    })
    &&& if no_members(after.members) {
        after.leader is None
    } else {
        led_on(g.leader, gone, after.members, after.leader)
    }
    &&& exists|evs: Seq<EvictionView>| #[trigger]
        tells_of(g, gone, evs, now, max_poll_interval) && after.evictions == last_of(
            g.evictions + evs,
            MAX_RECENT_EVICTIONS as int,
        )
    &&& after.group_id == g.group_id
    &&& after.generation_id == g.generation_id
    &&& after.protocol == g.protocol
    &&& after.deadline == g.deadline
    &&& after.seq == g.seq
}

pub open spec fn no_members(m: Map<Seq<char>, MemberView>) -> bool {
    forall|k: Seq<char>| !#[trigger] m.contains_key(k)
}

impl ConsumerGroup {
    /// The group remembers no more removals than it should.
    pub open spec fn wf(self) -> bool {
        self.recent_evictions@.len() <= MAX_RECENT_EVICTIONS
    }

    /// Anyone of the members, where there is one.
    fn any_member(&self) -> (r: Option<String>)
        ensures
            match r {
                Some(l) => self@.members.contains_key(l@),
                None => no_members(self@.members),
            },
    {
        let n: usize = self.members.len();
        if n > 0 {
            let name: &String = self.members.name_at(0);
            Some(name.clone())
        } else {
            None
        }
    }

    /// Why the member at position `i` would be removed at `now`.
    fn expiry_at(&self, i: usize, now: u64, max_poll_interval: u64) -> (r: Option<EvictionReason>)
        requires
            i < self.members.names().len(),
        ensures
            r == expiry_of(self.members.values()[i as int]@, now, max_poll_interval),
    {
        let m: &MemberState = self.members.value_at(i);
        if now > m.last_heartbeat && now - m.last_heartbeat > m.session_timeout {
            Some(EvictionReason::SessionTimeout)
        } else if now > m.last_progress && now - m.last_progress > max_poll_interval {
            Some(EvictionReason::StalledConsumption)
        } else {
            None
        }
    }

    /// Removes the members that missed their session timeout or the poll interval.
    pub fn prune_expired_members(&mut self, now: u64, max_poll_interval: u64)
        requires
            old(self).wf(),
        ensures
            final(self).wf(),
            pruned(old(self)@, final(self)@, now, max_poll_interval),
    {
        let ghost g = self@;
        let ghost mut gone: Set<Seq<char>> = Set::empty();
        let ghost mut evs: Seq<EvictionView> = Seq::empty();
        let mut i: usize = 0;
        let mut n: usize = self.members.len();
        proof {
            assert(g.members.remove_keys(gone) =~= g.members);
            assert(g.statics.remove_keys(instances_of(g, gone)) =~= g.statics);
            assert(g.evictions + evs =~= g.evictions);
        }
        while i < n
            invariant
                n == self.members.names().len(),
                i <= n,
                self.wf(),
                g == old(self)@,
                self.members.names().no_duplicates(),
                self.members.names().len() == self.members.values().len(),
                forall|j: int|
                    0 <= j < n ==> self.members@.contains_key(#[trigger] self.members.names()[j])
                        && self.members@[self.members.names()[j]] == self.members.values()[j],
                forall|j: int|
                    0 <= j < i ==> expiry_of(
                        (#[trigger] self.members.values()[j])@,
                        now,
                        max_poll_interval,
                    ) is None,
                self@.members == g.members.remove_keys(gone),
                self@.statics == g.statics.remove_keys(instances_of(g, gone)),
                led_on(g.leader, gone, self@.members, self@.leader),
                tells_of(g, gone, evs, now, max_poll_interval),
                self@.evictions == last_of(g.evictions + evs, MAX_RECENT_EVICTIONS as int),
                self@.group_id == g.group_id,
                self@.generation_id == g.generation_id,
                self@.protocol == g.protocol,
                self@.deadline == g.deadline,
                self@.seq == g.seq,
                self@.state == g.state,
            decreases n - i,
        {
            match self.expiry_at(i, now, max_poll_interval) {
                None => {
                    i = i + 1;
                },
                Some(reason) => {
                    let ghost cur = *self;
                    let id: String = self.members.name_at(i).clone();
                    let ghost k = id@;
                    let ghost names = self.members.names();
                    let removed: Option<MemberState> = self.members.remove(id.as_str());
                    proof {
                        lemma_member_views(cur.members@, k, cur.members@[k]);
                        assert(cur.members@.contains_key(k));
                        assert(cur@.members.contains_key(k));
                        assert(cur@.members[k] == g.members.remove_keys(gone)[k]);
                        assert(g.members.contains_key(k) && cur.members@[k]@ == g.members[k]);
                        lemma_position(names, i as int);
                    }
                    if let Some(member) = removed {
                        if let Some(instance_id) = member.group_instance_id {
                            proof {
                                lemma_text_views(
                                    cur.static_members@,
                                    instance_id@,
                                    cur.static_members@[instance_id@],
                                );
                            }
                            let _ = self.static_members.remove(instance_id.as_str());
                        }
                    }
                    if self.is_led_by(id.as_str()) {
                        self.leader = self.any_member();
                    }
                    self.record_eviction(id, reason, now);
                    proof {
                        assert(self.recent_evictions@.len() == self@.evictions.len());
                        let gone2 = gone.insert(k);
                        let e = EvictionView { member_id: k, reason, at: now };
                        let evs2 = evs.push(e);
                        assert(g.members.remove_keys(gone).remove(k) =~= g.members.remove_keys(
                            gone2,
                        ));
                        lemma_instances(g, gone, k);
                        assert(self@.statics =~= g.statics.remove_keys(instances_of(g, gone2)));
                        lemma_tells_more(g, gone, evs, now, max_poll_interval, k, reason);
                        lemma_last_of(g.evictions + evs, e, MAX_RECENT_EVICTIONS as int);
                        assert((g.evictions + evs).push(e) =~= g.evictions + evs2);
                        gone = gone2;
                        evs = evs2;
                        assert forall|j: int| 0 <= j < i implies expiry_of(
                            (#[trigger] self.members.values()[j])@,
                            now,
                            max_poll_interval,
                        ) is None by {
                            assert(self.members.values()[j] == cur.members.values()[j]);
                        }
                    }
                    n = self.members.len();
                },
            }
        }
        proof {
            assert forall|k: Seq<char>| gone.contains(k) == expired(
                g,
                now,
                max_poll_interval,
            ).contains(k) by {
                if expired(g, now, max_poll_interval).contains(k) && !gone.contains(k) {
                    assert(self@.members.contains_key(k));
                    assert(self@.members[k] == g.members[k]);
                    let j = position(self.members.names(), k);
                    assert(self.members.names().contains(k));
                    assert(self.members.names()[j] == k);
                    assert(expiry_of(self.members.values()[j]@, now, max_poll_interval) is None);
                }
            }
            assert(gone =~= expired(g, now, max_poll_interval));
            if n > 0 {
                assert(self@.members.contains_key(self.members.names()[0]));
            }
            assert(no_members(self@.members) == (n == 0)) by {
                if n == 0 {
                    assert forall|k: Seq<char>| !#[trigger] self@.members.contains_key(k) by {
                        if self@.members.contains_key(k) {
                            assert(self.members.names().contains(k));
                        }
                    }
                }
            }
        }
        if n == 0 {
            self.state = GroupState::Empty;
            self.leader = None;
        }
    }
}

/// The id of the member that instance `instance` becomes, on its `seq`-th turn in the group.
pub open spec fn instance_member(instance: Seq<char>, seq: u64) -> Seq<char> {
    instance.push('-') + decimal(seq as nat)
}

/// One more, where that is still a `u64`.
pub open spec fn next_seq(seq: u64) -> u64 {
    if seq < u64::MAX {
        (seq + 1) as u64
    } else {
        seq
    }
}

/// Whether `g` keeps a place for `instance`.
pub open spec fn keeps_place(g: GroupView, instance: Seq<char>) -> bool {
    g.statics.contains_key(instance) && g.members.contains_key(g.statics[instance])
}

/// `g` after `instance` came back to its place, under a new member id. Neither the generation
/// nor the assignment changes; the old member id is gone.
pub open spec fn rejoined(g: GroupView, instance: Seq<char>, session_timeout: u64, now: u64) -> GroupView {
    let previous = g.statics[instance];
    let seq = next_seq(g.seq);
    let id = instance_member(instance, seq);
    GroupView {
        seq,
        members: g.members.remove(previous).insert(
            id,
            MemberView {
                member_id: id,
                client_id: id,
                last_heartbeat: now,
                last_progress: now,
                session_timeout,
                ..g.members[previous]
            },
        ),
        statics: g.statics.insert(instance, id),
        leader: if g.leader == Some(previous) {
            Some(id)
        } else {
            g.leader
        },
        ..g
    }
}

pub open spec fn or_empty(s: Option<Seq<char>>) -> Seq<char> {
    match s {
        Some(t) => t,
        None => Seq::empty(),
    }
}

/// What a member is told when it joined: its id, the generation, whether it leads, and the
/// protocol.
pub open spec fn join_answer(r: (String, u32, bool, String), g: GroupView, id: Seq<char>) -> bool {
    &&& r.0@ == id
    &&& r.1 == g.generation_id
    &&& r.2 == (g.leader == Some(id))
    &&& r.3@ == or_empty(g.protocol)
}

/// The member id that a request to join is given.
pub open spec fn joining_id(
    g: GroupView,
    member_id: Seq<char>,
    instance: Option<Seq<char>>,
    unix_nanos: u128,
) -> Seq<char> {
    match instance {
        Some(i) => instance_member(i, next_seq(g.seq)),
        None => if member_id.len() == 0 {
            decimal(unix_nanos as nat)
        } else {
            member_id
        },
    }
}

/// The join window after a new member came at `now`: an open one is extended by a quarter of
/// `delay`, up to two delays from now; otherwise a new one opens.
pub open spec fn window_after(deadline: Option<u64>, now: u64, delay: u64) -> u64 {
    match deadline {
        Some(d) => if now < d {
            if d + delay / 4 < now + 2 * delay {
                (d + delay / 4) as u64
            } else {
                (now + 2 * delay) as u64
            }
        } else {
            (now + delay) as u64
        },
        None => (now + delay) as u64,
    }
}

/// `g` after a member without a place in it joined at `now`.
pub open spec fn joined(
    g: GroupView,
    id: Seq<char>,
    instance: Option<Seq<char>>,
    protocol: Option<Seq<char>>,
    session_timeout: u64,
    now: u64,
    delay: u64,
) -> GroupView {
    let was_empty = g.state is Empty;
    let known = g.members.contains_key(id);
    let member = if known {
        MemberView { last_heartbeat: now, session_timeout, ..g.members[id] }
    } else {
        MemberView {
            member_id: id,
            client_id: id,
            session_timeout,
            assigned: Map::empty(),
            last_heartbeat: now,
            last_progress: now,
            instance,
        }
    };
    let opens = (!known || was_empty) && !(g.deadline matches Some(d) && now < d);
    GroupView {
        seq: if instance is Some {
            next_seq(g.seq)
        } else {
            g.seq
        },
        members: g.members.insert(id, member),
        statics: if instance is Some && !known {
            g.statics.insert(instance->0, id)
        } else {
            g.statics
        },
        protocol: if was_empty {
            protocol
        } else {
            g.protocol
        },
        deadline: if !known || was_empty {
            Some(window_after(g.deadline, now, delay))
        } else {
            g.deadline
        },
        state: if opens {
            GroupState::PreparingRebalance
        } else {
            g.state
        },
        generation_id: if opens && g.generation_id < u32::MAX {
            (g.generation_id + 1) as u32
        } else {
            g.generation_id
        },
        leader: if g.leader is None {
            Some(id)
        } else {
            g.leader
        },
        ..g
    }
}

/// The session timeout that a request is given: the default where it asked for none, and
/// otherwise what it asked for, within bounds.
pub open spec fn session_timeout_of(requested_ms: Option<u32>) -> u64 {
    match requested_ms {
        None => DEFAULT_SESSION_TIMEOUT,
        Some(ms) => if ms * 1_000_000 < MIN_SESSION_TIMEOUT {
            MIN_SESSION_TIMEOUT
        } else if ms * 1_000_000 > MAX_SESSION_TIMEOUT {
            MAX_SESSION_TIMEOUT
        } else {
            (ms * 1_000_000) as u64
        },
    }
}

fn instance_member_id(instance: &str, seq: u64) -> (r: String)
    ensures
        r@ == instance_member(instance@, seq),
{
    let mut id = owned(instance);
    id.push('-');
    push_decimal(&mut id, seq);
    id
}

impl ConsumerGroup {
    fn protocol_or_empty(&self) -> (r: String)
        ensures
            r@ == or_empty(self@.protocol),
    {
        match &self.protocol_name {
            Some(p) => p.clone(),
            None => String::new(),
        }
    }

    /// Gives an instance its place back, or nothing where the group keeps none for it.
    pub fn rejoin_static(&mut self, instance_id: &str, session_timeout: u64, now: u64) -> (r: Option<
        (String, u32, bool, String),
    >)
        requires
            old(self).wf(),
        ensures
            final(self).wf(),
            r is Some <==> keeps_place(old(self)@, instance_id@),
            r is None ==> *final(self) == *old(self),
            r matches Some(answer) ==> final(self)@ == rejoined(
                old(self)@,
                instance_id@,
                session_timeout,
                now,
            ) && answer.0@ == instance_member(instance_id@, next_seq(old(self)@.seq))
                && answer.1 == old(self)@.generation_id
                && answer.2 == (old(self)@.leader == Some(old(self)@.statics[instance_id@]))
                && answer.3@ == or_empty(old(self)@.protocol),
    {
        let ghost g = self@;
        let previous: String = match self.static_members.get(instance_id) {
            Some(id) => id.clone(),
            None => {
                return None;
            },
        };
        let ghost members0 = self.members@;
        let mut member: MemberState = match self.members.remove(previous.as_str()) {
            Some(member) => member,
            None => {
                return None;
            },
        };
        let seq: u64 = self.member_id_seq.saturating_add(1);
        self.member_id_seq = seq;
        let id: String = instance_member_id(instance_id, seq);
        member.member_id = id.clone();
        member.client_id = id.clone();
        member.last_heartbeat = now;
        member.last_progress = now;
        member.session_timeout = session_timeout;
        proof {
            lemma_member_views(members0, previous@, members0[previous@]);
            lemma_member_views(self.members@, id@, member);
            lemma_text_views(self.static_members@, instance_id@, id);
        }
        self.members.insert(id.clone(), member);
        self.static_members.insert(owned(instance_id), id.clone());
        let is_leader: bool = self.is_led_by(previous.as_str());
        if is_leader {
            self.leader = Some(id.clone());
        }
        proof {
            assert(self@ =~= rejoined(g, instance_id@, session_timeout, now));
        }
        Some((id, self.generation_id, is_leader, self.protocol_or_empty()))
    }

    /// Takes a member into the group that has no place kept for it.
    pub fn take_in(
        &mut self,
        member_id: &str,
        group_instance_id: Option<&str>,
        protocols: &Vec<String>,
        session_timeout: u64,
        now: u64,
        unix_nanos: u128,
        delay: u64,
    ) -> (r: (String, u32, bool, String))
        requires
            old(self).wf(),
            now + 2 * delay <= u64::MAX,
        ensures
            final(self).wf(),
            ({
                let instance = match group_instance_id {
                    Some(i) => Some(i@),
                    None => None,
                };
                let id = joining_id(old(self)@, member_id@, instance, unix_nanos);
                &&& final(self)@ == joined(
                    old(self)@,
                    id,
                    instance,
                    if protocols@.len() > 0 {
                        Some(protocols@[0]@)
                    } else {
                        None
                    },
                    session_timeout,
                    now,
                    delay,
                )
                &&& join_answer(r, final(self)@, id)
            }),
    {
        let ghost g = self@;
        let ghost instance: Option<Seq<char>> = match group_instance_id {
            Some(i) => Some(i@),
            None => None,
        };
        let id: String = match group_instance_id {
            Some(instance_id) => {
                let seq: u64 = self.member_id_seq.saturating_add(1);
                self.member_id_seq = seq;
                instance_member_id(instance_id, seq)
            },
            None => if member_id.is_empty() {
                let mut s = String::new();
                push_decimal_wide(&mut s, unix_nanos);
                proof {
                    assert(s@ =~= decimal(unix_nanos as nat));
                }
                s
            } else {
                owned(member_id)
            },
        };
        let was_empty: bool = self.state == GroupState::Empty;
        let ghost members0 = self.members@;
        let ghost statics0 = self.static_members@;
        let known: bool = match self.members.find(id.as_str()) {
            Some(i) => {
                let member: &mut MemberState = self.members.value_mut(i);
                member.last_heartbeat = now;
                member.session_timeout = session_timeout;
                proof {
                    lemma_member_views(members0, id@, *member);
                }
                true
            },
            None => {
                let member = MemberState {
                    member_id: id.clone(),
                    client_id: id.clone(),
                    session_timeout,
                    assigned_partitions: AssocMap::new(),
                    last_heartbeat: now,
                    last_progress: now,
                    group_instance_id: match group_instance_id {
                        Some(i) => Some(owned(i)),
                        None => None,
                    },
                };
                proof {
                    lemma_member_views(members0, id@, member);
                    assert(member@.assigned =~= Map::empty());
                }
                self.members.insert(id.clone(), member);
                if let Some(instance_id) = group_instance_id {
                    proof {
                        lemma_text_views(statics0, instance_id@, id);
                    }
                    self.static_members.insert(owned(instance_id), id.clone());
                }
                false
            },
        };
        if was_empty {
            self.protocol_name = if protocols.len() > 0 {
                Some(protocols[0].clone())
            } else {
                None
            };
        }
        if !known || was_empty {
            let open: bool = match self.rebalance_deadline {
                Some(deadline) => now < deadline,
                None => false,
            };
            if open {
                if let Some(deadline) = self.rebalance_deadline {
                    let extended: u64 = deadline.saturating_add(delay / 4);
                    let latest: u64 = now + 2 * delay;
                    self.rebalance_deadline = Some(
                        if extended < latest {
                            extended
                        } else {
                            latest
                        },
                    );
                }
            } else {
                self.state = GroupState::PreparingRebalance;
                self.generation_id = self.generation_id.saturating_add(1);
                self.rebalance_deadline = Some(now + delay);
            }
        }
        if self.leader.is_none() {
            self.leader = Some(id.clone());
        }
        let is_leader: bool = self.is_led_by(id.as_str());
        proof {
            assert(self@ =~= joined(
                g,
                id@,
                instance,
                if protocols@.len() > 0 {
                    Some(protocols@[0]@)
                } else {
                    None
                },
                session_timeout,
                now,
                delay,
            ));
        }
        (id, self.generation_id, is_leader, self.protocol_or_empty())
    }
}

/// The instances of the members `gone` and of `k`.
proof fn lemma_instances(g: GroupView, gone: Set<Seq<char>>, k: Seq<char>)
    requires
        g.members.contains_key(k),
    ensures
        instances_of(g, gone.insert(k)) == (match g.members[k].instance {
            Some(i) => instances_of(g, gone).insert(i),
            None => instances_of(g, gone),
        }),
{
    let more = instances_of(g, gone.insert(k));
    let want = match g.members[k].instance {
        Some(i) => instances_of(g, gone).insert(i),
        None => instances_of(g, gone),
    };
    assert forall|i: Seq<char>| more.contains(i) == want.contains(i) by {
        if instances_of(g, gone).contains(i) {
            let x = choose|x: Seq<char>|
                gone.contains(x) && g.members.contains_key(x) && #[trigger] g.members[x].instance
                    == Some(i);
            assert(gone.insert(k).contains(x) && g.members[x].instance == Some(i));
        }
        if g.members[k].instance == Some(i) {
            assert(gone.insert(k).contains(k) && g.members[k].instance == Some(i));
        }
    }
    assert(more =~= want);
}

proof fn lemma_tells_more(
    g: GroupView,
    gone: Set<Seq<char>>,
    evs: Seq<EvictionView>,
    now: u64,
    max_poll_interval: u64,
    k: Seq<char>,
    reason: EvictionReason,
)
    requires
        tells_of(g, gone, evs, now, max_poll_interval),
        !gone.contains(k),
        g.members.contains_key(k),
        expiry_of(g.members[k], now, max_poll_interval) == Some(reason),
    ensures
        tells_of(
            g,
            gone.insert(k),
            evs.push(EvictionView { member_id: k, reason, at: now }),
            now,
            max_poll_interval,
        ),
{
    let e = EvictionView { member_id: k, reason, at: now };
    let evs2 = evs.push(e);
    assert forall|x: Seq<char>| #[trigger] gone.insert(k).contains(x) <==> exists|i: int|
        0 <= i < evs2.len() && (#[trigger] evs2[i]).member_id == x by {
        if gone.contains(x) {
            let i = choose|i: int| 0 <= i < evs.len() && (#[trigger] evs[i]).member_id == x;
            assert(evs2[i].member_id == x);
        }
        if x == k {
            assert(evs2[evs.len() as int].member_id == x);
        }
        if exists|i: int| 0 <= i < evs2.len() && (#[trigger] evs2[i]).member_id == x {
            let i = choose|i: int| 0 <= i < evs2.len() && (#[trigger] evs2[i]).member_id == x;
            if i < evs.len() {
                assert(evs[i].member_id == x);
            }
        }
    }
    assert forall|i: int, j: int| 0 <= i < j < evs2.len() implies (#[trigger] evs2[i]).member_id != (
    #[trigger] evs2[j]).member_id by {
        assert(evs[i].member_id == evs2[i].member_id);
        assert(gone.contains(evs[i].member_id));
    }
}

proof fn lemma_last_of<T>(s: Seq<T>, x: T, n: int)
    requires
        n >= 1,
    ensures
        last_of(last_of(s, n).push(x), n) == last_of(s.push(x), n),
{
    assert(last_of(last_of(s, n).push(x), n) =~= last_of(s.push(x), n));
}

} // verus!
