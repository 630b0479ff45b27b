//! Waiting for a join window to close.
use crate::coordinator::groups::GroupCoordinator;
use crate::coordinator::membership::or_empty;
use vstd::prelude::*;

verus! {

/// The longest that a waiting member sleeps before it looks at the window again, in
/// nanoseconds.
pub const JOIN_POLL: u64 = 25_000_000;

/// How long a member that began to wait at `started` is to sleep before it looks again. None if
/// it has waited for long enough: the window is closed, or three times its length have passed.
pub open spec fn next_sleep(remaining: Option<u64>, delay: u64, started: u64, now: u64) -> Option<
    u64,
> {
    match remaining {
        None => None,
        Some(r) => if now - started >= 3 * delay {
            None
        } else if r < JOIN_POLL {
            Some(r)
        } else {
            Some(JOIN_POLL)
        },
    }
}

impl GroupCoordinator {
    /// How long a member that waits for the group's window is to sleep before it looks again.
    pub fn join_wait(&self, group_id: &str, started: u64, now: u64) -> (r: Option<u64>)
        ensures
            r == next_sleep(
                if self@.contains_key(group_id@) && (self@[group_id@].deadline matches Some(d)
                    && now < d) {
                    Some((self@[group_id@].deadline->0 - now) as u64)
                } else {
                    None
                },
                self.initial_rebalance_delay,
                started,
                now,
            ),
    {
        match self.join_window_remaining(group_id, now) {
            None => None,
            Some(remaining) => {
                let most: u128 = self.initial_rebalance_delay as u128 * 3;
                if now >= started && (now - started) as u128 >= most {
                    return None;
                }
                if remaining < JOIN_POLL {
                    Some(remaining)
                } else {
                    Some(JOIN_POLL)
                }
            },
        }
    }

    /// What a member is told once it has waited: what the group has come to, or what it was told
    /// when it joined, if the group is gone.
    pub fn answer_joined(&self, group_id: &str, joined: (String, u32, bool, String)) -> (r: (
        String,
        u32,
        bool,
        String,
    ))
        ensures
            if self@.contains_key(group_id@) {
                &&& r.0 == joined.0
                &&& r.1 == self@[group_id@].generation_id
                &&& r.2 == (self@[group_id@].leader == Some(joined.0@))
                &&& r.3@ == or_empty(self@[group_id@].protocol)
            } else {
                r == joined
            },
    {
        match self.join_result(group_id, joined.0.as_str()) {
            Some((generation, is_leader, protocol)) => (joined.0, generation, is_leader, protocol),
            None => joined,
        }
    }
}

impl Default for GroupCoordinator {
    fn default() -> (r: Self)
        ensures
            r.wf(),
            r@ == Map::<Seq<char>, crate::coordinator::group::GroupView>::empty(),
            r.initial_rebalance_delay == 3_000_000_000,
    {
        Self::new()
    }
}

} // verus!
