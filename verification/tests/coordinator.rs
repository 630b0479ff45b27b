use bifrox_server::coordinator::group::EvictionReason;
use bifrox_server::coordinator::groups::{GroupCoordinator, MemberAssignment};
use bifrox_server::coordinator::membership::{
    DEFAULT_SESSION_TIMEOUT, MAX_SESSION_TIMEOUT, MIN_SESSION_TIMEOUT,
};

const MS: u64 = 1_000_000;
const SEC: u64 = 1_000_000_000;
const NOW: u64 = 1_000 * SEC;

fn join(
    c: &mut GroupCoordinator,
    member: &str,
    instance: Option<&str>,
    timeout: Option<u32>,
) -> String {
    c.join_group("g", member, instance, vec!["range".to_string()], timeout, NOW, 1_700_000_000)
        .unwrap()
        .0
}

#[test]
fn resolve_session_timeout_defaults_when_absent() {
    assert_eq!(
        GroupCoordinator::resolve_session_timeout(None),
        DEFAULT_SESSION_TIMEOUT,
        "no SESSION_TIMEOUT_MS tag must keep the coordinator's historical default"
    );
}

#[test]
fn resolve_session_timeout_clamps_below_minimum() {
    let requested_ms = ((MIN_SESSION_TIMEOUT / MS) as u32).saturating_sub(50);
    assert_eq!(
        GroupCoordinator::resolve_session_timeout(Some(requested_ms)),
        MIN_SESSION_TIMEOUT,
        "a timeout below the floor must be clamped up to it, not honored as-is"
    );
}

#[test]
fn resolve_session_timeout_clamps_above_maximum() {
    let requested_ms = ((MAX_SESSION_TIMEOUT / MS) as u32) + 60_000;
    assert_eq!(
        GroupCoordinator::resolve_session_timeout(Some(requested_ms)),
        MAX_SESSION_TIMEOUT,
        "a timeout above the ceiling must be clamped down to it, not honored as-is"
    );
}

#[test]
fn resolve_session_timeout_passes_through_in_range_value() {
    assert_eq!(
        GroupCoordinator::resolve_session_timeout(Some(5_000)),
        5_000 * MS,
        "an in-range request must be honored exactly, not silently adjusted"
    );
}

fn member_session_timeout(c: &GroupCoordinator, group_id: &str, member_id: &str) -> u64 {
    c.groups
        .get(group_id)
        .and_then(|g| g.members.get(member_id))
        .expect("member must exist")
        .session_timeout
}

#[test]
fn join_group_honors_an_in_range_requested_session_timeout() {
    let mut coordinator = GroupCoordinator::with_rebalance_delay(0);
    let member_id = join(&mut coordinator, "m1", None, Some(2_000));
    assert_eq!(member_session_timeout(&coordinator, "g", &member_id), 2_000 * MS);
}

#[test]
fn join_group_clamps_a_too_low_requested_session_timeout() {
    let mut coordinator = GroupCoordinator::with_rebalance_delay(0);
    let member_id = join(&mut coordinator, "m1", None, Some(1));
    assert_eq!(
        member_session_timeout(&coordinator, "g", &member_id),
        MIN_SESSION_TIMEOUT,
        "a 1ms request must not be honored as-is — it would evict the member on ordinary jitter"
    );
}

#[test]
fn join_group_clamps_a_too_high_requested_session_timeout() {
    let mut coordinator = GroupCoordinator::with_rebalance_delay(0);
    let member_id = join(&mut coordinator, "m1", None, Some(3_600_000));
    assert_eq!(
        member_session_timeout(&coordinator, "g", &member_id),
        MAX_SESSION_TIMEOUT,
        "an hour-long request must not be honored as-is"
    );
}

#[test]
fn join_group_without_the_tag_keeps_the_default_session_timeout() {
    let mut coordinator = GroupCoordinator::with_rebalance_delay(0);
    let member_id = join(&mut coordinator, "m1", None, None);
    assert_eq!(
        member_session_timeout(&coordinator, "g", &member_id),
        DEFAULT_SESSION_TIMEOUT,
        "a caller sending no tag must see the default"
    );
}

#[test]
fn rejoin_static_refreshes_the_session_timeout_too() {
    let mut coordinator = GroupCoordinator::with_rebalance_delay(0);
    join(&mut coordinator, "", Some("instance-a"), Some(1_000));
    let member_id = join(&mut coordinator, "", Some("instance-a"), Some(9_000));
    assert_eq!(
        member_session_timeout(&coordinator, "g", &member_id),
        9_000 * MS,
        "a static member's rejoin must pick up its newly requested timeout"
    );
}

fn backdate(
    c: &mut GroupCoordinator,
    group_id: &str,
    member_id: &str,
    heartbeat_age: u64,
    progress_age: u64,
) {
    let g = c.groups.find(group_id).unwrap();
    let group = c.groups.value_mut(g);
    let m = group.members.find(member_id).unwrap();
    let member = group.members.value_mut(m);
    member.last_heartbeat = NOW - heartbeat_age;
    member.last_progress = NOW - progress_age;
}

#[test]
fn a_dead_member_is_evicted_for_session_timeout_not_stalled_consumption() {
    let mut coordinator = GroupCoordinator::with_config(0, 600 * SEC);
    let member_id = join(&mut coordinator, "dead", None, Some(1_000));
    backdate(&mut coordinator, "g", &member_id, 5 * SEC, 5 * SEC);

    assert!(coordinator.describe_group("g", NOW).unwrap().members.is_empty());

    let evictions = coordinator.recent_evictions("g");
    assert_eq!(evictions.len(), 1);
    assert_eq!(evictions[0].member_id, member_id);
    assert_eq!(evictions[0].reason, EvictionReason::SessionTimeout);
}

#[test]
fn a_heartbeating_member_that_stops_fetching_is_evicted_for_stalled_consumption() {
    let mut coordinator = GroupCoordinator::with_config(0, 500 * MS);
    let member_id = join(&mut coordinator, "stalled", None, Some(60_000));
    backdate(&mut coordinator, "g", &member_id, 10 * MS, 2 * SEC);

    assert!(coordinator.describe_group("g", NOW).unwrap().members.is_empty());

    let evictions = coordinator.recent_evictions("g");
    assert_eq!(evictions.len(), 1);
    assert_eq!(evictions[0].member_id, member_id);
    assert_eq!(evictions[0].reason, EvictionReason::StalledConsumption);
}

#[test]
fn record_progress_prevents_a_heartbeating_members_stalled_eviction() {
    let mut coordinator = GroupCoordinator::with_config(0, 500 * MS);
    let member_id = join(&mut coordinator, "active", None, Some(60_000));
    backdate(&mut coordinator, "g", &member_id, 10 * MS, 2 * SEC);

    coordinator.record_progress("g", &member_id, NOW);

    assert!(
        !coordinator.describe_group("g", NOW).unwrap().members.is_empty(),
        "a member whose progress was just refreshed must not be evicted for stalling"
    );
    assert!(coordinator.recent_evictions("g").is_empty());
}

#[test]
fn both_eviction_causes_are_recorded_distinctly_in_the_same_group() {
    let mut coordinator = GroupCoordinator::with_config(0, 500 * MS);
    let dead = join(&mut coordinator, "dead", None, Some(200));
    let stalled = join(&mut coordinator, "stalled", None, Some(60_000));
    let healthy = join(&mut coordinator, "healthy", None, Some(60_000));

    backdate(&mut coordinator, "g", &dead, 5 * SEC, 5 * SEC);
    backdate(&mut coordinator, "g", &stalled, 10 * MS, 2 * SEC);
    backdate(&mut coordinator, "g", &healthy, 10 * MS, 10 * MS);

    let described = coordinator.describe_group("g", NOW).unwrap();
    let remaining: Vec<String> = described
        .members
        .iter()
        .map(|m| m.member_id.clone())
        .collect();
    assert_eq!(
        remaining,
        vec![healthy],
        "only the actively healthy member should remain"
    );

    let evictions = coordinator.recent_evictions("g");
    assert_eq!(evictions.len(), 2);
    let dead_record = evictions.iter().find(|e| e.member_id == dead).unwrap();
    let stalled_record = evictions.iter().find(|e| e.member_id == stalled).unwrap();
    assert_eq!(dead_record.reason, EvictionReason::SessionTimeout);
    assert_eq!(stalled_record.reason, EvictionReason::StalledConsumption);
    assert_ne!(
        dead_record.reason, stalled_record.reason,
        "the two eviction causes must be distinguishable from one another"
    );
}

#[test]
fn joins_within_one_window_share_a_generation() {
    let mut c = GroupCoordinator::new();
    let (_, g1, lead1, p1) = c
        .join_group("g", "a", None, vec!["range".to_string()], None, NOW, 1)
        .unwrap();
    let (_, g2, lead2, _) = c
        .join_group("g", "b", None, vec!["range".to_string()], None, NOW + SEC, 2)
        .unwrap();
    assert_eq!(g1, g2);
    assert!(lead1);
    assert!(!lead2);
    assert_eq!(p1, "range");
    assert!(c.join_window_remaining("g", NOW + SEC).is_some());
}

#[test]
fn a_waiting_member_sleeps_in_short_steps_and_not_forever() {
    let mut c = GroupCoordinator::new();
    let joined = c
        .join_group("g", "a", None, vec!["range".to_string()], None, NOW, 1)
        .unwrap();
    assert_eq!(c.join_wait("g", NOW, NOW), Some(25 * MS));
    assert_eq!(c.join_wait("g", NOW, NOW + 3 * SEC - 5), Some(5));
    assert_eq!(c.join_wait("g", NOW, NOW + 3 * SEC), None);
    assert_eq!(c.join_wait("nobody", NOW, NOW), None);
    let answer = c.answer_joined("g", joined.clone());
    assert_eq!(answer.0, joined.0);
    assert_eq!(answer.1, joined.1);
    assert_eq!(c.answer_joined("gone", joined.clone()), joined);
}

#[test]
fn sync_heartbeat_and_leave_check_the_member_and_the_generation() {
    let mut c = GroupCoordinator::with_rebalance_delay(0);
    let (m, generation, ..) = c
        .join_group("g", "a", None, vec!["range".to_string()], None, NOW, 1)
        .unwrap();
    let plan = vec![MemberAssignment {
        member_id: m.clone(),
        topic: "t".to_string(),
        partitions: vec![0, 1],
    }];
    let mine = c.sync_group("g", generation, &m, plan, NOW).unwrap();
    assert_eq!(mine.get("t").unwrap(), &vec![0, 1]);
    assert!(c.heartbeat("g", generation, &m, NOW).is_ok());
    assert!(c.heartbeat("g", generation + 7, &m, NOW).is_err());
    assert!(c.heartbeat("g", generation, "stranger", NOW).is_err());
    assert!(c.heartbeat("other", generation, &m, NOW).is_err());
    assert_eq!(c.list_groups(NOW), vec!["g".to_string()]);
    assert!(c.leave_group("g", &m, None).is_ok());
    assert!(c.leave_group("other", &m, None).is_err());
}

#[test]
fn the_default_coordinator_has_the_default_windows() {
    let c = GroupCoordinator::default();
    assert_eq!(c.initial_rebalance_delay(), 3 * SEC);
    assert!(c.recent_evictions("g").is_empty());
}

#[test]
fn groups_are_listed_once_and_stay_when_everyone_has_left() {
    let mut c = GroupCoordinator::with_rebalance_delay(0);
    for (group, member) in [("a", "m"), ("b", "m"), ("a", "n")] {
        c.join_group(group, member, None, vec![], None, NOW, 1).unwrap();
    }
    c.leave_group("b", "m", None).unwrap();
    assert!(c.leave_group("c", "m", None).is_err());
    assert!(c.heartbeat("d", 1, "m", NOW).is_err());
    assert!(c.sync_group("e", 1, "m", vec![], NOW).is_err());
    assert!(c.describe_group("f", NOW).is_none());
    let mut names = c.list_groups(NOW + 1000 * SEC);
    names.sort();
    assert_eq!(names, vec!["a".to_string(), "b".to_string()]);
}

#[test]
fn the_last_twenty_removals_are_remembered() {
    let mut c = GroupCoordinator::with_config(0, 600 * SEC);
    for i in 0..23u64 {
        let name = format!("m{}", i);
        c.join_group("g", &name, None, vec![], Some(1_000), NOW + i * 10 * SEC, 1).unwrap();
    }
    c.heartbeat("g", 1, "nobody", NOW + 300 * SEC).unwrap_err();
    let evictions = c.recent_evictions("g");
    assert_eq!(evictions.len(), 20);
    assert_eq!(evictions[0].member_id, "m3");
    assert_eq!(evictions[19].member_id, "m22");
    assert!(c.recent_evictions("h").is_empty());
    assert_eq!(c.list_groups(NOW + 300 * SEC), vec!["g".to_string()]);
}

#[test]
fn a_group_is_led_by_a_member_and_its_instances_match() {
    let mut c = GroupCoordinator::with_rebalance_delay(0);
    let ask = |c: &mut GroupCoordinator, member: &str, instance: Option<&str>| {
        c.join_group("g", member, instance, vec![], None, NOW, 42).unwrap()
    };
    let first = ask(&mut c, "", Some("i"));
    assert_eq!((first.0.as_str(), first.2), ("i-1", true));
    let second = ask(&mut c, "", None);
    assert_eq!((second.0.as_str(), second.2), ("42", false));
    let back = ask(&mut c, "", Some("i"));
    assert_eq!((back.0.as_str(), back.2), ("i-2", true));
    let g = c.groups.get("g").unwrap();
    assert_eq!(g.leader.as_deref(), Some("i-2"));
    assert!(g.members.get("i-1").is_none());
    assert_eq!(g.members.get("i-2").unwrap().group_instance_id.as_deref(), Some("i"));
    assert_eq!(g.members.get("i-2").unwrap().member_id, "i-2");
    assert_eq!(g.static_members.get("i").map(|s| s.as_str()), Some("i-2"));
    c.leave_group("g", "", Some("i")).unwrap();
    let g = c.groups.get("g").unwrap();
    assert_eq!(g.leader.as_deref(), Some("42"));
    assert!(g.static_members.get("i").is_none());
    c.leave_group("g", "42", None).unwrap();
    assert!(c.groups.get("g").unwrap().leader.is_none());
}
