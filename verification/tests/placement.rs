use bifrox_server::checksum::{hash_key, partition_for};
use bifrox_server::ip::{
    cidr_contains, is_allowed_metrics_peer, parse_ip, parse_socket_address,
    validate_advertised_addr, IpAddress,
};
use bifrox_server::placement::{striped_replicas, topic_placement_seed, validate_topic_name};
use std::collections::{HashMap, HashSet};

#[test]
fn striping_spreads_followers_across_brokers() {
    let brokers = vec![1, 2, 3, 4, 5];
    let seed = topic_placement_seed("orders");

    let mut followers_by_leader: HashMap<u32, HashSet<u32>> = HashMap::new();
    for p in 0..25u32 {
        let replicas = striped_replicas(&brokers, p, 3, seed, None);
        assert_eq!(replicas.len(), 3, "partition {} short of RF: {:?}", p, replicas);
        let mut seen = HashSet::new();
        for r in &replicas {
            assert!(seen.insert(*r), "duplicate replica in {:?}", replicas);
        }
        followers_by_leader
            .entry(replicas[0])
            .or_default()
            .extend(replicas[1..].iter().copied());
    }

    for (leader, followers) in &followers_by_leader {
        assert!(
            followers.len() > 1,
            "leader {} always uses the same followers {:?} — that is round-robin, not striping",
            leader,
            followers
        );
    }
}

#[test]
fn striping_spreads_leadership() {
    let brokers = vec![1, 2, 3, 4];
    let seed = topic_placement_seed("events");
    let mut leaders = HashSet::new();
    for p in 0..12u32 {
        leaders.insert(striped_replicas(&brokers, p, 2, seed, None)[0]);
    }
    assert_eq!(
        leaders.len(),
        brokers.len(),
        "every broker should lead some partition"
    );
}

#[test]
fn pinned_leader_is_preserved_and_followers_still_stripe() {
    let brokers = vec![1, 2, 3, 4];
    let seed = topic_placement_seed("retrofit");
    let mut follower_sets = HashSet::new();
    for p in 0..8u32 {
        let replicas = striped_replicas(&brokers, p, 3, seed, Some(2));
        assert_eq!(replicas[0], 2, "the pinned leader must lead");
        assert_eq!(replicas.len(), 3);
        follower_sets.insert(replicas[1..].to_vec());
    }
    assert!(
        follower_sets.len() > 1,
        "a pinned leader should still get varied followers, got {:?}",
        follower_sets
    );
}

#[test]
fn single_broker_and_oversized_factor_are_handled() {
    assert_eq!(striped_replicas(&[7], 0, 3, 42, None), vec![7]);
    assert_eq!(striped_replicas(&[7], 5, 1, 0, Some(7)), vec![7]);
    assert!(striped_replicas(&[], 0, 3, 1, None).is_empty());
    let all = striped_replicas(&[1, 2, 3], 0, 9, 5, None);
    assert_eq!(all.len(), 3);
}

#[test]
fn placement_seed_varies_by_topic_but_is_stable() {
    assert_eq!(topic_placement_seed("a"), topic_placement_seed("a"));
    assert_ne!(topic_placement_seed("a"), topic_placement_seed("b"));

    let brokers = vec![1, 2, 3, 4, 5];
    let first_leaders: HashSet<u32> = ["alpha", "beta", "gamma", "delta"]
        .iter()
        .map(|t| striped_replicas(&brokers, 0, 2, topic_placement_seed(t), None)[0])
        .collect();
    assert!(
        first_leaders.len() > 1,
        "every topic started its partition 0 on the same broker"
    );
}

#[test]
fn a_placement_has_exactly_these_replicas() {
    assert_eq!(striped_replicas(&[10, 20, 30, 40], 0, 3, 0, None), vec![10, 20, 30]);
    assert_eq!(striped_replicas(&[10, 20, 30, 40], 4, 3, 0, None), vec![10, 30, 40]);
    assert_eq!(striped_replicas(&[10, 20, 30, 40], 1, 2, 2, None), vec![40, 10]);
    assert_eq!(striped_replicas(&[5, 5, 6], 0, 3, 0, None), vec![5, 6]);
    assert_eq!(striped_replicas(&[1, 2], 3, 2, 0, Some(9)).len(), 2);
}

#[test]
fn the_seed_is_fnv() {
    assert_eq!(topic_placement_seed(""), 0xcbf2_9ce4_8422_2325);
    assert_eq!(topic_placement_seed("a"), 0xaf63_dc4c_8601_ec8c);
    assert_eq!(topic_placement_seed("foobar"), 0x8594_4171_f739_67e8);
    assert_ne!(topic_placement_seed("b"), topic_placement_seed("a"));
}

#[test]
fn topic_names_are_checked() {
    assert!(validate_topic_name("orders.eu_1-x").is_ok());
    assert!(validate_topic_name("ünïcode").is_ok());
    for bad in ["", ".", "..", "a/b", "a\\b", "a..b"] {
        assert_eq!(
            validate_topic_name(bad).unwrap_err(),
            format!("Invalid topic name: '{}'", bad)
        );
    }
    assert!(validate_topic_name(&"x".repeat(249)).is_ok());
    assert!(validate_topic_name(&"x".repeat(250)).is_err());
    assert_eq!(
        validate_topic_name("a b").unwrap_err(),
        "Topic name contains illegal characters: 'a b'"
    );
}

#[test]
fn keys_choose_partitions_by_their_checksum() {
    assert_eq!(hash_key(b"k", 0), 0);
    assert_eq!(hash_key(b"123456789", 1000), 0xCBF4_3926u32 % 1000);
    assert_eq!(partition_for(17, 5), 2);
    assert_eq!(partition_for(17, 0), 0);
}

fn ip(s: &str) -> IpAddress {
    let chars: Vec<char> = s.chars().collect();
    parse_ip(&chars).unwrap()
}

#[test]
fn metrics_allowlist_supports_exact_ip_wildcard_and_cidr() {
    assert!(is_allowed_metrics_peer(&["*".to_string()], ip("10.1.2.3")));
    assert!(is_allowed_metrics_peer(&["127.0.0.1".to_string()], ip("127.0.0.1")));
    assert!(!is_allowed_metrics_peer(&["127.0.0.1".to_string()], ip("127.0.0.2")));
    assert!(is_allowed_metrics_peer(&["10.0.0.0/8".to_string()], ip("10.11.12.13")));
    assert!(!is_allowed_metrics_peer(&["10.0.0.0/8".to_string()], ip("11.0.0.1")));
    assert!(is_allowed_metrics_peer(&["2001:db8::/32".to_string()], ip("2001:db8:abcd::1")));
    assert!(!is_allowed_metrics_peer(&["2001:db8::/32".to_string()], ip("2001:dead::1")));
}

#[test]
fn an_empty_allowlist_lets_everyone_in_and_rules_are_trimmed() {
    assert!(is_allowed_metrics_peer(&[], ip("1.2.3.4")));
    assert!(is_allowed_metrics_peer(&[" 1.2.3.4\t".to_string()], ip("1.2.3.4")));
    assert!(!is_allowed_metrics_peer(&["nonsense".to_string()], ip("1.2.3.4")));
}

#[test]
fn ranges_of_addresses_end_where_their_prefix_says() {
    assert!(cidr_contains("0.0.0.0/0", ip("9.9.9.9")));
    assert!(cidr_contains("1.2.3.4/32", ip("1.2.3.4")));
    assert!(!cidr_contains("1.2.3.4/32", ip("1.2.3.5")));
    assert!(!cidr_contains("1.2.3.4/33", ip("1.2.3.4")));
    assert!(!cidr_contains("1.2.3.4", ip("1.2.3.4")));
    assert!(!cidr_contains("::/0", ip("1.2.3.4")));
}

fn socket(s: &str) -> Option<(IpAddress, u16)> {
    let chars: Vec<char> = s.chars().collect();
    parse_socket_address(&chars)
}

#[test]
fn socket_addresses_are_read() {
    assert_eq!(socket("127.0.0.1:80"), Some((IpAddress::V4(0x7f00_0001), 80)));
    assert_eq!(socket("1.2.3.4:065535"), Some((IpAddress::V4(0x0102_0304), 65535)));
    assert_eq!(socket("[::1]:9092"), Some((IpAddress::V6(1), 9092)));
    assert_eq!(socket("[::1%3]:1"), Some((IpAddress::V6(1), 1)));
    assert_eq!(
        socket("[::ffff:1.2.3.4]:7"),
        Some((IpAddress::V6(0xffff_0102_0304), 7))
    );
    for bad in [
        "1.2.3.4:65536", "1.2.3.4:", "host:80", "1.2.3.4", "::1:80", "[::1]", "[1.2.3.4]:80",
        ":80", "1.2.3.4:+8", "[::1%x]:80",
    ] {
        assert_eq!(socket(bad), None, "{}", bad);
    }
}

#[test]
fn an_advertised_address_can_be_dialled() {
    assert!(validate_advertised_addr("10.0.0.1:9092").is_ok());
    assert_eq!(
        validate_advertised_addr("localhost").unwrap_err(),
        "not a valid host:port address"
    );
    assert_eq!(
        validate_advertised_addr("0.0.0.0:9092").unwrap_err(),
        "its IP is unspecified (a wildcard bind address, not a dialable identity)"
    );
    assert_eq!(
        validate_advertised_addr("[::]:0").unwrap_err(),
        "its IP is unspecified (a wildcard bind address, not a dialable identity)"
    );
    assert_eq!(
        validate_advertised_addr("10.0.0.1:0").unwrap_err(),
        "its port is 0 (an unbound ephemeral placeholder, not a real port)"
    );
}
