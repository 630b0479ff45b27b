use bifrox_server::assoc::AssocMap;
use bifrox_server::acl::AclBinding;
use bifrox_server::engine::admin::{
    is_directory_of, leftover_message, partition_of_directory, removal_backoff_ms,
};
use bifrox_server::engine::brokers::ProcessRole;
use bifrox_server::engine::commit::{catch_up_from, uncommitted_message, AckStatus};
use bifrox_server::engine::configs::{parse_optional_u64_config, validate_topic_configs};
use bifrox_server::engine::create::{Creation, UNDISCOVERED_PEERS_WARN_AFTER};
use bifrox_server::engine::credentials::{ScramCredential, ScramMechanism};
use bifrox_server::engine::ending::{EndAction, EndEvent, EndPhase};
use bifrox_server::engine::flow::{ProduceAction, ProduceEvent, ProducePhase};
use bifrox_server::engine::metadata::MetadataRecord;
use bifrox_server::engine::produce::{
    answers_now, clamp_to_watermark, waits_on, Appending, LogFrame, ProduceBatchParams,
};
use bifrox_server::engine::proposal::{ProposeAction, ProposeEvent, ProposePhase};
use bifrox_server::engine::snapshot::{
    read_metadata_snapshot, snapshot_metadata_if_needed, write_metadata_snapshot,
};
use bifrox_server::engine::state::{Access, EngineConfig, StorageEngine};
use bifrox_server::engine::sweep::SweepAction;
use bifrox_server::engine::txn::InitStep;
use bifrox_server::partition::{
    BatchHeader, CleanupPolicy, CompressionCodec, FlushPolicy, PartitionManager,
    VerbatimAppendResult,
};
use bifrox_server::producer::ProducerStateManager;
use bifrox_server::transaction::manager::TxStatus;

const SEC: u64 = 1_000_000_000;
const NOW: u64 = 1_000 * SEC;

fn config(node_id: u32, peers: &[&str]) -> EngineConfig {
    EngineConfig {
        cluster_id: "c1".to_string(),
        node_id,
        bind_addr: "127.0.0.1:0".to_string(),
        advertised_addr: None,
        peer_addrs: peers.iter().map(|p| p.to_string()).collect(),
        controller_peer_addrs: peers.iter().map(|p| p.to_string()).collect(),
        roles: vec![ProcessRole::Broker, ProcessRole::Controller],
        min_insync_replicas: 1,
        default_replication_factor: 3,
        cleanup_policy: CleanupPolicy::Delete,
        compression_codec: CompressionCodec::Uncompressed,
        flush_policy: FlushPolicy::AsyncPeriodic { interval_ms: 5, max_bytes: 100 },
        auto_create_topics_enable: true,
        auto_assign_partitions_enable: true,
        allow_unclean_leader_election: false,
        max_partitions_per_topic: 8,
        max_partitions_per_broker: 100,
        message_max_bytes: Some(1000),
        transaction_timeout_ms: 60_000,
        replica_lag_max_ms: 1000,
        broker_down_threshold_ms: 5000,
        super_users: vec!["User:root".to_string()],
        acls_enabled: false,
        sasl_required: false,
        sasl_mechanisms: vec!["PLAIN".to_string(), "scram-sha-256".to_string()],
        auth_token: None,
    }
}

fn engine(node_id: u32, peers: &[&str]) -> StorageEngine {
    StorageEngine::new(config(node_id, peers))
}

fn opened(topic: &str, partition: u32, node: u32, end: u64) -> PartitionManager {
    PartitionManager::open(
        topic.to_string(),
        partition,
        node,
        end,
        ProducerStateManager::open(&[]),
        CompressionCodec::Uncompressed,
        CleanupPolicy::Delete,
        FlushPolicy::AsyncPeriodic { interval_ms: 5, max_bytes: 100 },
    )
}

fn leadership(
    topic: &str,
    partition: u32,
    leader_id: u32,
    leader_epoch: u32,
    isr: Vec<u32>,
    replicas: Option<Vec<u32>>,
) -> MetadataRecord {
    MetadataRecord::PartitionLeadershipChange {
        topic: topic.to_string(),
        partition,
        leader_id,
        leader_epoch,
        isr,
        replicas,
    }
}

fn apply(e: &mut StorageEngine, offset: u64, rec: MetadataRecord) {
    let node = e.config.node_id;
    let part = e
        .partition_to_open(&rec)
        .map(|(t, p)| opened(&t, p, node, 0));
    e.apply_metadata_record(offset, rec, part);
}

fn created(topic: &str, num_partitions: u32) -> MetadataRecord {
    MetadataRecord::TopicCreated { topic: topic.to_string(), num_partitions, replication_factor: 2 }
}

fn broker(node_id: u32, addr: &str) -> MetadataRecord {
    MetadataRecord::BrokerRegister {
        node_id,
        bind_addr: addr.to_string(),
        roles: vec![ProcessRole::Broker],
    }
}

#[test]
fn undiscovered_peer_addrs_lists_only_peers_with_no_matching_broker_entry() {
    let mut e = engine(1, &["127.0.0.1:11111", "127.0.0.1:22222"]);
    e.brokers.register_broker_address(2, "127.0.0.1:11111".to_string());
    assert_eq!(e.undiscovered_peer_addrs(), vec!["127.0.0.1:22222".to_string()]);
}

#[test]
fn undiscovered_peer_addrs_is_empty_once_every_peer_is_known() {
    let mut e = engine(1, &["127.0.0.1:11111"]);
    e.brokers.register_broker_address(2, "127.0.0.1:11111".to_string());
    assert!(e.undiscovered_peer_addrs().is_empty());
}

#[test]
fn warn_escalation_is_gated_by_persistence_and_fires_once_per_bout() {
    let mut e = engine(1, &["127.0.0.1:33333"]);
    assert!(!e.note_peers_undiscovered_and_maybe_warn(NOW));
    assert!(!e.undiscovered_peers_warned);

    e.undiscovered_peers_since = Some(NOW - UNDISCOVERED_PEERS_WARN_AFTER - SEC);
    assert!(e.note_peers_undiscovered_and_maybe_warn(NOW));
    assert!(
        e.undiscovered_peers_warned,
        "must escalate once the condition has persisted past the threshold"
    );

    assert!(!e.note_peers_undiscovered_and_maybe_warn(NOW));
    assert!(e.undiscovered_peers_warned);

    e.note_peers_discovered();
    assert!(!e.undiscovered_peers_warned);
    assert!(e.undiscovered_peers_since.is_none());
}

#[test]
fn a_partition_is_opened_within_its_limits() {
    let mut e = engine(1, &[]);
    assert_eq!(e.get_or_create_partition("t", 0), Ok(Access::Open));
    e.take_partition(opened("t", 0, 1, 7));
    assert_eq!(e.get_or_create_partition("t", 0), Ok(Access::Ready));
    assert_eq!(
        e.get_or_create_partition("t", 8).unwrap_err(),
        "Partition 8 for topic 't' exceeds max.partitions.per.topic (8)"
    );
    assert_eq!(e.get_or_create_partition("__sys", 8), Ok(Access::Open));
    e.config.max_partitions_per_broker = 1;
    assert_eq!(
        e.get_or_create_partition("t", 1).unwrap_err(),
        "Cannot create t-1: broker is at max.partitions.per.broker (1)"
    );
    assert!(e.get_or_create_partition("a/b", 0).is_err());
    e.apply_topic_deletion("t");
    assert_eq!(
        e.get_or_create_partition("t", 0).unwrap_err(),
        "Topic t is currently being deleted"
    );
    e.finish_topic_deletion("t");
    assert_eq!(e.get_or_create_partition("t", 0), Ok(Access::Open));
}

#[test]
fn clients_create_topics_only_where_they_may() {
    let mut e = engine(1, &[]);
    e.config.auto_create_topics_enable = false;
    assert_eq!(
        e.get_or_create_partition_for_client("t", 0).unwrap_err(),
        "Unknown topic 't' (auto.create.topics.enable is false)"
    );
    assert_eq!(e.partition_for_read("t", 0), Ok(None));
    apply(&mut e, 0, created("t", 2));
    assert_eq!(e.get_or_create_partition_for_client("t", 0), Ok(Access::Open));
    assert_eq!(e.partition_for_read("t", 0), Ok(Some(Access::Open)));
}

#[test]
fn leadership_records_move_the_isr_and_keep_the_roster() {
    let mut e = engine(1, &[]);
    apply(&mut e, 0, created("t", 1));
    apply(&mut e, 1, leadership("t", 0, 1, 0, vec![1, 2, 3], Some(vec![1, 2, 3])));
    apply(&mut e, 2, leadership("t", 0, 1, 0, vec![1], None));
    let p = e.partitions.get("t", 0).unwrap();
    assert_eq!(p.replicas(), vec![1, 2, 3]);
    assert_eq!(p.isr(), vec![1]);
    apply(&mut e, 3, leadership("t", 0, 2, 1, vec![2, 9], None));
    let p = e.partitions.get("t", 0).unwrap();
    assert_eq!(p.replicas(), vec![1, 2, 3, 9]);
    assert_eq!((p.leader_id(), p.leader_epoch()), (2, 1));
    assert_eq!(e.role.metadata_log_index, 4);
    assert!(!e.is_partition_leader("t", 0));
    assert!(e.is_partition_replica("t", 0));
    assert_eq!(e.partition_leader_id("t", 0), Some(2));
}

#[test]
fn an_unknown_topic_is_led_by_the_controller() {
    let mut e = engine(1, &[]);
    assert!(!e.is_partition_leader("new", 0));
    assert!(e.is_partition_leader("__sys", 0));
    e.role.is_leader = true;
    assert!(e.is_partition_leader("new", 0));
    assert!(e.is_partition_replica("new", 0));
}

#[test]
fn topics_are_listed_in_order_and_described() {
    let mut e = engine(4, &[]);
    apply(&mut e, 0, created("b", 2));
    apply(&mut e, 1, created("a", 1));
    e.take_partition(opened("c", 0, 4, 5));
    e.take_partition(opened("__offsets", 0, 4, 5));
    assert_eq!(e.list_topics(), vec!["a", "b", "c"]);
    let c = e.describe_topic("c").unwrap();
    assert_eq!(c.len(), 1);
    assert_eq!((c[0].high_watermark, c[0].leader_id), (5, 4));
    let b = e.describe_topic("b").unwrap();
    assert_eq!(b.len(), 2);
    assert_eq!(b[1].replicas, vec![4]);
    assert!(e.describe_topic("zzz").is_none());
    apply(&mut e, 2, MetadataRecord::TopicDeleted { topic: "b".to_string() });
    assert!(e.describe_topic("b").is_none());
    assert_eq!(e.list_topics(), vec!["a", "c"]);
}

fn pair(a: &str, b: &str) -> (String, String) {
    (a.to_string(), b.to_string())
}

#[test]
fn topic_settings_are_checked_and_applied() {
    let ok = vec![pair("retention.ms", " 10 "), pair("x", "y"), pair("cleanup.policy", "compact")];
    assert!(validate_topic_configs(&ok, &[false; 3]).is_ok());
    let faults = [
        ("retention.bytes", "-1", "a non-negative integer"),
        ("min.insync.replicas", "0", "an integer >= 1"),
        ("min.insync.replicas", "x", "an integer >= 1"),
        ("min.cleanable.dirty.ratio", "2.5", "a number between 0.0 and 1.0"),
        ("cleanup.policy", "burn", "'delete', 'compact', or 'compact,delete'"),
        ("compression.type", "gzip", "'none', 'lz4', or 'zstd'"),
    ];
    for (k, v, want) in faults {
        assert_eq!(
            validate_topic_configs(&[pair(k, v)], &[false]).unwrap_err(),
            format!("Invalid value '{}' for '{}': expected {}", v, k, want)
        );
        assert!(validate_topic_configs(&[pair(k, "  ")], &[false]).is_ok());
    }
    assert!(validate_topic_configs(&[pair("min.cleanable.dirty.ratio", "0.5")], &[true]).is_ok());

    let mut e = engine(1, &[]);
    e.role.is_leader = true;
    assert_eq!(e.alter_configs("t", vec![], &[]).err().unwrap(), "Unknown topic 't'");
    apply(&mut e, 0, created("t", 1));
    e.take_partition(opened("t", 0, 1, 0));
    let rec = e
        .alter_configs(
            "t",
            vec![pair("retention.ms", "5"), pair("min.insync.replicas", "2"), pair("k", "v")],
            &[false; 3],
        )
        .unwrap();
    apply(&mut e, 1, rec);
    assert_eq!(e.effective_min_insync_replicas("t"), 2);
    assert_eq!(e.partitions.get("t", 0).unwrap().retention_millis, Some(5));
    let rec = e
        .incremental_alter_configs(
            "t",
            vec![pair("retention.ms", "typo?")],
            vec![],
            &[false],
        )
        .err()
        .unwrap();
    assert!(rec.contains("typo?"));
    let rec = e
        .incremental_alter_configs("t", vec![pair("k", "w")], vec!["retention.ms".to_string()], &[false])
        .unwrap();
    apply(&mut e, 2, rec);
    let mut all = e.describe_configs("t");
    all.sort();
    assert_eq!(all, vec![pair("k", "w"), pair("min.insync.replicas", "2")]);
    assert_eq!(e.partitions.get("t", 0).unwrap().retention_millis, Some(5));
    e.role.is_leader = false;
    assert_eq!(
        e.alter_configs("t", vec![], &[]).err().unwrap(),
        "NOT_CONTROLLER: this node is not the cluster leader"
    );
    e.set_topic_cleanup_policy("t", CleanupPolicy::Compact);
    assert_eq!(e.partitions.get("t", 0).unwrap().cleanup_policy(), CleanupPolicy::Compact);
}

#[test]
fn numeric_settings_are_set_cleared_or_left_alone() {
    assert_eq!(parse_optional_u64_config(" 42 "), Some(Some(42)));
    assert_eq!(parse_optional_u64_config("+7"), Some(Some(7)));
    assert_eq!(parse_optional_u64_config(" \t"), Some(None));
    assert_eq!(parse_optional_u64_config("4x"), None);
    assert_eq!(parse_optional_u64_config("18446744073709551616"), None);
}

#[test]
fn a_snapshot_gives_back_what_it_was_taken_of() {
    let mut e = engine(1, &[]);
    apply(&mut e, 0, broker(1, "h1:1"));
    apply(&mut e, 1, broker(2, "h2:2"));
    apply(&mut e, 2, created("t", 2));
    apply(&mut e, 3, leadership("t", 1, 2, 3, vec![2], Some(vec![2, 1])));
    apply(
        &mut e,
        4,
        MetadataRecord::TopicConfigChanged {
            topic: "t".to_string(),
            configs: vec![pair("a", "b")],
        },
    );
    apply(
        &mut e,
        5,
        MetadataRecord::ScramCredentialUpsert {
            credential: ScramCredential {
                username: "u".to_string(),
                mechanism: ScramMechanism::Sha512,
                iterations: 4096,
                salt: vec![1],
                stored_key: vec![2],
                server_key: vec![3],
            },
        },
    );
    apply(
        &mut e,
        6,
        MetadataRecord::TransactionalProducerRegistration {
            transactional_id: "x".to_string(),
            producer_id: 9,
            producer_epoch: 2,
        },
    );
    let records = e.build_metadata_snapshot_records();
    let mut f = engine(1, &[]);
    for r in records {
        apply(&mut f, 6, r);
    }
    assert_eq!(f.brokers.broker_endpoints(), e.brokers.broker_endpoints());
    assert_eq!(f.describe_configs("t"), vec![pair("a", "b")]);
    let t = f.topic_registry.get("t").unwrap();
    let a = t.assignment(1).unwrap();
    assert_eq!((a.leader_id, a.leader_epoch), (2, 3));
    assert_eq!(a.replicas, vec![2, 1]);
    assert!(f.scram_credentials.has_scram_user("u"));
    assert_eq!(f.scram_credentials.scram_user_mechanisms("u"), vec![ScramMechanism::Sha512]);
    assert!(f.transactions.has_transactional_producer("x"));
    apply(
        &mut f,
        7,
        MetadataRecord::ScramCredentialDelete { username: "u".to_string() },
    );
    assert!(!f.scram_credentials.has_scram_user("u"));
}

#[test]
fn snapshot_files_are_framed() {
    let frames = vec![vec![1, 2, 3], vec![], vec![9]];
    let bytes = write_metadata_snapshot(77, &frames);
    assert_eq!(bytes.len(), 12 + 3 * 4 + 4);
    assert_eq!(&bytes[..12], &[0, 0, 0, 0, 0, 0, 0, 77, 0, 0, 0, 3]);
    assert_eq!(read_metadata_snapshot(&bytes), Some((77, frames.clone())));
    let cut = &bytes[..bytes.len() - 1];
    assert_eq!(read_metadata_snapshot(cut), Some((77, frames[..2].to_vec())));
    assert_eq!(read_metadata_snapshot(&bytes[..11]), None);
    assert!(snapshot_metadata_if_needed(500, 0));
    assert!(!snapshot_metadata_if_needed(499, 0));
    assert!(!snapshot_metadata_if_needed(5, 600));
}

#[test]
fn a_sweep_shrinks_the_isr_and_moves_off_dead_leaders() {
    let mut e = engine(1, &["h2:2", "h3:3"]);
    e.role.is_leader = true;
    apply(&mut e, 0, broker(2, "h2:2"));
    apply(&mut e, 1, broker(3, "h3:3"));
    apply(&mut e, 2, created("t", 2));
    apply(&mut e, 3, leadership("t", 0, 1, 4, vec![1, 2, 3], Some(vec![1, 2, 3])));
    apply(&mut e, 4, leadership("t", 1, 2, 7, vec![3, 2], Some(vec![2, 3, 1])));
    let mut ages: AssocMap<u64> = AssocMap::new();
    ages.insert("h2:2".to_string(), 1000);
    ages.insert("h3:3".to_string(), 1001);
    match e.sweep_partition("t", 0, &ages, None) {
        SweepAction::UpdateIsr {
            record: MetadataRecord::PartitionLeadershipChange { isr, leader_epoch, replicas, .. },
        } => {
            assert_eq!(isr, vec![1, 2]);
            assert_eq!(leader_epoch, 4);
            assert!(replicas.is_none());
        }
        _ => panic!("the set of nodes in sync has changed"),
    }
    assert!(matches!(e.sweep_partition("t", 1, &ages, None), SweepAction::Nothing));
    assert!(matches!(e.sweep_partition("t", 1, &ages, Some(4999)), SweepAction::Nothing));
    match e.sweep_partition("t", 1, &ages, Some(5000)) {
        SweepAction::Promote {
            record: MetadataRecord::PartitionLeadershipChange { leader_id, leader_epoch, isr, .. },
            unclean,
        } => {
            assert_eq!((leader_id, leader_epoch, unclean), (3, 8, false));
            assert_eq!(isr, vec![3]);
        }
        _ => panic!("the leader is dead"),
    }
    apply(&mut e, 5, leadership("t", 1, 2, 7, vec![2], None));
    assert!(matches!(e.sweep_partition("t", 1, &ages, Some(9000)), SweepAction::Leaderless));
    e.config.allow_unclean_leader_election = true;
    match e.sweep_partition("t", 1, &ages, Some(9000)) {
        SweepAction::Promote {
            record: MetadataRecord::PartitionLeadershipChange { leader_id, isr, .. },
            unclean,
        } => {
            assert_eq!((leader_id, unclean), (1, true));
            assert_eq!(isr, vec![1]);
        }
        _ => panic!("somebody may take over"),
    }
    assert_eq!(e.partition_keys().len(), 2);
}

#[test]
fn topics_are_created_with_all_replicas_in_sync() {
    let mut e = engine(1, &[]);
    e.role.is_leader = true;
    e.brokers.register_broker_address(2, "h2".to_string());
    assert_eq!(e.available_broker_ids(), vec![1, 2]);
    let records = e.create_topic("t", 3).unwrap();
    assert_eq!(records.len(), 4);
    match &records[0] {
        MetadataRecord::TopicCreated { num_partitions, replication_factor, .. } => {
            assert_eq!((*num_partitions, *replication_factor), (3, 2));
        }
        _ => panic!("the topic comes first"),
    }
    match &records[1] {
        MetadataRecord::PartitionLeadershipChange { leader_id, isr, replicas, .. } => {
            assert_eq!(isr.len(), 2);
            assert_eq!(*leader_id, isr[0]);
            assert_eq!(replicas.as_ref(), Some(isr));
        }
        _ => panic!("then its partitions"),
    }
    assert_eq!(
        e.create_topic_with_replication_factor("t", 1, 3).err().unwrap(),
        "INVALID_REPLICATION_FACTOR: topic 't' requested replication factor 3 but only 2 broker(s) are available"
    );
    assert_eq!(
        e.create_topic_with_replication_factor("t", 1, 0).err().unwrap(),
        "replication factor must be at least 1"
    );
    assert!(e.create_topic_with_replication_factor("t", 1, 2).is_ok());
    assert!(e.create_topic("no/pe", 1).is_err());
    e.role.is_leader = false;
    assert_eq!(
        e.create_topic("t", 1).err().unwrap(),
        "NOT_CONTROLLER: this node is not the cluster leader"
    );
}

#[test]
fn writing_to_a_topic_creates_it_once_the_peers_are_known() {
    let mut e = engine(1, &["h2:2"]);
    assert!(e.ensure_topic_created("t", 1, NOW).is_err());
    e.role.is_leader = true;
    assert!(matches!(
        e.ensure_topic_created("t", 1, NOW),
        Ok(Creation::Deferred { warn: false })
    ));
    assert!(matches!(
        e.ensure_topic_created("t", 1, NOW + UNDISCOVERED_PEERS_WARN_AFTER),
        Ok(Creation::Deferred { warn: true })
    ));
    e.brokers.register_broker_address(2, "h2:2".to_string());
    match e.ensure_topic_created("t", 0, NOW) {
        Ok(Creation::Create { records }) => assert_eq!(records.len(), 2),
        _ => panic!("the peers are known"),
    }
    assert!(e.undiscovered_peers_since.is_none());
    apply(&mut e, 0, created("t", 1));
    assert!(matches!(e.ensure_topic_created("t", 1, NOW), Ok(Creation::Known)));
    e.config.auto_create_topics_enable = false;
    assert!(e.ensure_topic_created("other", 1, NOW).is_err());
}

#[test]
fn partitions_without_an_assignment_get_one_where_their_data_is() {
    let mut e = engine(1, &["h2:2"]);
    e.role.is_leader = true;
    e.take_partition(opened("t", 3, 1, 10));
    e.take_partition(opened("__sys", 0, 1, 10));
    let (none, _) = e.unassigned_partitions(NOW);
    assert!(none.is_empty());
    e.brokers.register_broker_address(2, "h2:2".to_string());
    let (keys, warn) = e.unassigned_partitions(NOW);
    assert_eq!(keys, vec![("t".to_string(), 3)]);
    assert!(!warn);
    let records = e.reconcile_unassigned_partition("t", 3);
    assert_eq!(records.len(), 2);
    match (&records[0], &records[1]) {
        (
            MetadataRecord::TopicCreated { num_partitions, replication_factor, .. },
            MetadataRecord::PartitionLeadershipChange { leader_id, isr, replicas, .. },
        ) => {
            assert_eq!((*num_partitions, *replication_factor), (4, 2));
            assert_eq!(*leader_id, 1);
            assert_eq!(isr, &vec![1]);
            assert_eq!(replicas.as_ref().unwrap()[0], 1);
        }
        _ => panic!("the topic, and then its partition"),
    }
    for r in records {
        apply(&mut e, 1, r);
    }
    assert!(e.unassigned_partitions(NOW).0.is_empty());
    assert!(e.topic_registry.has_partition_assignment("t", 3));
}

#[test]
fn a_write_waits_for_every_node_in_sync() {
    let mut e = engine(1, &["h2:2", "h3:3"]);
    e.config.min_insync_replicas = 2;
    e.brokers.register_broker_address(2, "h2:2".to_string());
    e.brokers.register_broker_address(3, "h3:3".to_string());
    let mut acked: AssocMap<u64> = AssocMap::new();
    acked.insert("h2:2".to_string(), 10);
    acked.insert("h3:3".to_string(), 9);
    let isr = vec![1, 2, 3];
    assert!(matches!(
        e.await_full_isr_ack("t", 0, &isr, &acked, 10, false, "5s"),
        AckStatus::Wait
    ));
    match e.await_full_isr_ack("t", 0, &isr, &acked, 10, true, "5s") {
        AckStatus::Refused { reason } => assert_eq!(
            reason,
            "ISR replicas [3] did not acknowledge t-0 at offset 10 within 5s"
        ),
        _ => panic!("the time is up"),
    }
    assert!(matches!(
        e.await_full_isr_ack("t", 0, &isr, &acked, 9, false, "5s"),
        AckStatus::Done
    ));
    match e.await_full_isr_ack("t", 0, &vec![1], &acked, 1, false, "5s") {
        AckStatus::Refused { reason } => assert_eq!(
            reason,
            "NOT_ENOUGH_REPLICAS: t-0 ISR has 1 replica(s), min.insync.replicas is 2"
        ),
        _ => panic!("too few are in sync"),
    }
    match e.await_full_isr_ack("t", 0, &vec![], &acked, 11, true, "5s") {
        AckStatus::Refused { reason } => assert_eq!(
            reason,
            "Only 1 of the required 2 replicas acknowledged t-0 at offset 11"
        ),
        _ => panic!("the time is up"),
    }
    assert_eq!(e.await_metadata_commit(&acked, 10, false), Some(true));
    assert_eq!(e.await_metadata_commit(&acked, 11, false), None);
    assert_eq!(e.await_metadata_commit(&acked, 11, true), Some(false));
    assert_eq!(engine(1, &[]).await_metadata_commit(&acked, 99, false), Some(true));
    assert_eq!(catch_up_from(None, 5), Some(0));
    assert_eq!(catch_up_from(Some(2), 5), Some(3));
    assert_eq!(catch_up_from(Some(4), 5), None);
    assert_eq!(catch_up_from(None, 0), None);
}

fn header(base: u64, count: u32, producer_id: u64, sequence: i32) -> BatchHeader {
    BatchHeader {
        base_offset: base,
        last_offset_delta: count - 1,
        record_count: count,
        producer_id,
        producer_epoch: 0,
        base_sequence: sequence,
        encoded_size: 60,
    }
}

#[test]
fn batches_are_routed_checked_and_appended() {
    let mut e = engine(1, &[]);
    let b = header(0, 3, 7, 0);
    let params = |key: &'static str, tx: Option<&'static str>, num_partitions: u32, batch: BatchHeader| {
        ProduceBatchParams { topic: "t", key, transaction_id: tx, num_partitions, batch }
    };
    let (p, access) = e.route_batch(&params("key", None, 4, b)).unwrap();
    assert_eq!(p, crc32fast::hash(b"key") % 4);
    assert_eq!(access, Access::Open);
    assert_eq!(e.route_batch(&params("", None, 4, b)).unwrap().0, 0);
    assert_eq!(
        e.route_batch(&params("", None, 9, b)).unwrap_err(),
        "Requested 9 partitions for topic 't' exceeds max.partitions.per.topic (8)"
    );
    let big = BatchHeader { encoded_size: 1001, ..b };
    assert_eq!(
        e.route_batch(&params("", None, 1, big)).unwrap_err(),
        "Batch of 1001 bytes exceeds message.max.bytes (1000)"
    );
    assert_eq!(
        e.route_batch(&params("", Some("tx"), 1, b)).unwrap_err(),
        "Transaction 'tx' is not active"
    );

    e.take_partition(opened("t", 0, 1, 0));
    assert!(matches!(e.produce_batch("t", 0, &b), Ok(Appending::Append)));
    assert!(!e.batch_appended("t", 0, &b));
    assert_eq!(e.partitions.get("t", 0).unwrap().latest_offset(), 3);
    assert_eq!(e.partitions.get("t", 0).unwrap().high_watermark(), 0);
    assert!(matches!(
        e.produce_batch("t", 0, &b),
        Ok(Appending::Duplicate { first_offset: 0, last_offset: 2 })
    ));
    assert_eq!(
        e.produce_batch("t", 0, &header(3, 1, 7, 9)).err().unwrap(),
        "Out of order sequence"
    );
    assert!(e.batch_appended("t", 0, &header(3, 1, 7, 3)), "120 bytes are waiting");
    assert!(e.commit_produced("t", 0, 3));
    assert!(!e.commit_produced("t", 0, 1));
    assert_eq!(e.partitions.get("t", 0).unwrap().high_watermark(), 4);
    assert!(!e.must_await_replicas("t", 0));
    e.marker_appended("t", 0, 4);
    assert_eq!(e.partitions.get("t", 0).unwrap().high_watermark(), 5);
    assert!(!e.replica_appended("t", 0, VerbatimAppendResult::AlreadyApplied, &header(2, 1, 0, 0)));
    assert_eq!(e.partitions.get("t", 0).unwrap().latest_offset(), 5);
    assert!(e.replica_appended("t", 0, VerbatimAppendResult::Appended, &header(5, 2, 0, 0)));
    assert_eq!(e.partitions.get("t", 0).unwrap().latest_offset(), 7);
}

fn simple(batch: BatchHeader, tx: Option<&'static str>) -> ProduceBatchParams<'static> {
    ProduceBatchParams { topic: "t", key: "", transaction_id: tx, num_partitions: 1, batch }
}

#[test]
fn a_batch_is_committed_before_it_is_answered() {
    let mut e = engine(1, &[]);
    let params = simple(header(0, 3, 7, 0), None);
    let (at, action) = e.produce_step(&params, ProducePhase::Arrived, ProduceEvent::Begin);
    assert!(matches!(action, ProduceAction::Open { partition: 0 }));
    e.take_partition(opened("t", 0, 1, 0));
    let (at, action) = e.produce_step(&params, at, ProduceEvent::Opened);
    assert!(matches!(action, ProduceAction::Append { partition: 0 }));
    let stored = ProduceEvent::Stored { batch: header(0, 3, 7, 0) };
    let (at, action) = e.produce_step(&params, at, stored);
    assert!(matches!(at, ProducePhase::Over));
    match action {
        ProduceAction::Answer { partition: 0, first: 0, last: 2, note: None } => {}
        _ => panic!("an answer was expected"),
    }
    assert_eq!(e.partitions.get("t", 0).unwrap().high_watermark(), 3);

    let (_, action) = e.produce_step(&params, ProducePhase::Arrived, ProduceEvent::Begin);
    assert!(matches!(action, ProduceAction::Answer { first: 0, last: 2, .. }));
    assert_eq!(e.partitions.get("t", 0).unwrap().latest_offset(), 3);
    let late = simple(header(3, 1, 7, 9), None);
    let (_, action) = e.produce_step(&late, ProducePhase::Arrived, ProduceEvent::Begin);
    match action {
        ProduceAction::Refuse { reason } => assert_eq!(reason, "Out of order sequence"),
        _ => panic!("a refusal was expected"),
    }
}

#[test]
fn a_batch_waits_for_the_nodes_in_sync() {
    let mut e = StorageEngine::new(EngineConfig {
        min_insync_replicas: 2,
        flush_policy: FlushPolicy::SyncEveryBatch,
        ..config(1, &["h2:1"])
    });
    let mut p = PartitionManager::open(
        "t".to_string(),
        0,
        1,
        0,
        ProducerStateManager::open(&[]),
        CompressionCodec::Uncompressed,
        CleanupPolicy::Compact,
        FlushPolicy::SyncEveryBatch,
    );
    p.update_leadership(1, 1, vec![1, 2], vec![1, 2]);
    e.take_partition(p);
    e.begin_transaction("tx", 7, 1).unwrap();
    let params = simple(header(0, 2, 7, 0), Some("tx"));
    let (at, action) = e.produce_step(&params, ProducePhase::Arrived, ProduceEvent::Begin);
    assert!(matches!(action, ProduceAction::ReadKeys { partition: 0 }));
    let keys = ProduceEvent::KeysRead { has_key: vec![true, true] };
    let (at, action) = e.produce_step(&params, at, keys);
    assert!(matches!(action, ProduceAction::Append { partition: 0 }));
    let stored = ProduceEvent::Stored { batch: header(0, 2, 7, 0) };
    let (at, action) = e.produce_step(&params, at, stored);
    assert!(matches!(action, ProduceAction::Sync { partition: 0 }));
    let (at, action) = e.produce_step(&params, at, ProduceEvent::Synced);
    assert!(matches!(action, ProduceAction::Await { last: 1, note: Some(Some(_)), .. }));
    assert_eq!(e.partitions.get("t", 0).unwrap().high_watermark(), 0);
    let (_, action) = e.produce_step(&params, at, ProduceEvent::Replicated);
    assert!(matches!(action, ProduceAction::Answer { first: 0, last: 1, .. }));
    assert_eq!(e.partitions.get("t", 0).unwrap().high_watermark(), 2);
}

#[test]
fn a_refused_batch_leaves_no_trace() {
    let mut e = engine(1, &[]);
    let mut p = opened("t", 0, 1, 0);
    p.set_cleanup_policy(CleanupPolicy::Compact);
    e.take_partition(p);
    let params = simple(header(0, 2, 0, 0), None);
    let reason = |action: ProduceAction| match action {
        ProduceAction::Refuse { reason } => reason,
        _ => panic!("a refusal was expected"),
    };
    let at = ProducePhase::Keys { partition: 0 };
    let keys = ProduceEvent::KeysRead { has_key: vec![true, false] };
    assert_eq!(
        reason(e.produce_step(&params, at, keys).1),
        "Compacted topic 't' cannot accept a record without a key (record 1 of 2 in this batch)"
    );
    let at = ProducePhase::Keys { partition: 0 };
    let bad = ProduceEvent::Malformed { reason: "short".to_string() };
    assert_eq!(reason(e.produce_step(&params, at, bad).1), "Malformed record batch: short");
    let at = ProducePhase::Storing { partition: 0 };
    let full = ProduceEvent::Failed { reason: "disk full".to_string() };
    assert_eq!(reason(e.produce_step(&params, at, full).1), "disk full");
    assert_eq!(e.partitions.get("t", 0).unwrap().latest_offset(), 0);
}

#[test]
fn an_empty_batch_is_taken() {
    let mut e = engine(1, &[]);
    e.take_partition(opened("t", 0, 1, 5));
    let empty = BatchHeader { record_count: 0, ..header(5, 1, 7, 0) };
    assert!(matches!(e.produce_batch("t", 0, &empty), Ok(Appending::Append)));
    e.batch_appended("t", 0, &header(5, 1, 7, 0));
    assert!(matches!(
        e.produce_batch("t", 0, &empty),
        Ok(Appending::Duplicate { first_offset: 5, last_offset: 5 })
    ));
}

#[test]
fn a_batch_goes_only_into_an_ongoing_transaction() {
    let mut e = engine(1, &[]);
    e.begin_transaction("tx", 7, 0).unwrap();
    assert!(e.route_batch(&simple(header(0, 1, 7, 0), Some("tx"))).is_ok());
    e.begin_commit("tx").unwrap();
    assert_eq!(
        e.route_batch(&simple(header(0, 1, 7, 0), Some("tx"))).unwrap_err(),
        "Transaction 'tx' is not active"
    );
    assert!(matches!(e.init_producer_id("tx"), Ok(InitStep::AbortFirst)));
}

fn refusal(action: EndAction) -> String {
    match action {
        EndAction::Refuse { reason } => reason,
        _ => panic!("a refusal was expected"),
    }
}

#[test]
fn a_commit_is_synced_before_it_is_forgotten() {
    let mut e = engine(1, &[]);
    e.take_partition(opened("t", 0, 1, 10));
    e.begin_transaction("tx", 7, 0).unwrap();
    e.register_tx_partition("tx", "t", 0, 4);
    let (at, action) = e.end_step("tx", true, EndPhase::Asked, EndEvent::Begin);
    assert!(matches!(action, EndAction::Note { record: Some(_) }));
    let (at, action) = e.end_step("tx", true, at, EndEvent::Noted);
    match action {
        EndAction::Mark { topic, partition: 0, kind: 1, producer_id: 7, first: 4 } => {
            assert_eq!(topic, "t")
        }
        _ => panic!("a marker was expected"),
    }
    let (at, action) = e.end_step("tx", true, at, EndEvent::Marked { offset: 10 });
    assert_eq!(e.read_bound("t", 0), 11);
    let bytes = match action {
        EndAction::Record { bytes } => bytes,
        _ => panic!("a record was expected"),
    };
    let mut later = engine(1, &[]);
    later.replay_transaction_state(&[bytes], 0);
    assert_eq!(later.transactions.get_status("tx"), None);
    let (at, action) = e.end_step("tx", true, at, EndEvent::Recorded);
    assert!(matches!(action, EndAction::Sync));
    assert_eq!(e.transactions.get_status("tx"), Some(TxStatus::PrepareCommit));
    let (_, action) = e.end_step("tx", true, at, EndEvent::Synced);
    assert!(matches!(action, EndAction::Answer { note: None }));
    assert_eq!(e.transactions.get_status("tx"), None);
}

#[test]
fn an_end_that_fails_leaves_the_transaction() {
    let mut e = engine(1, &[]);
    e.begin_transaction("tx", 7, 0).unwrap();
    e.register_tx_partition("tx", "t", 3, 4);
    let no = || "no".to_string();
    let marking = |e: &mut StorageEngine, commit: bool| {
        let (at, _) = e.end_step("tx", commit, EndPhase::Asked, EndEvent::Begin);
        e.end_step("tx", commit, at, EndEvent::Noted).0
    };
    let at = marking(&mut e, false);
    let unopened = EndEvent::Unopened { reason: no() };
    assert_eq!(
        refusal(e.end_step("tx", false, at, unopened).1),
        "Failed to get/create partition t-3: no"
    );
    let at = marking(&mut e, false);
    assert_eq!(
        refusal(e.end_step("tx", false, at, EndEvent::Failed { reason: no() }).1),
        "Failed to write abort marker to t-3: no"
    );
    let failed = EndEvent::Failed { reason: no() };
    assert_eq!(
        refusal(e.end_step("tx", true, EndPhase::Recording, failed).1),
        "Failed to durably record commit of 'tx': no"
    );
    let unopened = EndEvent::Unopened { reason: no() };
    assert_eq!(
        refusal(e.end_step("tx", true, EndPhase::Recording, unopened).1),
        "Failed to open __transaction_state: no"
    );
    let failed = EndEvent::Failed { reason: no() };
    assert_eq!(
        refusal(e.end_step("tx", true, EndPhase::Syncing, failed).1),
        "Failed to flush commit of 'tx' to __transaction_state: no"
    );
    assert_eq!(e.transactions.get_status("tx"), Some(TxStatus::PrepareAbort));

    e.take_partition(opened("t", 3, 1, 9));
    let at = marking(&mut e, false);
    let (_, action) = e.end_step("tx", false, at, EndEvent::Marked { offset: 9 });
    assert!(matches!(action, EndAction::Answer { note: Some(Some(_)) }));
    assert_eq!(e.transactions.get_status("tx"), None);
    assert_eq!(
        refusal(e.end_step("tx", false, EndPhase::Asked, EndEvent::Begin).1),
        "Transaction 'tx' not found"
    );
}

fn polled(acked: &[(&str, u64)], timed_out: bool) -> ProposeEvent {
    let mut map = AssocMap::new();
    for (addr, offset) in acked {
        map.insert(addr.to_string(), *offset);
    }
    ProposeEvent::Polled { acked: map, timed_out, timeout: "5s".to_string() }
}

#[test]
fn metadata_takes_effect_once_a_majority_has_it() {
    let mut e = engine(1, &["h2:1", "h3:1"]);
    e.take_partition(opened("__cluster_metadata", 0, 1, 3));
    let (at, action) = e.propose_step(ProposePhase::Asked, ProposeEvent::Begin);
    assert!(matches!(action, ProposeAction::Append));
    let stored = ProposeEvent::Stored { batch: header(3, 1, 0, 0) };
    let (at, action) = e.propose_step(at, stored);
    assert!(matches!(action, ProposeAction::Sync));
    let (at, action) = e.propose_step(at, ProposeEvent::Synced);
    assert!(matches!(action, ProposeAction::Push { offset: 3, high_watermark: 3, .. }));
    let (at, action) = e.propose_step(at, polled(&[("h2:1", 2)], false));
    assert!(matches!(action, ProposeAction::Wait));
    assert_eq!(e.read_bound("__cluster_metadata", 0), 3);
    let (_, action) = e.propose_step(at, polled(&[("h2:1", 3)], false));
    assert!(matches!(action, ProposeAction::Apply { offset: 3, broadcast: Some((_, 4)) }));
    assert_eq!(e.read_bound("__cluster_metadata", 0), 4);

    let late = ProposePhase::Agreeing { offset: 9 };
    match e.propose_step(late, polled(&[], true)).1 {
        ProposeAction::Refuse { reason } => assert_eq!(
            reason,
            "NOT_ENOUGH_CONTROLLERS: metadata record at offset 9 was not acknowledged by a \
             majority of the controller quorum"
        ),
        _ => panic!("a refusal was expected"),
    }
    let failed = ProposeEvent::Failed { reason: "full".to_string() };
    assert!(matches!(
        e.propose_step(ProposePhase::Storing, failed).1,
        ProposeAction::Refuse { .. }
    ));
}

#[test]
fn metadata_of_a_lone_node_takes_effect_at_once() {
    let mut e = engine(1, &[]);
    e.take_partition(opened("__cluster_metadata", 0, 1, 0));
    let stored = ProposeEvent::Stored { batch: header(0, 1, 0, 0) };
    let (at, _) = e.propose_step(ProposePhase::Storing, stored);
    let (_, action) = e.propose_step(at, ProposeEvent::Synced);
    assert!(matches!(action, ProposeAction::Apply { offset: 0, broadcast: None }));
}

#[test]
fn metadata_may_have_to_be_on_every_node_in_sync() {
    let mut e = StorageEngine::new(EngineConfig {
        min_insync_replicas: 2,
        ..config(1, &["h2:1"])
    });
    let mut p = opened("__cluster_metadata", 0, 1, 0);
    p.update_leadership(1, 1, vec![1, 2], vec![1, 2]);
    e.take_partition(p);
    e.brokers.register_broker_address(2, "h2:1".to_string());
    let at = ProposePhase::Agreeing { offset: 0 };
    let (at, action) = e.propose_step(at, polled(&[("h2:1", 0)], false));
    assert!(matches!(action, ProposeAction::Wait));
    assert!(matches!(at, ProposePhase::Replicating { offset: 0 }));
    let (at, action) = e.propose_step(at, polled(&[], false));
    assert!(matches!(action, ProposeAction::Wait));
    let (_, action) = e.propose_step(at, polled(&[("h2:1", 0)], false));
    assert!(matches!(action, ProposeAction::Apply { offset: 0, broadcast: Some((_, 1)) }));
}

#[test]
fn a_compacted_topic_needs_keys() {
    let mut e = engine(1, &[]);
    e.take_partition(opened("t", 0, 1, 0));
    assert!(!e.needs_keys("t", 0));
    assert!(e.check_keys("t", 0, &[false]).is_ok());
    e.set_topic_cleanup_policy("t", CleanupPolicy::CompactDelete);
    assert!(e.needs_keys("t", 0));
    assert!(e.check_keys("t", 0, &[true, true]).is_ok());
    assert_eq!(
        e.check_keys("t", 0, &[true, false, false]).unwrap_err(),
        "Compacted topic 't' cannot accept a record without a key (record 1 of 3 in this batch)"
    );
}

fn frame(offset: u64, is_control: bool) -> LogFrame {
    LogFrame { offset, is_control, value: vec![offset as u8] }
}

#[test]
fn a_transaction_commits_in_steps() {
    let mut e = engine(1, &[]);
    assert!(matches!(
        e.init_producer_id(""),
        Ok(InitStep::Done { producer_id: 1, producer_epoch: 0 })
    ));
    let (pid, epoch) = match e.init_producer_id("tx") {
        Ok(InitStep::Register { producer_id, producer_epoch, .. }) => (producer_id, producer_epoch),
        _ => panic!("a new producer is registered"),
    };
    assert_eq!((pid, epoch), (2, 0));
    assert!(e.begin_transaction("tx", pid, 5).unwrap().is_some());
    assert_eq!(
        e.begin_transaction("tx", pid, 5).unwrap_err(),
        "Transaction ID 'tx' already exists"
    );
    assert!(matches!(e.init_producer_id("tx"), Ok(InitStep::AbortFirst)));
    assert!(e
        .add_partitions_to_txn("tx", pid, 1, &[("t".to_string(), vec![0])], 5)
        .unwrap_err()
        .contains("Producer fenced"));
    assert!(e.add_partitions_to_txn("tx", pid, 0, &[("t".to_string(), vec![0])], 5).is_ok());
    assert!(e.register_tx_partition("tx", "t", 0, 10).is_some());
    assert!(e.register_tx_partition("nobody", "t", 0, 10).is_none());
    let (lso, aborted) = e.read_committed_filter("t", 0, true, &[(3, 4), (1, 2), (3, 4)]);
    assert_eq!(lso, 10);
    assert_eq!(aborted, vec![(1, 2), (3, 4)]);
    assert!(e.partition_has_transactional_data("t", 0, true));
    e.take_partition(opened("t", 0, 1, 9));
    let seen = e.fetch_committed(
        "t",
        0,
        vec![frame(1, false), frame(5, true), frame(6, false), frame(9, false), frame(10, false)],
        &[(1, 2)],
    );
    assert_eq!(seen.iter().map(|f| f.offset).collect::<Vec<_>>(), vec![6]);

    assert!(e.end_transaction("tx", pid, 0).is_ok());
    assert!(e.end_transaction("tx", pid, 3).is_err());
    let (ending, prepared) = e.begin_commit("tx").unwrap();
    assert_eq!(ending.producer_id, pid);
    assert!(e.begin_commit("tx").is_err());
    let ends = vec![("t".to_string(), 0, 12)];
    let record = StorageEngine::commit_record("tx", &ending, &ends).unwrap();

    let mut restarted = engine(1, &[]);
    restarted.replay_transaction_state(&[prepared.clone().unwrap()], 99);
    assert_eq!(restarted.transactions.get_status("tx"), Some(TxStatus::PrepareCommit));
    let mut after = engine(1, &[]);
    after.replay_transaction_state(&[prepared.unwrap(), record], 99);
    assert_eq!(after.transactions.get_status("tx"), None);

    assert!(e.finish_commit("tx").is_ok());
    assert_eq!(e.finish_commit("tx").unwrap_err(), "Transaction 'tx' not found");
    assert_eq!(e.read_committed_filter("t", 0, true, &[]).0, u64::MAX);
    assert_eq!(e.read_committed_filter("t", 0, false, &[(1, 2)]), (u64::MAX, vec![]));
    assert!(!e.partition_has_transactional_data("t", 0, true));
}

#[test]
fn a_transaction_aborts_in_steps() {
    let mut e = engine(1, &[]);
    e.begin_transaction("tx", 4, 0).unwrap();
    e.register_tx_partition("tx", "t", 1, 3);
    let (ending, _) = e.begin_abort("tx").unwrap();
    assert_eq!(ending.partitions.len(), 1);
    assert!(e.begin_abort("tx").is_ok(), "an abort can be taken up again");
    assert!(e.finish_abort("tx", 4, &[("t".to_string(), 1, 8)]).unwrap().is_some());
    assert!(e.begin_abort("tx").is_err());
}

#[test]
fn readers_stop_at_the_watermark() {
    let kept = clamp_to_watermark(vec![frame(1, false), frame(2, false), frame(3, true)], 3);
    assert_eq!(kept.iter().map(|f| f.offset).collect::<Vec<_>>(), vec![1, 2]);

    let mut e = engine(1, &[]);
    assert_eq!(e.read_bound("t", 0), 0);
    assert!(e.fetch("t", 0, vec![frame(0, false)]).is_empty());
    e.take_partition(opened("t", 0, 1, 2));
    e.batch_appended("t", 0, &header(2, 1, 0, 0));
    assert_eq!(e.read_bound("t", 0), 2);
    let seen = e.fetch("t", 0, vec![frame(1, false), frame(2, false)]);
    assert_eq!(seen.iter().map(|f| f.offset).collect::<Vec<_>>(), vec![1]);
    assert!(e.fetch_committed("t", 0, vec![frame(2, false)], &[]).is_empty());
}

#[test]
fn directories_belong_to_one_topic() {
    assert_eq!(partition_of_directory("orders-2"), Some(("orders".to_string(), 2)));
    assert_eq!(partition_of_directory("orders-eu-0"), Some(("orders-eu".to_string(), 0)));
    assert_eq!(partition_of_directory("orders"), None);
    assert_eq!(partition_of_directory("orders-x"), None);
    assert!(is_directory_of("orders-2", "orders"));
    assert!(!is_directory_of("orders-eu-0", "orders"));
    assert!(is_directory_of("orders-eu-0", "orders-eu"));
}

#[test]
fn a_node_settles_its_address() {
    let mut e = engine(1, &[]);
    assert!(e.finalize_advertised_addr("0.0.0.0:9092").err().unwrap().starts_with(
        "refusing to advertise '0.0.0.0:9092' as this node's identity: its IP is unspecified"
    ));
    assert_eq!(e.role.advertised_addr, "127.0.0.1:0");
    assert!(e.finalize_advertised_addr("10.0.0.1:9092").unwrap().is_none());
    assert_eq!(e.role.advertised_addr, "10.0.0.1:9092");
    assert_eq!(e.brokers.get_broker_address(1), Some("10.0.0.1:9092".to_string()));
    e.role.is_leader = true;
    e.config.advertised_addr = Some("10.0.0.2:1".to_string());
    match e.finalize_advertised_addr("0.0.0.0:9092").unwrap() {
        Some(MetadataRecord::BrokerRegister { bind_addr, node_id, .. }) => {
            assert_eq!((bind_addr.as_str(), node_id), ("10.0.0.2:1", 1));
        }
        _ => panic!("a leader tells the others"),
    }
}

#[test]
fn binding_mechanisms_are_offered_with_a_certificate() {
    let e = engine(1, &[]);
    assert_eq!(e.advertised_sasl_mechanisms(false), vec!["PLAIN", "scram-sha-256"]);
    assert_eq!(
        e.advertised_sasl_mechanisms(true),
        vec!["PLAIN", "scram-sha-256", "SCRAM-SHA-256-PLUS"]
    );
}

#[test]
fn controllers_get_no_partitions() {
    let mut e = engine(1, &[]);
    e.brokers.register_broker_address(3, "h3".to_string());
    e.brokers.register_broker_address(2, "h2".to_string());
    e.brokers.register_broker_roles(2, vec![ProcessRole::Controller]);
    e.brokers.register_broker_roles(4, vec![]);
    assert_eq!(e.available_broker_ids(), vec![1, 3]);
    assert!(e.brokers.is_broker_eligible(4));
    assert!(!e.brokers.is_broker_eligible(2));
    e.brokers.unregister_broker_address(3);
    assert_eq!(e.available_broker_ids(), vec![1]);
    e.config.roles = vec![ProcessRole::Controller];
    e.brokers.unregister_broker_address(1);
    assert!(e.available_broker_ids().is_empty());
    assert_eq!(e.brokers.len(), 2);
}

#[test]
fn a_fetch_waits_for_enough_or_for_its_time() {
    assert!(answers_now(0, 0, 10));
    assert!(answers_now(5, 10, 10));
    assert!(!answers_now(5, 9, 10));
    assert!(waits_on(9, 10, true));
    assert!(!waits_on(9, 10, false));
    assert!(!waits_on(10, 10, true));
    let mut e = engine(1, &[]);
    assert_eq!(e.latest_offset("t", 0), Ok(Some(0)));
    apply(&mut e, 0, created("t", 1));
    assert_eq!(e.latest_offset("t", 0), Ok(None));
    e.take_partition(opened("t", 0, 1, 7));
    assert_eq!(e.latest_offset("t", 0), Ok(Some(7)));
    assert!(e.latest_offset("t", 99).is_err());
    assert!(e.get_partition("t", 0).is_some());
    assert!(e.topic_is_registered("t"));
    assert!(!e.has_partition_assignment("t", 0));
}

fn credential(name: &str) -> ScramCredential {
    ScramCredential {
        username: name.to_string(),
        mechanism: ScramMechanism::Sha256,
        iterations: 1,
        salt: vec![],
        stored_key: vec![],
        server_key: vec![],
    }
}

#[test]
fn only_the_leader_changes_the_metadata() {
    let mut e = engine(1, &[]);
    let refused = "NOT_CONTROLLER: this node is not the cluster leader";
    assert_eq!(e.propose_metadata().unwrap_err(), refused);
    assert_eq!(e.register_broker(2, "h".to_string()).err().unwrap(), refused);
    assert_eq!(e.unregister_broker(2).err().unwrap(), refused);
    assert_eq!(e.delete_topic("t").err().unwrap(), refused);
    assert_eq!(e.upsert_scram_credential(credential("u")).err().unwrap(), refused);
    assert_eq!(
        e.propose_partition_failover().unwrap_err(),
        "NOT_CONTROLLER: only the cluster leader may fail a partition over"
    );
    assert_eq!(
        e.propose_isr_update("t", 0).unwrap_err(),
        "NOT_PARTITION_LEADER: only the current partition leader may update its ISR"
    );
    assert_eq!(
        uncommitted_message(7),
        "NOT_ENOUGH_CONTROLLERS: metadata record at offset 7 was not acknowledged by a majority of the controller quorum"
    );
    e.role.is_leader = true;
    assert!(e.is_leader());
    assert!(e.propose_metadata().is_ok());
    assert!(e.propose_isr_update("t", 0).is_ok());
    let rule = AclBinding {
        resource_type: 2,
        resource_name: "t".to_string(),
        pattern_type: 3,
        principal: "p".to_string(),
        host: "*".to_string(),
        operation: 3,
        permission_type: 3,
    };
    let (record, is_new) = e.create_acl(rule.copy());
    assert!(is_new);
    apply(&mut e, 0, record.unwrap());
    assert!(!e.create_acl(rule.copy()).1);
    let (record, existed) = e.delete_acl(rule.copy());
    assert!(existed);
    apply(&mut e, 1, record.unwrap());
    assert!(!e.delete_acl(rule).1);
    let record = e.upsert_scram_credential(credential("u")).unwrap();
    apply(&mut e, 2, record);
    assert_eq!(
        e.users_to_bootstrap(&[pair("u", "1"), pair("v", "2"), pair("w", "3")]),
        vec![1, 2]
    );
    let (record, existed) = e.delete_scram_user("u");
    assert!(existed);
    apply(&mut e, 3, record.unwrap());
    assert!(!e.delete_scram_user("u").1);
    e.set_leader_addr("h9".to_string());
    assert_eq!(e.leader_addr(), Some("h9".to_string()));
}

#[test]
fn leftovers_of_a_topic_are_named() {
    assert_eq!(
        leftover_message("t", &["/d/t-0".to_string()]),
        "Topic 't' metadata was deleted, but 1 partition directory could not be removed from disk (still in use?): /d/t-0"
    );
    assert_eq!(
        leftover_message("t", &["/a".to_string(), "/b".to_string()]),
        "Topic 't' metadata was deleted, but 2 partition directories could not be removed from disk (still in use?): /a, /b"
    );
    assert_eq!(removal_backoff_ms(0), Some(50));
    assert_eq!(removal_backoff_ms(3), Some(200));
    assert_eq!(removal_backoff_ms(4), None);
}

#[test]
fn a_credential_is_looked_up_by_mechanism_or_by_strength() {
    let mut e = engine(1, &[]);
    let store = &mut e.scram_credentials;
    store.apply_scram_credential_state(credential("u"));
    assert!(store.lookup_scram_credential("u", Some(ScramMechanism::Sha512)).is_none());
    assert!(store.lookup_scram_credential("u", None).is_some());
    store.apply_scram_credential_state(ScramCredential {
        mechanism: ScramMechanism::Sha512,
        ..credential("u")
    });
    assert_eq!(
        store.lookup_scram_credential("u", None).unwrap().mechanism,
        ScramMechanism::Sha512
    );
    assert_eq!(
        store.scram_user_mechanisms("u"),
        vec![ScramMechanism::Sha512, ScramMechanism::Sha256]
    );
    store.remove_scram_credential_state("u");
    assert!(!store.has_scram_user("u"));
}
