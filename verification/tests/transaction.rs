use bifrox_server::partition::{
    BatchHeader, CleanupPolicy, CompressionCodec, FlushPolicy, PartitionManager,
    VerbatimAppendResult,
};
use bifrox_server::producer::ProducerStateManager;
use bifrox_server::transaction::manager::{TransactionManager, TxStatus};
use bifrox_server::transaction::record::{
    decode_tx_state_record, encode_tx_state_record, state_record,
};

#[test]
fn sequence_numbers_only_rise() {
    let mut m = TransactionManager::new();
    assert!(!m.is_duplicate(1, 0));
    m.record_sequence(1, 5);
    assert!(m.is_duplicate(1, 5));
    assert!(m.is_duplicate(1, 4));
    assert!(!m.is_duplicate(1, 6));
    assert!(!m.is_duplicate(2, 5));
}

#[test]
fn a_transactional_producer_is_fenced_by_its_epoch() {
    let mut m = TransactionManager::new();
    assert_eq!(m.init_transactional_producer("x"), Ok((1, 0)));
    assert_eq!(m.init_transactional_producer("x"), Ok((1, 1)));
    assert!(m.validate_transactional_producer("x", 1, 1).is_ok());
    assert_eq!(
        m.validate_transactional_producer("x", 1, 0).unwrap_err(),
        "Producer fenced for transactional.id 'x' (expected epoch 1, got 0)"
    );
    assert_eq!(
        m.validate_transactional_producer("x", 2, 1).unwrap_err(),
        "Producer ID mismatch for transactional.id 'x'"
    );
    assert_eq!(
        m.validate_transactional_producer("y", 1, 1).unwrap_err(),
        "TransactionalId 'y' is not initialized"
    );
    m.restore_transactional_producer("z", 40, i16::MAX);
    assert_eq!(
        m.init_transactional_producer("z").unwrap_err(),
        "Producer epoch exhausted for transactional.id 'z'"
    );
    assert_eq!(m.generate_producer_id(), 41);
    assert_eq!(m.all_transactional_producers().len(), 2);
}

#[test]
fn an_open_transaction_holds_the_stable_offset_back() {
    let mut m = TransactionManager::new();
    m.begin_transaction("x", 1, 10).unwrap();
    m.begin_transaction("y", 2, 10).unwrap();
    assert_eq!(m.last_stable_offset("t", 0), u64::MAX);
    m.register_partition("x", "t", 0, 7);
    m.register_partition("y", "t", 0, 4);
    m.register_partition("y", "t", 0, 2);
    assert_eq!(m.last_stable_offset("t", 0), 4);
    assert_eq!(m.last_stable_offset("t", 1), u64::MAX);
    let (pid, parts) = m.prepare_abort("y").unwrap();
    assert_eq!((pid, parts.len()), (2, 1));
    m.complete_abort("y", &[("t".to_string(), 0, 9)]).unwrap();
    assert_eq!(m.last_stable_offset("t", 0), 7);
    assert_eq!(m.aborted_ranges("t", 0), vec![(4, 9)]);
    m.prepare_commit("x").unwrap();
    assert_eq!(m.get_status("x"), Some(TxStatus::PrepareCommit));
    m.complete_commit("x").unwrap();
    assert_eq!(m.last_stable_offset("t", 0), u64::MAX);
    m.cleanup_completed_transaction("x");
    assert_eq!(m.get_status("x"), None);
    assert_eq!(m.get_producer_id("y"), 2);
}

#[test]
fn transactions_grow_old() {
    let mut m = TransactionManager::new();
    m.begin_transaction("x", 1, 100).unwrap();
    assert!(m.expired_ongoing_transaction_ids(50, 150).is_empty());
    assert_eq!(m.expired_ongoing_transaction_ids(50, 151), vec!["x".to_string()]);
    assert_eq!(m.prune_stale_transactions(50, 150), 0);
    assert_eq!(m.prune_stale_transactions(50, 151), 1);
    assert!(!m.is_ongoing("x"));
    m.restore_transaction("z", 3, TxStatus::PrepareAbort, vec![], 500);
    assert!(!m.is_ongoing("z"));
    assert!(m.is_undecided("z"));
}

#[test]
fn a_prepared_transaction_is_not_ongoing() {
    let mut m = TransactionManager::new();
    assert!(!m.is_ongoing("tx"));
    assert!(!m.is_undecided("tx"));
    m.begin_transaction("tx", 7, 0).unwrap();
    assert!(m.is_ongoing("tx"));
    m.prepare_commit("tx").unwrap();
    assert!(!m.is_ongoing("tx"));
    assert!(m.is_undecided("tx"));
    m.complete_commit("tx").unwrap();
    assert!(!m.is_undecided("tx"));
}

#[test]
fn states_of_transactions_are_written_and_read() {
    let parts = vec![("t".to_string(), 3, 10, 20), ("ü".to_string(), 0, u64::MAX, 1)];
    let bytes = encode_tx_state_record(TxStatus::Committed, 77, "tx-1", &parts);
    let (status, pid, id, back) = decode_tx_state_record(&bytes).unwrap();
    assert_eq!((status, pid, id.as_str()), (TxStatus::Committed, 77, "tx-1"));
    assert_eq!(back, parts);
    assert_eq!(state_record(TxStatus::Committed, 77, "tx-1", &parts), Some(bytes.clone()));
    assert!(state_record(TxStatus::Ongoing, 1, &"x".repeat(70_000), &parts).is_none());
    assert!(decode_tx_state_record(&bytes[..10]).is_none());
    let mut strange = encode_tx_state_record(TxStatus::Ongoing, 1, "ab", &vec![]);
    strange[11] = 0xff;
    assert_eq!(decode_tx_state_record(&strange).unwrap().2, "\u{fffd}b");
}

#[test]
fn producer_states_survive_in_a_snapshot() {
    let mut s = ProducerStateManager::open(&[]);
    assert_eq!(s.validate_sequence(9, 0, 0), Ok(()));
    s.update(9, 0, 4, 104);
    assert_eq!(s.validate_sequence(9, 0, 5), Ok(()));
    assert_eq!(s.validate_sequence(9, 0, 4), Err((true, 104)));
    assert_eq!(s.validate_sequence(9, 0, 7).unwrap_err().0, false);
    s.update(8, -1, -3, 2);
    let t = ProducerStateManager::open(&s.take_snapshot());
    assert_eq!(t.validate_sequence(9, 0, 4), Err((true, 104)));
    assert_eq!(t.states.len(), 2);
    assert_eq!(t.states.get(&8).unwrap().last_sequence, -3);
}

fn partition(policy: FlushPolicy) -> PartitionManager {
    PartitionManager::open(
        "t".to_string(),
        4,
        2,
        10,
        ProducerStateManager::open(&[]),
        CompressionCodec::Zstd,
        CleanupPolicy::Compact,
        policy,
    )
}

#[test]
fn a_partition_starts_committed_and_led_by_its_node() {
    let p = partition(FlushPolicy::UnbufferedSync);
    assert_eq!((p.topic(), p.partition()), ("t", 4));
    assert_eq!((p.latest_offset(), p.high_watermark()), (10, 10));
    assert!(p.is_leader(2));
    assert!(!p.is_leader(3));
    assert_eq!((p.replicas(), p.isr()), (vec![2], vec![2]));
    assert_eq!(p.leader_epoch(), 0);
    assert!(p.flush_if_sync_policy());
    assert_eq!(p.cleanup_policy(), CleanupPolicy::Compact);
}

#[test]
fn watermarks_follow_the_log_and_never_run_ahead_of_it() {
    let mut p = partition(FlushPolicy::AsyncPeriodic { interval_ms: 5, max_bytes: 0 });
    assert!(!p.flush_if_sync_policy());
    assert!(!p.produce_frame(10, u64::MAX));
    assert_eq!((p.latest_offset(), p.high_watermark()), (11, 11));
    assert!(!p.produce_frame_eos(11, 5, 1, 3, 2));
    assert_eq!(p.unsynced_bytes, 1);
    assert_eq!((p.latest_offset(), p.high_watermark()), (12, 11));
    assert_eq!(p.check_sequence(5, 1, 3), Ok(Err(11)));
    assert_eq!(p.check_sequence(0, 1, 3), Ok(Ok(())));
    assert_eq!(p.check_sequence(5, 1, 9).unwrap_err(), "Out of order sequence");
    assert!(p.follow_committed_hw(99));
    assert_eq!(p.high_watermark(), 12);
    assert!(!p.advance_committed_hw(3));
    p.truncate_after(6);
    assert_eq!((p.latest_offset(), p.high_watermark()), (6, 6));
    p.note_synced();
    assert_eq!(p.unsynced_bytes, 0);
    p.produce_control_marker(6);
    assert_eq!((p.latest_offset(), p.high_watermark()), (7, 7));
    let b = BatchHeader {
        base_offset: 7,
        last_offset_delta: 2,
        record_count: 3,
        producer_id: 6,
        producer_epoch: 0,
        base_sequence: i32::MAX - 1,
        encoded_size: 1,
    };
    p.produce_batch_eos(&b);
    assert_eq!(p.producer_states.states.get(&6).unwrap().last_sequence, i32::MIN);
    p.set_compression_codec(CompressionCodec::Lz4);
    p.set_retention_bytes(Some(1));
    p.set_delete_retention_millis(None);
    assert_eq!(p.retention_bytes, Some(1));
}

#[test]
fn entries_of_a_leader_are_taken_up_to_the_first_that_is_not_new() {
    let mut p = partition(FlushPolicy::AsyncPeriodic { interval_ms: 5, max_bytes: 1 });
    let entry = |base: u64| BatchHeader {
        base_offset: base,
        last_offset_delta: 1,
        record_count: 2,
        producer_id: 0,
        producer_epoch: 0,
        base_sequence: 0,
        encoded_size: 9,
    };
    let gap = VerbatimAppendResult::Gap { expected: 14 };
    let r = p.append_replica_entries_verbatim(&[
        (entry(10), VerbatimAppendResult::Appended),
        (entry(12), VerbatimAppendResult::Appended),
        (entry(16), gap),
        (entry(18), VerbatimAppendResult::Appended),
    ]);
    assert_eq!(r, (2, gap, true));
    assert_eq!((p.latest_offset(), p.high_watermark(), p.unsynced_bytes), (14, 10, 18));
    assert_eq!(
        p.append_replica_entries_verbatim(&[]),
        (0, VerbatimAppendResult::AlreadyApplied, false)
    );
}

#[test]
fn what_takes_too_long_is_given_up() {
    let mut m = TransactionManager::new();
    m.begin_transaction("x", 1, 100).unwrap();
    m.register_partition("x", "t", 0, 7);
    m.prepare_commit("x").unwrap();
    assert!(m.prepare_abort("x").is_err(), "a commit has begun");
    assert!(!m.give_up("x", 50, 150));
    assert_eq!(m.get_status("x"), Some(TxStatus::PrepareCommit));
    assert!(m.give_up("x", 50, 151));
    assert_eq!(m.get_status("x"), Some(TxStatus::PrepareAbort));
    assert_eq!(m.last_stable_offset("t", 0), 7);
    assert_eq!(m.prepare_abort("x").unwrap().0, 1);
    m.complete_abort("x", &[("t".to_string(), 0, 9)]).unwrap();
    assert!(!m.give_up("x", 50, 1000), "it is decided");
    assert!(!m.give_up("y", 50, 1000), "it is unknown");
}
