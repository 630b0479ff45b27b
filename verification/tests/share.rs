use bifrox_server::records::{is_in_log_order, Record};
use bifrox_server::share::batches::ShareRecordState;
use bifrox_server::share::manager::{
    delivered_bytes, dlq_topic, requested_lock_timeout, ShareGroupManager, ShareStateSyncPolicy,
};
use bifrox_server::share::partition::{AckBatch, AcknowledgeType, SharePartition};
use bifrox_server::share::snapshot::{state_from_byte, state_to_byte, PersistedBatch};
use bifrox_server::share::state_log::{decode_stream, encode_entry};

const MS: u64 = 1_000_000;
const SEC: u64 = 1_000_000_000;
const NOW: u64 = 100 * SEC;

fn batch(first: u64, last: u64, state: ShareRecordState, delivery_count: u16) -> PersistedBatch {
    PersistedBatch { first_offset: first, last_offset: last, state, delivery_count }
}

#[test]
fn round_trip_preserves_mixed_batch_states() {
    let batches = vec![
        batch(0, 2, ShareRecordState::Available, 0),
        batch(3, 3, ShareRecordState::Acquired, 4),
        batch(4, 9, ShareRecordState::Acknowledged, 1),
        batch(10, 10, ShareRecordState::Archived, 5),
    ];

    let entry = encode_entry("round-trip-group", "round-trip-topic", 7, 4, &batches);

    let (recovered, _, is_corrupt) = decode_stream(&entry[..]);
    assert!(!is_corrupt, "a well-formed record must not be flagged corrupt");
    let found = recovered
        .iter()
        .find(|r| {
            r.group_id == "round-trip-group" && r.topic == "round-trip-topic" && r.partition == 7
        })
        .expect("record must be recovered");
    assert_eq!(found.start_offset, 4);
    assert_eq!(found.batches, batches, "decoded batches must exactly match what was encoded");
}

#[test]
fn round_trip_empty_batch_array() {
    let entry = encode_entry("g", "t", 0, 42, &[]);
    let (recovered, _, is_corrupt) = decode_stream(&entry[..]);
    assert!(!is_corrupt);
    let found = recovered
        .iter()
        .find(|r| r.group_id == "g" && r.topic == "t" && r.partition == 0)
        .expect("record must be recovered");
    assert_eq!(found.start_offset, 42);
    assert!(found.batches.is_empty());
}

#[test]
fn unknown_state_byte_is_corruption_not_a_default() {
    let batches = vec![batch(0, 0, ShareRecordState::Available, 1)];
    let mut entry = encode_entry("g", "t", 0, 0, &batches);

    let state_byte_index = 1 + 2 + 1 + 2 + 1 + 4 + 8 + 4 + 8 + 8;
    assert_eq!(
        entry[state_byte_index], 0,
        "sanity check: this must be the Available (0) state byte before corrupting it"
    );
    entry[state_byte_index] = 0xFF;

    let crc_start = entry.len() - 4;
    let mut hasher = crc32fast::Hasher::new();
    hasher.update(&entry[..crc_start]);
    let recomputed = hasher.finalize().to_be_bytes();
    entry[crc_start..].copy_from_slice(&recomputed);

    let (recovered, _, is_corrupt) = decode_stream(&entry[..]);
    assert!(is_corrupt, "an unrecognized state byte must be reported as corruption");
    assert!(
        recovered.is_empty(),
        "the record carrying the bad state byte must not be recovered at all"
    );
}

#[test]
fn a_record_that_is_cut_off_is_left_for_later() {
    let entry = encode_entry("g", "t", 3, 9, &[batch(9, 11, ShareRecordState::Acquired, 2)]);
    let mut two = entry.clone();
    two.extend_from_slice(&entry[..entry.len() - 1]);
    let (recovered, consumed, corrupt) = decode_stream(&two);
    assert_eq!(recovered.len(), 1);
    assert_eq!(consumed, entry.len());
    assert!(!corrupt);
    let mut bad = entry.clone();
    let last = bad.len() - 1;
    bad[last] ^= 1;
    let (none, _, broken) = decode_stream(&bad);
    assert!(none.is_empty());
    assert!(broken);
}

#[test]
fn states_and_bytes_stand_for_each_other() {
    for b in 0..4u8 {
        assert_eq!(state_to_byte(state_from_byte(b).unwrap()), b);
    }
    assert!(state_from_byte(4).is_none());
}

fn manager(policy: ShareStateSyncPolicy) -> ShareGroupManager {
    ShareGroupManager::new(30 * SEC, 5, policy, NOW)
}

fn persist(m: &mut ShareGroupManager, now: u64) {
    assert!(m.sync_after_write(now, || true));
}

#[test]
fn a_failed_sync_is_not_counted() {
    let mut m = manager(ShareStateSyncPolicy::EveryWrite);
    assert!(!m.sync_after_write(NOW, || false));
    assert_eq!(m.sync_count, 0);
    assert!(m.sync_after_write(NOW, || true));
    assert_eq!(m.sync_count, 1);
    let mut m = manager(ShareStateSyncPolicy::Buffered);
    assert!(m.sync_after_write(NOW, || panic!("nothing is to be synced")));
}

#[test]
fn buffered_never_syncs_on_persist() {
    let mut m = manager(ShareStateSyncPolicy::Buffered);
    for i in 0..5u64 {
        persist(&mut m, NOW + i);
    }
    assert_eq!(m.sync_count(), 0, "Buffered must never call sync_data() from a persist");
}

#[test]
fn every_write_syncs_once_per_persist() {
    let mut m = manager(ShareStateSyncPolicy::EveryWrite);
    const PERSISTS: u64 = 5;
    for i in 0..PERSISTS {
        persist(&mut m, NOW + i);
    }
    assert_eq!(
        m.sync_count(),
        PERSISTS,
        "EveryWrite must call sync_data() exactly once per persist"
    );
}

#[test]
fn interval_syncs_at_most_once_per_window() {
    let interval = 20 * MS;
    let mut m = manager(ShareStateSyncPolicy::Interval(interval));

    for i in 0..5u64 {
        persist(&mut m, NOW + i);
    }
    let after_burst = m.sync_count();
    assert!(
        after_burst <= 1,
        "a burst of persists within one interval must sync at most once, got {after_burst}"
    );

    persist(&mut m, NOW + 5 + interval + 50 * MS);
    assert_eq!(
        m.sync_count(),
        after_burst + 1,
        "once the interval has genuinely elapsed, the next persist must sync exactly once more"
    );
}

#[test]
fn sync_forces_a_sync_even_under_buffered() {
    let mut m = manager(ShareStateSyncPolicy::Buffered);
    persist(&mut m, NOW);
    assert_eq!(m.sync_count(), 0);

    m.sync(NOW);
    assert_eq!(
        m.sync_count(),
        1,
        "sync() must call sync_data() even though Buffered never would on its own"
    );
}

fn fetcher(count: u64) -> impl Fn(u64) -> Option<Vec<Record>> {
    move |from: u64| {
        let mut out = Vec::new();
        for i in from..count {
            out.push(Record {
                offset: i,
                key: None,
                value: Some(format!("record-{}", i).into_bytes()),
            });
        }
        Some(out)
    }
}

fn share_partition(group: &str, lock_timeout: u64, attempts: u16) -> SharePartition {
    SharePartition::new(
        "share-test-topic".to_string(),
        0,
        group.to_string(),
        lock_timeout,
        attempts,
        0,
    )
}

fn ack(first: u64, last: u64, ack_type: AcknowledgeType) -> AckBatch {
    AckBatch { first_offset: first, last_offset: last, ack_type }
}

#[test]
fn full_range_accept_cancels_pending_timer() {
    let mut sp = share_partition("group-a", 30 * SEC, 5);

    let acquired = sp.acquire_records("member-1", 3, None, NOW, fetcher(3));
    assert_eq!(acquired.len(), 3);
    assert_eq!(
        sp.timers.len(),
        1,
        "one timer should be registered for the whole acquired batch"
    );

    let dlq = sp.acknowledge("member-1", &[ack(0, 2, AcknowledgeType::Accept)], NOW);
    assert!(dlq.is_empty());
    assert_eq!(
        sp.timers.len(),
        0,
        "acknowledging the entire acquired range must cancel its pending timer"
    );
    assert_eq!(sp.start_offset, 3);
}

#[test]
fn partial_range_ack_still_expires_remaining_acquired_slices() {
    let mut sp = share_partition("group-b", 20 * MS, 5);

    let acquired = sp.acquire_records("member-1", 5, None, NOW, fetcher(5));
    assert_eq!(acquired.len(), 5);

    sp.acknowledge("member-1", &[ack(2, 2, AcknowledgeType::Accept)], NOW);
    assert_eq!(
        sp.timers.len(),
        2,
        "splitting an acquired batch must preserve timer coverage for both remainders"
    );

    let later = NOW + 50 * MS;
    let dlq = sp.check_lock_timeouts(later);
    assert!(dlq.is_empty());
    assert_eq!(sp.timers.len(), 0);

    let reacquired = sp.acquire_records("member-2", 10, None, later, fetcher(5));
    let mut offsets: Vec<u64> = reacquired.iter().map(|r| r.offset).collect();
    offsets.sort_unstable();
    assert_eq!(offsets, vec![0, 1, 3, 4]);
}

#[test]
fn check_lock_timeouts_archives_after_max_delivery_attempts() {
    let mut sp = share_partition("group-c", 10 * MS, 1);

    sp.acquire_records("member-1", 1, None, NOW, fetcher(1));
    let dlq = sp.check_lock_timeouts(NOW + 30 * MS);
    assert_eq!(dlq, vec![0], "delivery limit exceeded — should route to DLQ");
    assert_eq!(sp.timers.len(), 0);
}

#[test]
fn a_released_record_is_handed_out_again_and_a_rejected_one_is_not() {
    let mut sp = share_partition("group-d", 30 * SEC, 5);
    sp.acquire_records("a", 2, None, NOW, fetcher(2));
    let dlq = sp.acknowledge(
        "a",
        &[ack(0, 0, AcknowledgeType::Release), ack(1, 1, AcknowledgeType::Reject)],
        NOW,
    );
    assert_eq!(dlq, vec![1]);
    let again = sp.acquire_records("b", 5, None, NOW, fetcher(2));
    assert_eq!(again.len(), 1);
    assert_eq!(again[0].offset, 0);
    assert_eq!(again[0].delivery_count, 2);
}

#[test]
fn a_group_fetches_acknowledges_and_survives_a_restart() {
    let mut m = manager(ShareStateSyncPolicy::EveryWrite);
    let (batches, write) = m.share_fetch("g", "a", "t", 0, 3, None, NOW, fetcher(4));
    assert_eq!(batches.len(), 1);
    assert_eq!((batches[0].first_offset, batches[0].last_offset), (0, 2));
    let first = write.expect("a change is to be written");
    let (dlq, write) =
        m.share_acknowledge("g", "a", "t", 0, &[ack(0, 1, AcknowledgeType::Accept)], NOW);
    assert!(dlq.is_empty());
    let second = write.expect("a change is to be written");
    assert_eq!(m.group_stats("g"), (1, 2));
    assert_eq!(m.list_active_members("g", NOW), vec!["a".to_string()]);
    let (state, members, inflight, start) = m.share_group_describe("g", NOW);
    assert_eq!((state.as_str(), members.len(), inflight, start), ("Stable", 1, 1, 2));
    assert_eq!(m.share_group_describe("nobody", NOW).0, "Empty");

    let mut log = first.bytes;
    log.extend_from_slice(&second.bytes);
    let (recovered, _, corrupt) = decode_stream(&log);
    assert!(!corrupt);
    assert_eq!(recovered.last().unwrap().start_offset, 2);
}

#[test]
fn small_conversions_for_share_groups() {
    assert_eq!(dlq_topic("orders"), "orders-dlq");
    assert_eq!(requested_lock_timeout(0), None);
    assert_eq!(requested_lock_timeout(30_000), Some(30 * SEC));
}

#[test]
fn a_record_has_one_holder_until_its_lease_runs_out() {
    let mut sp = share_partition("group-e", 10 * MS, 5);
    let first = sp.acquire_records("a", 2, None, NOW, fetcher(4));
    assert_eq!(first.iter().map(|r| r.offset).collect::<Vec<_>>(), vec![0, 1]);
    let second = sp.acquire_records("b", 9, None, NOW + MS, fetcher(4));
    assert_eq!(second.iter().map(|r| r.offset).collect::<Vec<_>>(), vec![2, 3]);
    assert!(sp.acknowledge("b", &[ack(0, 1, AcknowledgeType::Reject)], NOW + MS).is_empty());
    let again = sp.acquire_records("c", 1, None, NOW + 10 * MS, fetcher(4));
    assert_eq!((again[0].offset, again[0].delivery_count), (0, 2));
    assert_eq!(again.len(), 1);
}

#[test]
fn a_finished_record_stays_finished() {
    let mut sp = share_partition("group-f", 10 * MS, 5);
    sp.acquire_records("a", 3, None, NOW, fetcher(3));
    sp.acknowledge("a", &[ack(1, 1, AcknowledgeType::Accept)], NOW);
    assert_eq!(sp.start_offset, 0);
    sp.acknowledge("a", &[ack(1, 1, AcknowledgeType::Release)], NOW);
    assert!(sp.check_lock_timeouts(NOW + 20 * MS).is_empty());
    let again = sp.acquire_records("b", 9, None, NOW + 20 * MS, fetcher(3));
    assert_eq!(again.iter().map(|r| r.offset).collect::<Vec<_>>(), vec![0, 2]);
    sp.acknowledge("b", &[ack(0, 0, AcknowledgeType::Accept)], NOW + 20 * MS);
    assert_eq!(sp.start_offset, 2);
}

#[test]
fn a_range_that_ends_before_it_begins_changes_nothing() {
    let mut sp = share_partition("group-h", 10 * MS, 5);
    sp.acquire_records("a", 5, None, NOW, fetcher(5));
    let version = sp.version;
    assert!(sp.acknowledge("a", &[ack(3, 1, AcknowledgeType::Reject)], NOW).is_empty());
    assert_eq!((sp.batches.len(), sp.timers.len(), sp.version), (1, 1, version));
}

#[test]
fn a_failed_read_hands_nothing_out_and_keeps_the_lease() {
    let mut sp = share_partition("group-g", 10 * MS, 5);
    sp.acquire_records("a", 2, None, NOW, fetcher(2));
    let none = sp.acquire_records("b", 2, None, NOW + 10 * MS, |_| None);
    assert!(none.is_empty());
    assert_eq!(sp.batches.len(), 1);
    assert_eq!(sp.batches[0].acquired_by.as_deref(), Some("b"));
    assert_eq!(sp.batches[0].delivery_count, 2);
}

#[test]
fn what_is_delivered_counts_with_its_fixed_fields() {
    let mut m = manager(ShareStateSyncPolicy::EveryWrite);
    let read = |from: u64| {
        let records = vec![
            Record { offset: 0, key: Some(vec![1, 2]), value: Some(vec![0; 10]) },
            Record { offset: 1, key: None, value: None },
        ];
        Some(records.into_iter().filter(|r| r.offset >= from).collect())
    };
    let (batches, _) = m.share_fetch("g", "a", "t", 0, 5, None, NOW, read);
    assert_eq!(delivered_bytes(&batches), 24 + 12 + 24);
    assert_eq!(delivered_bytes(&Vec::new()), 0);
}

#[test]
fn a_log_hands_records_out_in_order() {
    let at = |offset: u64| Record { offset, key: None, value: None };
    assert!(is_in_log_order(&Vec::new()));
    assert!(is_in_log_order(&vec![at(1), at(3)]));
    assert!(!is_in_log_order(&vec![at(3), at(3)]));
    assert!(!is_in_log_order(&vec![at(u64::MAX)]));
}

fn bounds(sp: &SharePartition) -> Vec<(u64, u64)> {
    sp.batches.iter().map(|b| (b.first_offset, b.last_offset)).collect()
}

#[test]
fn runs_are_cut_where_requests_and_answers_end() {
    let mut sp = share_partition("cuts", 30 * SEC, 5);
    sp.acquire_records("a", 2, None, NOW, fetcher(9));
    sp.acquire_records("b", 4, None, NOW, fetcher(9));
    assert_eq!(bounds(&sp), vec![(0, 1), (2, 5)]);
    sp.acknowledge("b", &[ack(1, 3, AcknowledgeType::Release)], NOW);
    assert_eq!(bounds(&sp), vec![(0, 1), (2, 3), (4, 5)]);
    sp.acknowledge("b", &[ack(5, 4, AcknowledgeType::Release)], NOW);
    assert_eq!(bounds(&sp), vec![(0, 1), (2, 3), (4, 5)]);
    sp.acquire_records("c", 1, None, NOW, fetcher(9));
    assert_eq!(bounds(&sp), vec![(0, 1), (2, 2), (3, 3), (4, 5)]);
    sp.acknowledge("a", &[ack(0, 1, AcknowledgeType::Accept)], NOW);
    assert_eq!(bounds(&sp), vec![(2, 2), (3, 3), (4, 5)]);
    sp.check_lock_timeouts(NOW + 31 * SEC);
    assert_eq!(bounds(&sp), vec![(2, 2), (3, 3), (4, 5)]);
    assert!(sp.batches.iter().all(|b| b.state == ShareRecordState::Available));
}
