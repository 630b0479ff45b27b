use bifrox_server::acl::AclBinding;
use bifrox_server::coordinator::groups::{GroupCoordinator, MemberAssignment};
use bifrox_server::engine::brokers::ProcessRole;
use bifrox_server::engine::credentials::{ScramCredential, ScramMechanism};
use bifrox_server::engine::metadata::MetadataRecord;
use bifrox_server::engine::state::{EngineConfig, StorageEngine};
use bifrox_server::engine::txn::InitStep;
use bifrox_server::internode::{
    acknowledge_push, check_entry_count, check_request_frame, goes_on, read_forward_reply,
    EntryOutcome, FetchServing, ForwardReply, FrameType, HeartbeatReply, PushProgress, PushStep,
};
use bifrox_server::partition::{
    CleanupPolicy, CompressionCodec, FlushPolicy, PartitionManager,
};
use bifrox_server::producer::ProducerStateManager;
use bifrox_server::request::payload::RequestPayload;
use bifrox_server::request::process::Step;
use bifrox_server::request::replies::{conclude, encode_protocol, Outcome};
use bifrox_server::request::route::{check_token, forward_failed, grown_buffer, peer_host, Route};
use bifrox_server::request::serve::{serve_request, Task};
use bifrox_server::sasl::{
    generate_scram_server_nonce, parse_plain_auth, parse_scram_client_final,
    parse_scram_client_first, resolve_quota_key, AuthStep, ClientIdentity,
};
use bifrox_server::share::manager::{ShareGroupManager, ShareStateSyncPolicy};
use bifrox_server::wire::{
    encode_fetch_entries_response, fetch_entries_response_header, zero_copy_prefix, WireResponse,
};

fn engine() -> StorageEngine {
    StorageEngine::new(EngineConfig {
        cluster_id: "c1".to_string(),
        node_id: 1,
        bind_addr: "127.0.0.1:9092".to_string(),
        advertised_addr: None,
        peer_addrs: vec!["10.0.0.2:9092".to_string()],
        controller_peer_addrs: vec!["10.0.0.2:9092".to_string()],
        roles: vec![ProcessRole::Broker, ProcessRole::Controller],
        min_insync_replicas: 1,
        default_replication_factor: 1,
        cleanup_policy: CleanupPolicy::Delete,
        compression_codec: CompressionCodec::Uncompressed,
        flush_policy: FlushPolicy::SyncEveryBatch,
        auto_create_topics_enable: true,
        auto_assign_partitions_enable: true,
        allow_unclean_leader_election: false,
        max_partitions_per_topic: 8,
        max_partitions_per_broker: 100,
        message_max_bytes: None,
        transaction_timeout_ms: 60_000,
        replica_lag_max_ms: 1000,
        broker_down_threshold_ms: 5000,
        super_users: vec!["User:root".to_string()],
        acls_enabled: true,
        sasl_required: false,
        sasl_mechanisms: vec!["PLAIN".to_string(), "SCRAM-SHA-256".to_string()],
        auth_token: Some("t0k".to_string()),
    })
}

fn known(name: &str) -> ClientIdentity {
    let mut id = ClientIdentity::new(false);
    id.principal = format!("User:{}", name);
    id
}

fn message(step: Step) -> String {
    match step {
        Step::Reply { response: WireResponse::Failure { message } } => message,
        Step::Denied { message } => message,
        _ => panic!("a refusal was expected"),
    }
}

fn payload(step: Step) -> Vec<u8> {
    match step {
        Step::Reply { response: WireResponse::Success { payload } } => payload,
        _ => panic!("a success was expected"),
    }
}

fn produce(topic: &str) -> RequestPayload {
    RequestPayload::ProduceBatch {
        topic: topic.to_string(),
        key: String::new(),
        transaction_id: String::new(),
        num_partitions: 1,
        batch: vec![],
    }
}

fn opened(topic: &str, partition: u32) -> PartitionManager {
    PartitionManager::open(
        topic.to_string(),
        partition,
        1,
        0,
        ProducerStateManager::open(&[]),
        CompressionCodec::Uncompressed,
        CleanupPolicy::Delete,
        FlushPolicy::SyncEveryBatch,
    )
}

#[test]
fn each_kind_of_resource_has_its_own_refusal() {
    let e = engine();
    let mut id = known("bob");
    let refusals = [
        (produce("t"), "TopicAuthorizationFailed"),
        (
            RequestPayload::DescribeGroup { group_id: "g".to_string() },
            "GroupAuthorizationFailed",
        ),
        (RequestPayload::ListTopics, "ClusterAuthorizationFailed"),
        (
            RequestPayload::CommitTx { transaction_id: "x".to_string() },
            "TransactionalIdAuthorizationFailed",
        ),
        (
            RequestPayload::ShareFetch {
                group_id: "g".to_string(),
                member_id: "m".to_string(),
                topic: "t".to_string(),
                partition: 0,
                max_records: 1,
                lock_timeout_ms: 0,
                acknowledgements: vec![],
            },
            "TopicAuthorizationFailed",
        ),
    ];
    for (p, want) in refusals {
        assert_eq!(message(e.process_request(&mut id, &p, "h", false, false)), want);
    }
    let free = RequestPayload::InitProducerId { transactional_id: String::new() };
    assert!(matches!(e.process_request(&mut id, &free, "h", false, false), Step::Serve));
    let bound = RequestPayload::InitProducerId { transactional_id: "x".to_string() };
    assert_eq!(
        message(e.process_request(&mut id, &bound, "h", false, false)),
        "TransactionalIdAuthorizationFailed"
    );
}

#[test]
fn strangers_are_asked_who_they_are() {
    let mut e = engine();
    e.config.sasl_required = true;
    let mut id = ClientIdentity::new(false);
    assert_eq!(
        message(e.process_request(&mut id, &RequestPayload::ListTopics, "h", false, false)),
        "SaslAuthenticationRequired"
    );
    assert_eq!(
        payload(e.process_request(&mut id, &RequestPayload::Ping, "h", false, false)),
        b"PONG".to_vec()
    );
    assert!(matches!(
        e.process_request(&mut id, &RequestPayload::NegotiateProtocol, "h", false, false),
        Step::Serve
    ));
    assert_eq!(ClientIdentity::new(true).principal, "User:token_user");
}

#[test]
fn requests_are_checked_before_they_are_served() {
    let mut e = engine();
    let mut id = known("root");
    assert_eq!(
        message(e.process_request(&mut id, &produce("a/b"), "h", false, false)),
        "Invalid topic name: Invalid topic name: 'a/b'"
    );
    assert_eq!(
        message(e.process_request(&mut id, &produce("t"), "h", false, false)),
        "NotLeaderForPartition"
    );
    assert!(matches!(e.process_request(&mut id, &produce("t"), "h", true, false), Step::Serve));
    e.role.is_leader = true;
    assert!(matches!(e.process_request(&mut id, &produce("t"), "h", false, false), Step::Serve));
    let nobody = RequestPayload::UpsertScramUser {
        username: String::new(),
        iterations: 1,
        salt: vec![],
        stored_key: vec![],
        server_key: vec![],
    };
    assert_eq!(
        message(e.process_request(&mut id, &nobody, "h", false, false)),
        "SCRAM username cannot be empty"
    );
    let mut p = opened("t", 0);
    p.update_leadership(2, 1, vec![2], vec![2]);
    e.take_partition(p);
    let fetch = RequestPayload::Fetch {
        topic: "t".to_string(),
        partition: 0,
        offset: 0,
        max_bytes: 1,
    };
    assert_eq!(
        message(e.process_request(&mut id, &fetch, "h", false, false)),
        "NotLeaderForPartition"
    );
    assert!(matches!(e.process_request(&mut id, &fetch, "h", true, false), Step::Serve));
}

#[test]
fn lists_are_answered_at_once() {
    let mut e = engine();
    let mut id = known("root");
    e.take_partition(opened("t", 0));
    assert_eq!(
        payload(e.process_request(&mut id, &RequestPayload::ListTopics, "h", false, false)),
        vec![0, 0, 0, 1, 0, 1, b't']
    );
    let mut want = vec![0, 2, b'c', b'1', 0, 0, 0, 1, 0, 0, 0, 0, 1, 0, 0, 0, 1, 0, 14];
    want.extend_from_slice(b"127.0.0.1:9092");
    assert_eq!(
        payload(e.process_request(&mut id, &RequestPayload::DescribeCluster, "h", false, false)),
        want
    );
    let rule = AclBinding {
        resource_type: 2,
        resource_name: "t".to_string(),
        pattern_type: 3,
        principal: "p".to_string(),
        host: "*".to_string(),
        operation: 3,
        permission_type: 3,
    };
    e.acl.add_acl(rule.copy());
    let p = RequestPayload::DescribeAcls {
        filter: AclBinding {
            resource_type: 0,
            resource_name: String::new(),
            pattern_type: 0,
            principal: String::new(),
            host: String::new(),
            operation: 0,
            permission_type: 0,
        },
    };
    assert_eq!(
        payload(e.process_request(&mut id, &p, "h", false, false)),
        vec![0, 0, 0, 0, 0, 1, 2, 0, 1, b't', 3, 0, 1, b'p', 0, 1, b'*', 3, 3]
    );
}

#[test]
fn a_client_may_name_itself() {
    let e = engine();
    let mut id = ClientIdentity::new(false);
    let name = |n: &str| RequestPayload::SetClientId { client_id: n.to_string() };
    assert_eq!(
        message(e.process_request(&mut id, &name(""), "h", false, false)),
        "Invalid client_id"
    );
    assert_eq!(
        message(e.process_request(&mut id, &name(&"x".repeat(257)), "h", false, false)),
        "Invalid client_id"
    );
    assert!(payload(e.process_request(&mut id, &name("app"), "h", false, false)).is_empty());
    assert_eq!(id.logical_client_id.as_deref(), Some("app"));
    assert_eq!(resolve_quota_key("User:a", Some("app"), "ip"), "User:a|client:app");
    assert_eq!(resolve_quota_key("User:a", None, "ip"), "User:a");
    assert_eq!(resolve_quota_key("User:ANONYMOUS", Some("app"), "ip"), "client:app");
    assert_eq!(resolve_quota_key("User:ANONYMOUS", None, "ip"), "ip");
}

fn auth(e: &StorageEngine, id: &mut ClientIdentity, bytes: &[u8]) -> AuthStep {
    let p = RequestPayload::SaslAuthenticate { auth_bytes: bytes.to_vec() };
    match e.process_request(id, &p, "h", false, true) {
        Step::Authenticate { step } => step,
        _ => panic!("an authentication was expected"),
    }
}

fn reply_text(step: AuthStep) -> (u16, String) {
    match step {
        AuthStep::Reply { response: WireResponse::Success { payload } } => {
            let code = u16::from_be_bytes([payload[0], payload[1]]);
            let n = u16::from_be_bytes([payload[2], payload[3]]) as usize;
            let at = 4 + n;
            let len = u32::from_be_bytes([
                payload[at],
                payload[at + 1],
                payload[at + 2],
                payload[at + 3],
            ]) as usize;
            assert_eq!(payload.len(), at + 4 + len + 8);
            (code, String::from_utf8(payload[at + 4..at + 4 + len].to_vec()).unwrap())
        }
        _ => panic!("a reply was expected"),
    }
}

fn with_user(e: &mut StorageEngine) {
    e.scram_credentials.apply_scram_credential_state(ScramCredential {
        username: "ann".to_string(),
        mechanism: ScramMechanism::Sha256,
        iterations: 4096,
        salt: b"salt".to_vec(),
        stored_key: vec![1],
        server_key: vec![2],
    });
}

#[test]
fn a_scram_exchange_runs_in_two_steps() {
    let mut e = engine();
    with_user(&mut e);
    let mut id = ClientIdentity::new(false);
    let handshake = RequestPayload::SaslHandshake { mechanism: "scram-sha-256-plus".to_string() };
    let listed = payload(e.process_request(&mut id, &handshake, "h", false, true));
    assert_eq!(&listed[..6], &[0, 0, 0, 0, 0, 3]);
    assert!(id.negotiated_is_plus);
    assert_eq!(id.negotiated_mechanism, Some(ScramMechanism::Sha256));

    let (code, first) = reply_text(auth(&e, &mut id, b"n,,n=ann,r=abc"));
    assert_eq!(code, 0);
    assert!(first.starts_with("r=abc"));
    assert!(first.ends_with(",s=c2FsdA==,i=4096"));
    let nonce = first[2..].split(',').next().unwrap().to_string();
    assert_eq!(nonce.len(), 3 + 36);

    let last = format!("c=biws,r={},p=cHJvb2Y=", nonce);
    match auth(&e, &mut id, last.as_bytes()) {
        AuthStep::CheckProof { auth_message, proof, channel_binding, channel_bound, .. } => {
            assert_eq!(
                auth_message,
                format!("n=ann,r=abc,{},c=biws,r={}", first, nonce)
            );
            assert_eq!(proof, b"proof".to_vec());
            assert_eq!(channel_binding, "biws");
            assert!(channel_bound);
        }
        _ => panic!("the proof has to be checked"),
    }
    let done = id.finish_scram(true, "v=ok");
    assert_eq!(reply_text(AuthStep::Reply { response: done }), (0, "v=ok".to_string()));
    assert_eq!(id.principal, "User:ann");
    assert!(id.scram_session.is_none());
}

#[test]
fn failed_authentications_look_alike() {
    let mut e = engine();
    with_user(&mut e);
    let mut id = ClientIdentity::new(false);
    for bad in [
        &b"\xff\xfe"[..],
        b"n,,n=bob,r=abc",
        b"n=,x",
        b"c=biws,r=abc,p=cHJvb2Y=",
        b"bob:wrong",
        b"",
    ] {
        assert_eq!(reply_text(auth(&e, &mut id, bad)).0, 58);
        assert_eq!(id.principal, "User:ANONYMOUS");
    }
    auth(&e, &mut id, b"n,,n=ann,r=abc");
    assert_eq!(reply_text(auth(&e, &mut id, b"c=biws,r=other,p=cHJvb2Y=")).0, 58);
    assert!(id.scram_session.is_none());
    auth(&e, &mut id, b"n,,n=ann,r=abc");
    let response = id.finish_scram(false, "v=x");
    assert_eq!(reply_text(AuthStep::Reply { response }).0, 58);
    assert_eq!(id.principal, "User:ANONYMOUS");
    let unknown = RequestPayload::SaslHandshake { mechanism: "KERBEROS".to_string() };
    assert_eq!(
        &payload(e.process_request(&mut id, &unknown, "h", false, false))[..6],
        &[0, 33, 0, 0, 0, 2]
    );
}

#[test]
fn passwords_are_checked_against_the_credential_or_the_token() {
    let mut e = engine();
    with_user(&mut e);
    let mut id = ClientIdentity::new(false);
    match auth(&e, &mut id, b"\0ann\0secret") {
        AuthStep::CheckPassword { username, password, credential } => {
            assert_eq!((username.as_str(), password.as_str()), ("ann", "secret"));
            assert_eq!(credential.iterations, 4096);
        }
        _ => panic!("the password has to be checked"),
    }
    let response = id.finish_plain("ann", true);
    assert_eq!(reply_text(AuthStep::Reply { response }), (0, String::new()));
    assert_eq!(id.principal, "User:ann");
    let mut other = ClientIdentity::new(false);
    assert_eq!(reply_text(auth(&e, &mut other, b"svc:t0k")).0, 0);
    assert_eq!(other.principal, "User:svc");
}

#[test]
fn messages_of_an_authentication_are_taken_apart() {
    assert_eq!(parse_plain_auth("\0u\0p\0"), ("u".to_string(), "p".to_string()));
    assert_eq!(parse_plain_auth("u:p:q"), ("u".to_string(), "p:q".to_string()));
    assert_eq!(parse_plain_auth("u"), (String::new(), String::new()));
    let (user, nonce, bare) = parse_scram_client_first("n,,n=a,r=1,n=b").unwrap();
    assert_eq!((user.as_str(), nonce.as_str(), bare.as_str()), ("b", "1", "n=a,r=1,n=b"));
    assert!(parse_scram_client_first("n=a").is_none());
    assert!(parse_scram_client_first("r=a").is_none());
    let m = parse_scram_client_final("c=x,r=y,p=AQID,z=1").unwrap();
    assert_eq!((m.nonce.as_str(), m.without_proof.as_str()), ("y", "c=x,r=y"));
    assert_eq!(m.proof, vec![1, 2, 3]);
    assert!(parse_scram_client_final("c=x,r=y,p=***").is_none());
    assert!(parse_scram_client_final("r=y,p=AQID").is_none());
    let a = generate_scram_server_nonce().unwrap();
    let b = generate_scram_server_nonce().unwrap();
    assert_eq!(a.len(), 36);
    assert_ne!(a, b);
    assert!(a.chars().all(|c| c.is_ascii_hexdigit()));
}

#[test]
fn requests_go_to_their_leader_once() {
    let mut e = engine();
    let create = RequestPayload::CreateTopic { topic: "t".to_string(), partitions: 1 };
    match e.route_request(&create, false) {
        Route::Refuse { message } => {
            assert_eq!(message, "NOT_CONTROLLER: No cluster leader elected. Retry later.")
        }
        _ => panic!("there is no leader"),
    }
    match e.route_request(&produce("t"), false) {
        Route::Refuse { message } => assert_eq!(
            message,
            "NOT_LEADER: No leader elected for this partition. Retry later."
        ),
        _ => panic!("there is no leader"),
    }
    e.role.leader_addr = Some("10.0.0.2:9092".to_string());
    assert!(matches!(e.route_request(&create, false), Route::Forward { .. }));
    assert!(matches!(e.route_request(&create, true), Route::Here));
    assert!(matches!(e.route_request(&RequestPayload::Ping, false), Route::Here));
    let mut p = opened("t", 0);
    p.update_leadership(7, 1, vec![7], vec![7]);
    e.take_partition(p);
    e.brokers.register_broker_address(7, "10.0.0.7:1".to_string());
    match e.route_request(&produce("t"), false) {
        Route::Forward { addr } => assert_eq!(addr, "10.0.0.7:1"),
        _ => panic!("another node leads"),
    }
    assert!(matches!(e.route_request(&produce("t"), true), Route::Here));
    assert_eq!(e.topic_to_create(&produce("u")), None);
    e.role.is_leader = true;
    assert_eq!(e.topic_to_create(&produce("u")), Some(("u".to_string(), 1)));
    assert!(matches!(e.route_request(&create, false), Route::Here));
    assert_eq!(
        forward_failed(&produce("t"), "x"),
        "Failed to forward produce to leader: x"
    );
    assert_eq!(
        forward_failed(&create, "x"),
        "Failed to forward request to cluster leader: x"
    );
}

#[test]
fn connections_bring_the_token_unless_they_are_peers() {
    let mut e = engine();
    assert!(e.needs_token("1.2.3.4:5"));
    assert!(!e.needs_token("10.0.0.2:777"));
    e.config.sasl_required = true;
    assert!(!e.needs_token("1.2.3.4:5"));
    assert!(check_token("t0k", b"\xCA\xFE\xBA\xBEt0k"));
    assert!(!check_token("t0k", b"\xCA\xFE\xBA\xBEt0x"));
    assert!(!check_token("t0k", b"\xCA\xFE\xBA\xBFt0k"));
    assert!(!check_token("t0k", b"\xCA\xFE\xBA\xBEt0kk"));
    assert_eq!(peer_host("1.2.3.4:5"), "1.2.3.4");
    assert_eq!(peer_host("here"), "here");
    assert_eq!(grown_buffer(65_536), Some(131_072));
    assert_eq!(grown_buffer(100_000_000), Some(134_217_728));
    assert_eq!(grown_buffer(134_217_728), None);
}

fn success(p: &RequestPayload, o: &Outcome) -> Vec<u8> {
    match conclude(p, o) {
        Some(WireResponse::Success { payload }) => payload,
        _ => panic!("a success was expected"),
    }
}

fn failure(p: &RequestPayload, o: &Outcome) -> String {
    match conclude(p, o) {
        Some(WireResponse::Failure { message }) => message,
        _ => panic!("a failure was expected"),
    }
}

#[test]
fn outcomes_are_written_as_replies() {
    let p = produce("t");
    assert_eq!(
        success(&p, &Outcome::Produced { partition: 1, first_offset: 2, last_offset: 3 }),
        vec![0, 0, 0, 1, 0, 0, 0, 0, 0, 0, 0, 2, 0, 0, 0, 0, 0, 0, 0, 3]
    );
    assert!(success(&p, &Outcome::Done).is_empty());
    let group = RequestPayload::FetchOffset {
        group_id: "g".to_string(),
        topic: "t".to_string(),
        partition: 0,
    };
    assert_eq!(success(&group, &Outcome::Committed { offset: None }), vec![0xff; 8]);
    assert_eq!(
        success(&p, &Outcome::Producer { producer_id: 1, producer_epoch: -2 }),
        vec![0, 0, 0, 0, 0, 0, 0, 1, 0xff, 0xfe]
    );
    assert_eq!(
        success(
            &p,
            &Outcome::Joined {
                member_id: "m".to_string(),
                generation_id: 5,
                is_leader: true,
                protocol: "r".to_string(),
            }
        ),
        vec![0, 1, b'm', 0, 0, 0, 5, 1, 0, 1, b'r']
    );
    assert_eq!(
        success(&p, &Outcome::Assigned { assignment: vec![("t".to_string(), vec![7])] }),
        vec![0, 0, 0, 1, 0, 1, b't', 0, 0, 0, 1, 0, 0, 0, 7]
    );
    assert_eq!(
        success(&p, &Outcome::Names { names: vec!["g".to_string()] }),
        vec![0, 0, 0, 1, 0, 1, b'g']
    );
    assert!(conclude(&p, &Outcome::Names { names: vec!["x".repeat(70_000)] }).is_none());
    assert_eq!(success(&p, &Outcome::Watermark { end: 1 }), vec![0, 0, 0, 0, 0, 0, 0, 1]);
    assert_eq!(success(&p, &Outcome::Position { found: Some((1, 2)) }).len(), 16);
    assert_eq!(
        failure(&p, &Outcome::Position { found: None }),
        "Offset not found in index"
    );
    assert_eq!(
        failure(&p, &Outcome::Failed { reason: "disk".to_string() }),
        "ProduceBatch failed: disk"
    );
    assert_eq!(
        failure(&p, &Outcome::AckFailed { reason: "late".to_string() }),
        "ShareAcknowledge failed: late"
    );
    assert_eq!(
        failure(&p, &Outcome::Missing { what: "Topic not found".to_string() }),
        "Topic not found"
    );
    let leave = RequestPayload::LeaveGroup {
        group_id: "g".to_string(),
        member_id: "m".to_string(),
        group_instance_id: None,
    };
    assert_eq!(failure(&leave, &Outcome::Failed { reason: "who".to_string() }), "who");
    let end = RequestPayload::EndTxn {
        transactional_id: "x".to_string(),
        producer_id: 1,
        producer_epoch: 0,
        committed: true,
    };
    assert_eq!(failure(&end, &Outcome::Failed { reason: "who".to_string() }), "EndTxn failed");
}

#[test]
fn fetch_replies_are_the_same_with_and_without_a_copy() {
    let aborted = vec![(5, 9)];
    let entries = vec![1, 2, 3];
    let buffered = encode_fetch_entries_response(4, &aborted, &entries);
    assert_eq!(
        buffered,
        vec![
            0, 0, 0, 0, 0, 0, 0, 4, 0, 0, 0, 1, 0, 0, 0, 0, 0, 0, 0, 5, 0, 0, 0, 0, 0, 0, 0, 9, 0,
            0, 0, 3, 1, 2, 3
        ]
    );
    assert_eq!(fetch_entries_response_header(4, &aborted, 3), buffered[..32].to_vec());
    let mut sent = zero_copy_prefix(Some(6), 4, &aborted, 3).unwrap();
    sent.extend_from_slice(&entries);
    let mut whole = vec![0xF1, 0, 0, 0, 6, 0, 0, 0, 0, 35];
    whole.extend_from_slice(&buffered);
    assert_eq!(sent, whole);
    assert_eq!(zero_copy_prefix(None, 4, &[], 3).unwrap()[0], 0);
    assert!(zero_copy_prefix(None, 4, &[], u32::MAX as u64).is_none());
}

fn pascal(s: &str) -> Vec<u8> {
    let mut out = (s.len() as u16).to_be_bytes().to_vec();
    out.extend_from_slice(s.as_bytes());
    out
}

fn vote(cluster: &str, term: u64, index: u64) -> Vec<u8> {
    let mut b = pascal(cluster);
    b.extend_from_slice(&2u32.to_be_bytes());
    b.extend_from_slice(&term.to_be_bytes());
    b.extend_from_slice(&index.to_be_bytes());
    b
}

#[test]
fn votes_go_to_candidates_that_are_up_to_date() {
    let mut e = engine();
    e.role.epoch = 5;
    assert_eq!(e.handle_vote_request(&vote("c1", 5, 0)).unwrap(), Some((2, 5)));
    assert_eq!(e.handle_vote_request(&vote("c1", 4, 0)).unwrap(), None);
    assert_eq!(e.handle_vote_request(&vote("c2", 9, 0)).unwrap(), None);
    let mut log = opened("__cluster_metadata", 0);
    log.truncate_after(3);
    e.take_partition(log);
    assert_eq!(e.handle_vote_request(&vote("c1", 5, 2)).unwrap(), None);
    assert_eq!(e.handle_vote_request(&vote("c1", 5, 3)).unwrap(), Some((2, 5)));
    e.adopt_epoch(6);
    assert_eq!(e.role.epoch, 6);
    e.config.roles = vec![ProcessRole::Broker];
    assert_eq!(e.handle_vote_request(&vote("c1", 9, 9)).unwrap(), None);
    let whole = vote("c1", 9, 9);
    assert_eq!(
        e.handle_vote_request(&whole[..whole.len() - 1]).unwrap_err().message,
        "VoteRequest frame ended before its candidate_last_log_index field"
    );
    assert_eq!(
        e.handle_vote_request(&vote(&"x".repeat(257), 1, 1)).unwrap_err().message,
        "VoteRequest frame's cluster_id length 257 exceeds the 256 byte maximum"
    );
    assert_eq!(
        e.handle_vote_request(&[0, 1, 0xff]).unwrap_err().message,
        "Invalid UTF-8 in VoteRequest frame's cluster_id"
    );
}

fn beat(cluster: &str, node: u32, term: u64, addr: &str) -> Vec<u8> {
    let mut b = pascal(cluster);
    b.extend_from_slice(&node.to_be_bytes());
    b.extend_from_slice(&term.to_be_bytes());
    b.extend_from_slice(&pascal(addr));
    b
}

#[test]
fn heartbeats_are_taken_from_peers_alone() {
    let mut e = engine();
    e.role.epoch = 5;
    let peer = "10.0.0.2:9092";
    for bad in [
        beat("other", 2, 9, peer),
        beat("c1", 2, 9, "127.0.0.1:9092"),
        beat("c1", 2, 9, "10.9.9.9:1"),
    ] {
        assert!(matches!(e.handle_heartbeat(&bad), Ok(HeartbeatReply::Rejected)));
    }
    assert_eq!(e.role.epoch, 5);
    match e.handle_heartbeat(&beat("c1", 2, 6, peer)) {
        Ok(HeartbeatReply::Accepted { node_id, advertised_addr, roles }) => {
            assert_eq!(node_id, 1);
            assert_eq!(advertised_addr, "127.0.0.1:9092");
            assert_eq!(roles.len(), 2);
        }
        _ => panic!("a peer is welcome"),
    }
    assert_eq!(e.role.epoch, 6);
    assert_eq!(e.role.leader_addr.as_deref(), Some(peer));
    assert_eq!(e.brokers.get_broker_address(2).as_deref(), Some(peer));
    assert!(matches!(
        e.handle_heartbeat(&beat("c1", 3, 5, peer)),
        Ok(HeartbeatReply::Accepted { .. })
    ));
    assert_eq!(e.role.epoch, 6);
    assert_eq!(e.brokers.get_broker_address(3), None);
    e.config.peer_addrs = vec![];
    assert!(matches!(
        e.handle_heartbeat(&beat("c1", 4, 7, "10.9.9.9:1")),
        Ok(HeartbeatReply::Accepted { .. })
    ));
    assert!(e.handle_heartbeat(&[]).is_err());
}

fn push(cluster: &str, topic: &str, epoch: u64, hw: u64, entries: &[u8]) -> Vec<u8> {
    let mut b = pascal(cluster);
    b.extend_from_slice(&pascal(topic));
    b.extend_from_slice(&0u32.to_be_bytes());
    b.extend_from_slice(&epoch.to_be_bytes());
    b.extend_from_slice(&hw.to_be_bytes());
    b.extend_from_slice(&(entries.len() as u32).to_be_bytes());
    b.extend_from_slice(entries);
    b
}

#[test]
fn pushes_are_fenced_by_epoch() {
    let mut e = engine();
    e.role.epoch = 5;
    assert_eq!(
        e.handle_replication_push(&push("c2", "t", 9, 0, &[])).err().unwrap().message,
        "Replication cluster_id mismatch"
    );
    let meta = "__cluster_metadata";
    assert!(matches!(
        e.handle_replication_push(&push("c1", meta, 4, 0, &[])),
        Ok(PushStep::StaleEpoch)
    ));
    match e.handle_replication_push(&push("c1", meta, 8, 3, &[1, 2])) {
        Ok(PushStep::Append { push }) => {
            assert_eq!((push.topic.as_str(), push.leader_hw), (meta, 3));
            assert_eq!(push.entries, vec![1, 2]);
        }
        _ => panic!("the push is current"),
    }
    assert_eq!(e.role.epoch, 8);
    let mut p = opened("t", 0);
    p.update_leadership(2, 3, vec![2, 1], vec![2]);
    e.take_partition(p);
    assert!(matches!(
        e.handle_replication_push(&push("c1", "t", 2, 0, &[])),
        Ok(PushStep::StaleEpoch)
    ));
    assert!(matches!(
        e.handle_replication_push(&push("c1", "t", 7, 0, &[])),
        Ok(PushStep::Append { .. })
    ));
    assert_eq!(e.role.epoch, 8);
    let cut = push("c1", "t", 7, 0, &[1, 2, 3]);
    assert_eq!(
        e.handle_replication_push(&cut[..cut.len() - 1]).err().unwrap().message,
        "ReplicationPush frame ended before its entry bytes field"
    );
    assert!(e.push_appended("t", 0, 9));
    assert_eq!(e.partitions.get("t", 0).unwrap().high_watermark(), 0);
}

#[test]
fn a_push_is_acknowledged_when_all_of_it_is_on_disk() {
    assert!(acknowledge_push(&[EntryOutcome::Appended, EntryOutcome::AlreadyApplied], true));
    assert!(!acknowledge_push(&[EntryOutcome::Appended], false));
    assert!(!acknowledge_push(&[EntryOutcome::Appended, EntryOutcome::Failed], true));
    assert!(!acknowledge_push(&[EntryOutcome::Gap], true));
    assert!(acknowledge_push(&[], true));
    assert!(goes_on(EntryOutcome::Failed));
    assert!(!goes_on(EntryOutcome::Gap));
    assert!(check_entry_count(99_999).is_ok());
    assert_eq!(
        check_entry_count(100_000).unwrap_err().message,
        "Replication batch entry count too large"
    );
}

#[test]
fn followers_are_served_by_the_leader() {
    let mut e = engine();
    assert!(matches!(e.handle_replication_fetch("t", 0, 5, 2), FetchServing::Nothing));
    e.role.is_leader = true;
    assert!(matches!(e.handle_replication_fetch("t", 0, 5, 2), FetchServing::Open));
    let mut p = opened("t", 0);
    p.truncate_after(9);
    p.advance_committed_hw(4);
    e.take_partition(p);
    match e.handle_replication_fetch("t", 0, 5, 2) {
        FetchServing::Serve { high_watermark, confirmed } => {
            assert_eq!((high_watermark, confirmed), (4, None));
        }
        _ => panic!("this node leads"),
    }
    e.brokers.register_broker_address(2, "h2".to_string());
    match e.handle_replication_fetch("t", 0, 5, 2) {
        FetchServing::Serve { confirmed, .. } => {
            assert_eq!(confirmed, Some(("h2".to_string(), 4)));
        }
        _ => panic!("this node leads"),
    }
    assert!(e.get_or_create_partition("t", 0).is_ok());
    e.apply_metadata_record(
        0,
        MetadataRecord::TopicDeleted { topic: "t".to_string() },
        None,
    );
    assert!(matches!(e.handle_replication_fetch("t", 0, 5, 2), FetchServing::Nothing));
}

#[test]
fn a_leader_s_reply_is_read_with_and_without_an_envelope() {
    let plain = [0, 0, 0, 0, 2, 7, 8];
    match read_forward_reply(&plain) {
        ForwardReply::Done { response } => assert_eq!(response, plain.to_vec()),
        _ => panic!("all of it is there"),
    }
    let framed = [0xF1, 1, 2, 3, 4, 0, 0, 0, 0, 2, 7, 8];
    match read_forward_reply(&framed) {
        ForwardReply::Done { response } => assert_eq!(response, plain.to_vec()),
        _ => panic!("all of it is there"),
    }
    assert!(matches!(read_forward_reply(&[]), ForwardReply::NeedBytes { total: 1 }));
    assert!(matches!(read_forward_reply(&framed[..3]), ForwardReply::NeedBytes { total: 10 }));
    assert!(matches!(read_forward_reply(&plain[..6]), ForwardReply::NeedBytes { total: 7 }));
    match read_forward_reply(&[0, 4, 0, 0, 1]) {
        ForwardReply::Refused { message } => assert_eq!(
            message,
            "Leader forward response payload 67108865 exceeds maximum 67108864 bytes"
        ),
        _ => panic!("it is too long"),
    }
}

#[test]
fn replies_are_no_requests() {
    for f in [
        FrameType::ReplicationPush,
        FrameType::Heartbeat,
        FrameType::VoteRequest,
        FrameType::ReplicationFetch,
    ] {
        assert!(check_request_frame(f).is_ok());
    }
    for f in [
        FrameType::ReplicationPushAck,
        FrameType::HeartbeatAck,
        FrameType::VoteResponse,
        FrameType::ReplicationFetchResponse,
    ] {
        assert_eq!(
            check_request_frame(f).unwrap_err().message,
            format!("received {:?}, which is a reply and never a request", f)
        );
    }
}

#[test]
fn a_fetch_goes_straight_from_the_file_only_where_nothing_is_left_to_decide() {
    let mut e = engine();
    let may = |e: &StorageEngine, who: &str, len: u64, min: u32, wait: u32| {
        e.may_send_from_file(who, "h", "t", 0, len, min, wait)
    };
    assert!(may(&e, "User:root", 10, 1, 100));
    assert!(!may(&e, "User:bob", 10, 1, 100));
    assert!(!may(&e, "User:root", 0, 0, 0));
    assert!(!may(&e, "User:root", 10, 11, 100));
    assert!(may(&e, "User:root", 10, 11, 0));
    let mut p = opened("t", 0);
    p.update_leadership(2, 1, vec![2], vec![2]);
    e.take_partition(p);
    assert!(!may(&e, "User:root", 10, 1, 100));
}

struct Parts {
    engine: StorageEngine,
    groups: GroupCoordinator,
    shares: ShareGroupManager,
}

impl Parts {
    fn new() -> Parts {
        Parts {
            engine: engine(),
            groups: GroupCoordinator::with_rebalance_delay(0),
            shares: ShareGroupManager::new(1_000_000_000, 5, ShareStateSyncPolicy::Buffered, 0),
        }
    }

    fn serve(&mut self, p: &RequestPayload, ratios: &[bool]) -> Task {
        serve_request(&mut self.engine, &mut self.groups, &mut self.shares, p, ratios, 7, 3)
    }

    fn failure(&mut self, p: &RequestPayload) -> String {
        match self.serve(p, &[]) {
            Task::Answer { outcome: Outcome::Failed { reason } } => reason,
            Task::Answer { outcome: Outcome::Missing { what } } => what,
            _ => panic!("a failure was expected"),
        }
    }
}

#[test]
fn changes_are_proposed_and_nothing_changes_before() {
    let mut b = Parts::new();
    let create = RequestPayload::CreateTopic { topic: "orders".to_string(), partitions: 2 };
    assert_eq!(b.failure(&create), "NOT_CONTROLLER: this node is not the cluster leader");
    b.engine.role.is_leader = true;
    match b.serve(&create, &[]) {
        Task::Propose { records } => assert!(!records.is_empty()),
        _ => panic!("records were expected"),
    }
    assert!(!b.engine.topic_is_registered("orders"));
    let alter = RequestPayload::AlterConfigs {
        topic: "orders".to_string(),
        configs: vec![("retention.ms".to_string(), "5".to_string())],
    };
    match b.serve(&alter, &[true]) {
        Task::Answer { outcome: Outcome::Failed { reason } } => {
            assert_eq!(reason, "Unknown topic 'orders'")
        }
        _ => panic!("a failure was expected"),
    }
    let drop_user = RequestPayload::DeleteScramUser { username: "ann".to_string() };
    match b.serve(&drop_user, &[]) {
        Task::Propose { records } => match &records[..] {
            [MetadataRecord::ScramCredentialDelete { username }] => assert_eq!(username, "ann"),
            _ => panic!("one record was expected"),
        },
        _ => panic!("a record was expected"),
    }
    let upsert = RequestPayload::UpsertScramUser {
        username: "ann".to_string(),
        iterations: 4096,
        salt: vec![1],
        stored_key: vec![2],
        server_key: vec![3],
    };
    match b.serve(&upsert, &[]) {
        Task::Propose { records } => match &records[..] {
            [MetadataRecord::ScramCredentialUpsert { credential }] => {
                assert!(credential.mechanism == ScramMechanism::Sha256);
                assert_eq!(credential.stored_key, vec![2]);
            }
            _ => panic!("one record was expected"),
        },
        _ => panic!("a record was expected"),
    }
}

#[test]
fn groups_are_served_without_files() {
    let mut b = Parts::new();
    let beat = RequestPayload::Heartbeat {
        group_id: "g".to_string(),
        generation_id: 1,
        member_id: "m".to_string(),
    };
    assert_eq!(b.failure(&beat), "Group or member not found");
    let (member, generation, leads, _) = b
        .groups
        .join_group("g", "", None, vec!["range".to_string()], None, 7, 7)
        .unwrap();
    assert!(leads);
    let sync = RequestPayload::SyncGroup {
        group_id: "g".to_string(),
        generation_id: generation,
        member_id: member.clone(),
        assignments: vec![MemberAssignment {
            member_id: member.clone(),
            topic: "orders".to_string(),
            partitions: vec![0, 1],
        }],
    };
    match b.serve(&sync, &[]) {
        Task::Answer { outcome: Outcome::Assigned { assignment } } => {
            assert_eq!(assignment, vec![("orders".to_string(), vec![0, 1])])
        }
        _ => panic!("an assignment was expected"),
    }
    let beat = RequestPayload::Heartbeat {
        group_id: "g".to_string(),
        generation_id: generation,
        member_id: member.clone(),
    };
    assert!(matches!(b.serve(&beat, &[]), Task::Answer { outcome: Outcome::Done }));
    match b.serve(&RequestPayload::ListGroups, &[]) {
        Task::Answer { outcome: Outcome::Names { names } } => assert_eq!(names, vec!["g"]),
        _ => panic!("names were expected"),
    }
    let describe = RequestPayload::DescribeGroup { group_id: "g".to_string() };
    assert!(matches!(b.serve(&describe, &[]), Task::DescribeGroup { .. }));
    let describe = RequestPayload::DescribeGroup { group_id: "h".to_string() };
    assert_eq!(b.failure(&describe), "Group not found");
    let leave = RequestPayload::LeaveGroup {
        group_id: "h".to_string(),
        member_id: member,
        group_instance_id: None,
    };
    assert_eq!(b.failure(&leave), "Group not found");
}

#[test]
fn transactions_say_what_is_left_to_do() {
    let mut b = Parts::new();
    let begin = RequestPayload::BeginTx { transaction_id: "t".to_string(), producer_id: 4 };
    assert!(matches!(b.serve(&begin, &[]), Task::Note { record: Some(_) }));
    assert_eq!(b.failure(&begin), "Transaction ID 't' already exists");
    let commit = RequestPayload::CommitTx { transaction_id: "t".to_string() };
    match b.serve(&commit, &[]) {
        Task::Commit { transaction_id } => assert_eq!(transaction_id, "t"),
        _ => panic!("a commit was expected"),
    }
    let abort = RequestPayload::AbortTx { transaction_id: "t".to_string() };
    assert!(matches!(b.serve(&abort, &[]), Task::Abort { .. }));
    let init = RequestPayload::InitProducerId { transactional_id: "u".to_string() };
    let (producer_id, producer_epoch) = match b.serve(&init, &[]) {
        Task::Register { step: InitStep::Register { producer_id, producer_epoch, .. } } => {
            (producer_id, producer_epoch)
        }
        _ => panic!("a registration was expected"),
    };
    let end = |committed: bool, producer_epoch: i16| RequestPayload::EndTxn {
        transactional_id: "u".to_string(),
        producer_id,
        producer_epoch,
        committed,
    };
    assert!(matches!(b.serve(&end(true, producer_epoch), &[]), Task::Commit { .. }));
    assert!(matches!(b.serve(&end(false, producer_epoch), &[]), Task::Abort { .. }));
    assert!(matches!(
        b.serve(&end(true, producer_epoch + 1), &[]),
        Task::Answer { outcome: Outcome::Failed { .. } }
    ));
}

#[test]
fn shares_and_topics_are_served_without_files() {
    let mut b = Parts::new();
    let beat = RequestPayload::ShareGroupHeartbeat {
        group_id: "g".to_string(),
        member_id: "m".to_string(),
    };
    assert!(matches!(b.serve(&beat, &[]), Task::Answer { outcome: Outcome::Done }));
    match b.serve(&RequestPayload::ShareGroupDescribe { group_id: "g".to_string() }, &[]) {
        Task::DescribeShares { shares } => {
            assert_eq!((shares.0.as_str(), shares.1), ("Stable", vec!["m".to_string()]))
        }
        _ => panic!("a description was expected"),
    }
    let ack = RequestPayload::ShareAcknowledge {
        group_id: "g".to_string(),
        member_id: "m".to_string(),
        topic: "orders".to_string(),
        partition: 0,
        acknowledgements: Vec::new(),
    };
    match b.serve(&ack, &[]) {
        Task::Acknowledged { rejected, .. } => assert!(rejected.is_empty()),
        _ => panic!("an acknowledgement was expected"),
    }
    let describe = RequestPayload::DescribeTopic { topic: "orders".to_string() };
    assert_eq!(b.failure(&describe), "Topic not found");
    let configs = RequestPayload::DescribeConfigs { topic: "orders".to_string() };
    match b.serve(&configs, &[]) {
        Task::ListConfigs { configs } => assert!(configs.is_empty()),
        _ => panic!("settings were expected"),
    }
    let end = RequestPayload::LatestOffset { topic: "orders".to_string(), partition: 0 };
    assert!(matches!(
        b.serve(&end, &[]),
        Task::Answer { outcome: Outcome::Watermark { end: 0 } }
    ));
    let end = RequestPayload::LatestOffset { topic: "__cluster_metadata".to_string(), partition: 0 };
    assert!(matches!(b.serve(&end, &[]), Task::Open));
    assert!(matches!(b.serve(&produce("orders"), &[]), Task::Storage));
}

#[test]
fn metadata_takes_effect_only_when_all_of_it_is_on_disk() {
    let record = |offset: u64| {
        vec![(offset, MetadataRecord::TopicDeleted { topic: format!("t{}", offset) })]
    };
    let mut p = PushProgress::new();
    assert!(p.take(EntryOutcome::Appended, record(1)));
    assert!(p.take(EntryOutcome::AlreadyApplied, record(2)));
    let applied = p.finish(true).expect("a push that is on disk is acknowledged");
    assert_eq!(applied.iter().map(|r| r.0).collect::<Vec<_>>(), vec![1, 2]);

    let mut p = PushProgress::new();
    assert!(p.take(EntryOutcome::Appended, record(1)));
    assert!(p.finish(false).is_none());

    let mut p = PushProgress::new();
    assert!(p.take(EntryOutcome::Failed, record(1)));
    assert!(p.take(EntryOutcome::Appended, record(2)));
    assert_eq!(p.pending.len(), 1);
    assert!(!p.take(EntryOutcome::Gap, record(3)));
    assert!(p.finish(true).is_none());
}

#[test]
fn the_protocol_is_told_by_versions_and_commands() {
    assert_eq!(
        encode_protocol(1, 0x0203, &[7, 9]),
        Some(vec![0, 1, 2, 3, 0, 2, 7, 9])
    );
    assert_eq!(encode_protocol(0, 0, &[]), Some(vec![0, 0, 0, 0, 0, 0]));
    assert_eq!(encode_protocol(0, 0, &vec![0; 0x1_0000]), None);
}
