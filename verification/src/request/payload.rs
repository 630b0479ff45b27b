//! What a client can ask for.
use crate::acl::AclBinding;
use crate::coordinator::groups::MemberAssignment;
use crate::share::partition::AckBatch;
use vstd::prelude::*;

verus! {

/// A request.
pub enum RequestPayload {
    SaslHandshake { mechanism: String },
    SaslAuthenticate { auth_bytes: Vec<u8> },
    SetClientId { client_id: String },
    Ping,
    NegotiateProtocol,
    UpsertScramUser {
        username: String,
        iterations: u32,
        salt: Vec<u8>,
        stored_key: Vec<u8>,
        server_key: Vec<u8>,
    },
    DeleteScramUser { username: String },
    DescribeAcls { filter: AclBinding },
    CreateAcls { binding: AclBinding },
    DeleteAcls { binding: AclBinding },
    ProduceBatch {
        topic: String,
        key: String,
        transaction_id: String,
        num_partitions: u32,
        batch: Vec<u8>,
    },
    Fetch { topic: String, partition: u32, offset: u64, max_bytes: u32 },
    FetchCommitted { topic: String, partition: u32, offset: u64, max_bytes: u32 },
    FetchByTimestamp { topic: String, partition: u32, target_timestamp: u64, max_bytes: u32 },
    CommitOffset { group_id: String, topic: String, partition: u32, offset: u64 },
    FetchOffset { group_id: String, topic: String, partition: u32 },
    OffsetCommit {
        group_id: String,
        topic: String,
        partition: u32,
        offset: u64,
        metadata: String,
    },
    OffsetFetch { group_id: String, topic: String, partition: u32 },
    Seek { topic: String, partition: u32, offset: u64 },
    LatestOffset { topic: String, partition: u32 },
    BeginTx { transaction_id: String, producer_id: u64 },
    CommitTx { transaction_id: String },
    AbortTx { transaction_id: String },
    InitProducerId { transactional_id: String },
    AddPartitionsToTxn {
        transactional_id: String,
        producer_id: u64,
        producer_epoch: i16,
        topics: Vec<(String, Vec<u32>)>,
    },
    EndTxn {
        transactional_id: String,
        producer_id: u64,
        producer_epoch: i16,
        committed: bool,
    },
    ListTopics,
    DescribeCluster,
    CreateTopic { topic: String, partitions: u32 },
    DeleteTopic { topic: String },
    DescribeTopic { topic: String },
    JoinGroup {
        group_id: String,
        member_id: String,
        protocols: Vec<String>,
        group_instance_id: Option<String>,
    },
    SyncGroup {
        group_id: String,
        generation_id: u32,
        member_id: String,
        assignments: Vec<MemberAssignment>,
    },
    Heartbeat { group_id: String, generation_id: u32, member_id: String },
    LeaveGroup { group_id: String, member_id: String, group_instance_id: Option<String> },
    ListGroups,
    DescribeGroup { group_id: String },
    RegisterBroker { node_id: u32, endpoint: String },
    UnregisterBroker { node_id: u32 },
    ShareFetch {
        group_id: String,
        member_id: String,
        topic: String,
        partition: u32,
        max_records: u32,
        lock_timeout_ms: u32,
        acknowledgements: Vec<AckBatch>,
    },
    ShareAcknowledge {
        group_id: String,
        member_id: String,
        topic: String,
        partition: u32,
        acknowledgements: Vec<AckBatch>,
    },
    ShareGroupHeartbeat { group_id: String, member_id: String },
    ShareGroupDescribe { group_id: String },
    DescribeConfigs { topic: String },
    AlterConfigs { topic: String, configs: Vec<(String, String)> },
    IncrementalAlterConfigs {
        topic: String,
        upserts: Vec<(String, String)>,
        deletes: Vec<String>,
    },
}

/// What a request is allowed before its sender has said who it is.
pub open spec fn allowed_unknown(p: RequestPayload) -> bool {
    p is SaslHandshake || p is SaslAuthenticate || p is SetClientId || p is Ping
        || p is NegotiateProtocol
}

/// Whether a request is allowed before its sender has said who it is.
pub fn is_allowed_unknown(p: &RequestPayload) -> (r: bool)
    ensures
        r == allowed_unknown(*p),
{
    match p {
        RequestPayload::SaslHandshake { .. } => true,
        RequestPayload::SaslAuthenticate { .. } => true,
        RequestPayload::SetClientId { .. } => true,
        RequestPayload::Ping => true,
        RequestPayload::NegotiateProtocol => true,
        _ => false,
    }
}

/// Whether a request changes the cluster's metadata, which only the cluster's leader does.
pub open spec fn changes_metadata(p: RequestPayload) -> bool {
    ||| p is CreateTopic
    ||| p is DeleteTopic
    ||| p is RegisterBroker
    ||| p is UnregisterBroker
    ||| p is CreateAcls
    ||| p is DeleteAcls
    ||| p is UpsertScramUser
    ||| p is DeleteScramUser
    ||| p is AlterConfigs
    ||| p is IncrementalAlterConfigs
}

/// Whether a request changes the cluster's metadata.
pub fn is_controller_mutation(p: &RequestPayload) -> (r: bool)
    ensures
        r == changes_metadata(*p),
{
    match p {
        RequestPayload::CreateTopic { .. } => true,
        RequestPayload::DeleteTopic { .. } => true,
        RequestPayload::RegisterBroker { .. } => true,
        RequestPayload::UnregisterBroker { .. } => true,
        RequestPayload::CreateAcls { .. } => true,
        RequestPayload::DeleteAcls { .. } => true,
        RequestPayload::UpsertScramUser { .. } => true,
        RequestPayload::DeleteScramUser { .. } => true,
        RequestPayload::AlterConfigs { .. } => true,
        RequestPayload::IncrementalAlterConfigs { .. } => true,
        _ => false,
    }
}

} // verus!
