//! What a client must be allowed to do for a request to be served.
use crate::acl::{allowed, AclOperation, ResourceType};
use crate::engine::state::StorageEngine;
use crate::request::payload::{changes_metadata, RequestPayload};
use crate::text::owned;
use vstd::prelude::*;
use vstd::string::*;

verus! {

/// A right to do something with a resource.
pub struct Right {
    pub operation: AclOperation,
    pub resource: ResourceType,
    pub name: Seq<char>,
}

/// A right on a topic.
pub open spec fn on_topic(operation: AclOperation, name: Seq<char>) -> Right {
    Right { operation, resource: ResourceType::Topic, name }
}

/// A right on a group.
pub open spec fn on_group(operation: AclOperation, name: Seq<char>) -> Right {
    Right { operation, resource: ResourceType::Group, name }
}

/// A right on the cluster.
pub open spec fn on_cluster(operation: AclOperation) -> Right {
    Right { operation, resource: ResourceType::Cluster, name: Seq::empty() }
}

/// The right to write under a transactional id.
pub open spec fn on_transaction(name: Seq<char>) -> Right {
    Right { operation: AclOperation::Write, resource: ResourceType::TransactionalId, name }
}

/// The rights that a request needs, in the order in which they are checked.
pub open spec fn rights(p: RequestPayload) -> Seq<Right> {
    match p {
        RequestPayload::SaslHandshake { .. } => seq![],
        RequestPayload::SaslAuthenticate { .. } => seq![],
        RequestPayload::SetClientId { .. } => seq![],
        RequestPayload::Ping => seq![],
        RequestPayload::NegotiateProtocol => seq![],
        RequestPayload::UpsertScramUser { .. } => seq![on_cluster(AclOperation::Alter)],
        RequestPayload::DeleteScramUser { .. } => seq![on_cluster(AclOperation::Alter)],
        RequestPayload::DescribeAcls { .. } => seq![on_cluster(AclOperation::Describe)],
        RequestPayload::CreateAcls { .. } => seq![on_cluster(AclOperation::Alter)],
        RequestPayload::DeleteAcls { .. } => seq![on_cluster(AclOperation::Alter)],
        RequestPayload::ProduceBatch { topic, .. } => seq![on_topic(AclOperation::Write, topic@)],
        RequestPayload::Fetch { topic, .. } => seq![on_topic(AclOperation::Read, topic@)],
        RequestPayload::FetchCommitted { topic, .. } => seq![on_topic(AclOperation::Read, topic@)],
        RequestPayload::FetchByTimestamp { topic, .. } => seq![
            on_topic(AclOperation::Read, topic@),
        ],
        RequestPayload::CommitOffset { group_id, .. } => seq![
            on_group(AclOperation::Read, group_id@),
        ],
        RequestPayload::FetchOffset { group_id, .. } => seq![
            on_group(AclOperation::Describe, group_id@),
        ],
        RequestPayload::OffsetCommit { group_id, .. } => seq![
            on_group(AclOperation::Read, group_id@),
        ],
        RequestPayload::OffsetFetch { group_id, .. } => seq![
            on_group(AclOperation::Describe, group_id@),
        ],
        RequestPayload::Seek { topic, .. } => seq![on_topic(AclOperation::Read, topic@)],
        RequestPayload::LatestOffset { topic, .. } => seq![
            on_topic(AclOperation::Describe, topic@),
        ],
        RequestPayload::BeginTx { transaction_id, .. } => seq![on_transaction(transaction_id@)],
        RequestPayload::CommitTx { transaction_id } => seq![on_transaction(transaction_id@)],
        RequestPayload::AbortTx { transaction_id } => seq![on_transaction(transaction_id@)],
        RequestPayload::InitProducerId { transactional_id } => if transactional_id@.len() == 0 {
            seq![]
        } else {
            seq![on_transaction(transactional_id@)]
        },
        RequestPayload::AddPartitionsToTxn { transactional_id, .. } => seq![
            on_transaction(transactional_id@),
        ],
        RequestPayload::EndTxn { transactional_id, .. } => seq![on_transaction(transactional_id@)],
        RequestPayload::ListTopics => seq![on_cluster(AclOperation::Describe)],
        RequestPayload::DescribeCluster => seq![on_cluster(AclOperation::Describe)],
        RequestPayload::CreateTopic { topic, .. } => seq![on_topic(AclOperation::Create, topic@)],
        RequestPayload::DeleteTopic { topic } => seq![on_topic(AclOperation::Delete, topic@)],
        RequestPayload::DescribeTopic { topic } => seq![on_topic(AclOperation::Describe, topic@)],
        RequestPayload::JoinGroup { group_id, .. } => seq![
            on_group(AclOperation::Read, group_id@),
        ],
        RequestPayload::SyncGroup { group_id, .. } => seq![
            on_group(AclOperation::Read, group_id@),
        ],
        RequestPayload::Heartbeat { group_id, .. } => seq![
            on_group(AclOperation::Read, group_id@),
        ],
        RequestPayload::LeaveGroup { group_id, .. } => seq![
            on_group(AclOperation::Read, group_id@),
        ],
        RequestPayload::ListGroups => seq![on_cluster(AclOperation::Describe)],
        RequestPayload::DescribeGroup { group_id } => seq![
            on_group(AclOperation::Describe, group_id@),
        ],
        RequestPayload::RegisterBroker { .. } => seq![on_cluster(AclOperation::Alter)],
        RequestPayload::UnregisterBroker { .. } => seq![on_cluster(AclOperation::Alter)],
        RequestPayload::ShareFetch { topic, group_id, .. } => seq![
            on_topic(AclOperation::Read, topic@),
            on_group(AclOperation::Read, group_id@),
        ],
        RequestPayload::ShareAcknowledge { group_id, .. } => seq![
            on_group(AclOperation::Read, group_id@),
        ],
        RequestPayload::ShareGroupHeartbeat { group_id, .. } => seq![
            on_group(AclOperation::Read, group_id@),
        ],
        RequestPayload::ShareGroupDescribe { group_id } => seq![
            on_group(AclOperation::Describe, group_id@),
        ],
        RequestPayload::DescribeConfigs { topic } => seq![
            on_topic(AclOperation::DescribeConfigs, topic@),
        ],
        RequestPayload::AlterConfigs { topic, .. } => seq![
            on_topic(AclOperation::AlterConfigs, topic@),
        ],
        RequestPayload::IncrementalAlterConfigs { topic, .. } => seq![
            on_topic(AclOperation::AlterConfigs, topic@),
        ],
    }
}

/// How a client that lacks a right on such a resource is refused.
pub open spec fn refusal(resource: ResourceType) -> Seq<char> {
    match resource {
        ResourceType::Topic => "TopicAuthorizationFailed"@,
        ResourceType::Group => "GroupAuthorizationFailed"@,
        ResourceType::TransactionalId => "TransactionalIdAuthorizationFailed"@,
        _ => "ClusterAuthorizationFailed"@,
    }
}

/// Whether a principal at a host has a right.
pub open spec fn granted(e: StorageEngine, principal: Seq<char>, host: Seq<char>, r: Right) -> bool {
    allowed(
        e@.acls,
        principal,
        host,
        r.operation.number(),
        r.resource.number(),
        r.name,
        e.config.super_users@,
        e.config.acls_enabled,
    )
}

/// How the first right that is missing is refused, if one is.
pub open spec fn first_refusal(
    e: StorageEngine,
    principal: Seq<char>,
    host: Seq<char>,
    needed: Seq<Right>,
) -> Option<Seq<char>>
    decreases needed.len(),
{
    if needed.len() == 0 {
        None
    } else if !granted(e, principal, host, needed[0]) {
        Some(refusal(needed[0].resource))
    } else {
        first_refusal(e, principal, host, needed.skip(1))
    }
}

proof fn lemma_one(e: StorageEngine, principal: Seq<char>, host: Seq<char>, r: Right)
    ensures
        first_refusal(e, principal, host, seq![r]) == (if granted(e, principal, host, r) {
            None
        } else {
            Some(refusal(r.resource))
        }),
{
    assert(seq![r].skip(1) =~= Seq::empty());
    reveal_with_fuel(first_refusal, 2);
}

impl StorageEngine {
    fn need(
        &self,
        principal: &str,
        host: &str,
        operation: AclOperation,
        resource: ResourceType,
        name: &str,
    ) -> (r: Option<String>)
        requires
            self.wf(),
        ensures
            ({
                let right = Right { operation, resource, name: name@ };
                match r {
                    None => first_refusal(*self, principal@, host@, seq![right]) is None,
                    Some(s) => first_refusal(*self, principal@, host@, seq![right]) == Some(s@),
                }
            }),
    {
        proof {
            lemma_one(
                *self,
                principal@,
                host@,
                Right { operation, resource, name: name@ },
            );
        }
        if self.authorize(principal, host, operation.code(), resource.code(), name) {
            return None;
        }
        Some(
            match resource {
                ResourceType::Topic => owned("TopicAuthorizationFailed"),
                ResourceType::Group => owned("GroupAuthorizationFailed"),
                ResourceType::TransactionalId => owned("TransactionalIdAuthorizationFailed"),
                _ => owned("ClusterAuthorizationFailed"),
            },
        )
    }

    fn need_cluster(&self, principal: &str, host: &str, operation: AclOperation) -> (r: Option<String>)
        requires
            self.wf(),
        ensures
            match r {
                None => first_refusal(*self, principal@, host@, seq![on_cluster(operation)])
                    is None,
                Some(s) => first_refusal(*self, principal@, host@, seq![on_cluster(operation)])
                    == Some(s@),
            },
    {
        proof {
            reveal_strlit("");
            assert(""@ =~= Seq::<char>::empty());
        }
        self.need(principal, host, operation, ResourceType::Cluster, "")
    }

    /// How a request is refused for want of a right, if it is.
    pub fn check_rights(&self, principal: &str, host: &str, p: &RequestPayload) -> (r: Option<String>)
        requires
            self.wf(),
        ensures
            match r {
                None => first_refusal(*self, principal@, host@, rights(*p)) is None,
                Some(s) => first_refusal(*self, principal@, host@, rights(*p)) == Some(s@),
            },
    {
        let topic = ResourceType::Topic;
        let group = ResourceType::Group;
        let tx = ResourceType::TransactionalId;
        let write = AclOperation::Write;
        let read = AclOperation::Read;
        let describe = AclOperation::Describe;
        let alter = AclOperation::Alter;
        match p {
            RequestPayload::SaslHandshake { .. } => None,
            RequestPayload::SaslAuthenticate { .. } => None,
            RequestPayload::SetClientId { .. } => None,
            RequestPayload::Ping => None,
            RequestPayload::NegotiateProtocol => None,
            RequestPayload::UpsertScramUser { .. } => self.need_cluster(principal, host, alter),
            RequestPayload::DeleteScramUser { .. } => self.need_cluster(principal, host, alter),
            RequestPayload::DescribeAcls { .. } => self.need_cluster(principal, host, describe),
            RequestPayload::CreateAcls { .. } => self.need_cluster(principal, host, alter),
            RequestPayload::DeleteAcls { .. } => self.need_cluster(principal, host, alter),
            RequestPayload::ProduceBatch { topic: t, .. } => self.need(
                principal,
                host,
                write,
                topic,
                t.as_str(),
            ),
            RequestPayload::Fetch { topic: t, .. } => self.need(
                principal,
                host,
                read,
                topic,
                t.as_str(),
            ),
            RequestPayload::FetchCommitted { topic: t, .. } => self.need(
                principal,
                host,
                read,
                topic,
                t.as_str(),
            ),
            RequestPayload::FetchByTimestamp { topic: t, .. } => self.need(
                principal,
                host,
                read,
                topic,
                t.as_str(),
            ),
            RequestPayload::CommitOffset { group_id, .. } => self.need(
                principal,
                host,
                read,
                group,
                group_id.as_str(),
            ),
            RequestPayload::FetchOffset { group_id, .. } => self.need(
                principal,
                host,
                describe,
                group,
                group_id.as_str(),
            ),
            RequestPayload::OffsetCommit { group_id, .. } => self.need(
                principal,
                host,
                read,
                group,
                group_id.as_str(),
            ),
            RequestPayload::OffsetFetch { group_id, .. } => self.need(
                principal,
                host,
                describe,
                group,
                group_id.as_str(),
            ),
            RequestPayload::Seek { topic: t, .. } => self.need(
                principal,
                host,
                read,
                topic,
                t.as_str(),
            ),
            RequestPayload::LatestOffset { topic: t, .. } => self.need(
                principal,
                host,
                describe,
                topic,
                t.as_str(),
            ),
            RequestPayload::BeginTx { transaction_id, .. } => self.need(
                principal,
                host,
                write,
                tx,
                transaction_id.as_str(),
            ),
            RequestPayload::CommitTx { transaction_id } => self.need(
                principal,
                host,
                write,
                tx,
                transaction_id.as_str(),
            ),
            RequestPayload::AbortTx { transaction_id } => self.need(
                principal,
                host,
                write,
                tx,
                transaction_id.as_str(),
            ),
            RequestPayload::InitProducerId { transactional_id } => {
                if transactional_id.as_str().is_empty() {
                    return None;
                }
                self.need(principal, host, write, tx, transactional_id.as_str())
            },
            RequestPayload::AddPartitionsToTxn { transactional_id, .. } => self.need(
                principal,
                host,
                write,
                tx,
                transactional_id.as_str(),
            ),
            RequestPayload::EndTxn { transactional_id, .. } => self.need(
                principal,
                host,
                write,
                tx,
                transactional_id.as_str(),
            ),
            RequestPayload::ListTopics => self.need_cluster(principal, host, describe),
            RequestPayload::DescribeCluster => self.need_cluster(principal, host, describe),
            RequestPayload::CreateTopic { topic: t, .. } => self.need(
                principal,
                host,
                AclOperation::Create,
                topic,
                t.as_str(),
            ),
            RequestPayload::DeleteTopic { topic: t } => self.need(
                principal,
                host,
                AclOperation::Delete,
                topic,
                t.as_str(),
            ),
            RequestPayload::DescribeTopic { topic: t } => self.need(
                principal,
                host,
                describe,
                topic,
                t.as_str(),
            ),
            RequestPayload::JoinGroup { group_id, .. } => self.need(
                principal,
                host,
                read,
                group,
                group_id.as_str(),
            ),
            RequestPayload::SyncGroup { group_id, .. } => self.need(
                principal,
                host,
                read,
                group,
                group_id.as_str(),
            ),
            RequestPayload::Heartbeat { group_id, .. } => self.need(
                principal,
                host,
                read,
                group,
                group_id.as_str(),
            ),
            RequestPayload::LeaveGroup { group_id, .. } => self.need(
                principal,
                host,
                read,
                group,
                group_id.as_str(),
            ),
            RequestPayload::ListGroups => self.need_cluster(principal, host, describe),
            RequestPayload::DescribeGroup { group_id } => self.need(
                principal,
                host,
                describe,
                group,
                group_id.as_str(),
            ),
            RequestPayload::RegisterBroker { .. } => self.need_cluster(principal, host, alter),
            RequestPayload::UnregisterBroker { .. } => self.need_cluster(principal, host, alter),
            RequestPayload::ShareFetch { topic: t, group_id, .. } => {
                proof {
                    let a = on_topic(AclOperation::Read, t@);
                    let b = on_group(AclOperation::Read, group_id@);
                    lemma_one(*self, principal@, host@, a);
                    assert(seq![a, b].skip(1) =~= seq![b]);
                }
                match self.need(principal, host, read, topic, t.as_str()) {
                    Some(s) => Some(s),
                    None => self.need(principal, host, read, group, group_id.as_str()),
                }
            },
            RequestPayload::ShareAcknowledge { group_id, .. } => self.need(
                principal,
                host,
                read,
                group,
                group_id.as_str(),
            ),
            RequestPayload::ShareGroupHeartbeat { group_id, .. } => self.need(
                principal,
                host,
                read,
                group,
                group_id.as_str(),
            ),
            RequestPayload::ShareGroupDescribe { group_id } => self.need(
                principal,
                host,
                describe,
                group,
                group_id.as_str(),
            ),
            RequestPayload::DescribeConfigs { topic: t } => self.need(
                principal,
                host,
                AclOperation::DescribeConfigs,
                topic,
                t.as_str(),
            ),
            RequestPayload::AlterConfigs { topic: t, .. } => self.need(
                principal,
                host,
                AclOperation::AlterConfigs,
                topic,
                t.as_str(),
            ),
            RequestPayload::IncrementalAlterConfigs { topic: t, .. } => self.need(
                principal,
                host,
                AclOperation::AlterConfigs,
                topic,
                t.as_str(),
            ),
        }
    }
}

/// No request that changes the metadata is served without a right.
pub proof fn changes_need_a_right(p: RequestPayload)
    requires
        changes_metadata(p),
    ensures
        rights(p).len() > 0,
{
}

/// A request is refused exactly if one of the rights that it needs is missing.
pub proof fn a_missing_right_refuses(
    e: StorageEngine,
    principal: Seq<char>,
    host: Seq<char>,
    needed: Seq<Right>,
)
    ensures
        first_refusal(e, principal, host, needed) is None <==> forall|i: int|
            0 <= i < needed.len() ==> granted(e, principal, host, #[trigger] needed[i]),
    decreases needed.len(),
{
    if needed.len() > 0 {
        a_missing_right_refuses(e, principal, host, needed.skip(1));
        let rest = needed.skip(1);
        if granted(e, principal, host, needed[0]) && first_refusal(
            e,
            principal,
            host,
            rest,
        ) is None {
            assert forall|i: int| 0 <= i < needed.len() implies granted(
                e,
                principal,
                host,
                #[trigger] needed[i],
            ) by {
                if i > 0 {
                    assert(granted(e, principal, host, rest[i - 1]));
                }
            }
        }
        if forall|i: int|
            0 <= i < needed.len() ==> granted(e, principal, host, #[trigger] needed[i]) {
            assert(granted(e, principal, host, needed[0]));
            assert forall|i: int| 0 <= i < rest.len() implies granted(
                e,
                principal,
                host,
                #[trigger] rest[i],
            ) by {
                assert(granted(e, principal, host, needed[i + 1]));
            }
        }
    }
}

} // verus!
