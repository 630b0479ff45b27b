//! What clients must be allowed, where their requests go, and how they are answered.
use crate::acl::{passes, AclOperation, ResourceType, Rule};
use crate::codec::{be, lemma_number_be, lemma_ranges, number, pascal};
use crate::engine::metadata::RecordView;
use crate::engine::produce::target_partition;
use crate::engine::state::{leader_of, leads, listed, replicates, StorageEngine};
use crate::internode::{forwarded, ForwardReply};
use crate::placement::topic_fault;
use crate::request::payload::RequestPayload;
use crate::request::process::{
    misdirected, node_list, offered, processed, rule_list, topic_list, Step,
};
use crate::request::replies::{
    assignments_bytes, cluster_bytes, concluded, endpoints_bytes, numbers_bytes, outcome_bytes,
    rule_bytes, rules_bytes, Outcome,
};
use crate::request::rights::{first_refusal, granted, rights, Right};
use crate::request::route::{brings_token, host_of, leader_address, routed, token_needed, Route};
use crate::request::serve::{
    concern, group_task, metadata_task, share_task, topic_task, transaction_task, Task,
};
use crate::sasl::{is_plus, mechanism_named, IdentityView};
use crate::wire::{fetch_header, framed_success, list_bytes, pair_bytes, texts_bytes, ResponseView};
use crate::engine::admin::offers;
use crate::coordinator::groups::{beaten_by, left_by, synced_by, GroupCoordinator};
use crate::coordinator::group::text_of;
use crate::share::manager::{acknowledged_by, ShareGroupManager};
use crate::engine::txn::{begun_by, begun_producing, joined_by, InitStep};
use crate::assoc::AssocMap;
use crate::engine::brokers::address_of;
use crate::text::text_before;
use vstd::prelude::*;
use vstd::utf8::*;

verus! {

/// Whether a right on a resource is among those that are needed.
pub open spec fn is_needed(
    s: Seq<Right>,
    operation: AclOperation,
    resource: ResourceType,
    name: Seq<char>,
) -> bool {
    exists|i: int|
        0 <= i < s.len() && (#[trigger] s[i]).operation == operation && s[i].resource == resource
            && s[i].name == name
}

/// Writing to a topic takes the right to write to it, and reading from it the right to read from
/// it, in whatever way.
pub proof fn records_are_guarded(p: RequestPayload)
    ensures
        p matches RequestPayload::ProduceBatch { topic, .. } ==> is_needed(
            rights(p),
            AclOperation::Write,
            ResourceType::Topic,
            topic@,
        ),
        p matches RequestPayload::Fetch { topic, .. } ==> is_needed(
            rights(p),
            AclOperation::Read,
            ResourceType::Topic,
            topic@,
        ),
        p matches RequestPayload::FetchCommitted { topic, .. } ==> is_needed(
            rights(p),
            AclOperation::Read,
            ResourceType::Topic,
            topic@,
        ),
        p matches RequestPayload::FetchByTimestamp { topic, .. } ==> is_needed(
            rights(p),
            AclOperation::Read,
            ResourceType::Topic,
            topic@,
        ),
        p matches RequestPayload::Seek { topic, .. } ==> is_needed(
            rights(p),
            AclOperation::Read,
            ResourceType::Topic,
            topic@,
        ),
        p matches RequestPayload::ShareFetch { topic, group_id, .. } ==> is_needed(
            rights(p),
            AclOperation::Read,
            ResourceType::Topic,
            topic@,
        ) && is_needed(rights(p), AclOperation::Read, ResourceType::Group, group_id@),
{
    let s = rights(p);
    if s.len() > 0 {
        let first = s[0];
        assert(s[0] == first);
    }
    if s.len() > 1 {
        let second = s[1];
        assert(s[1] == second);
    }
}

/// Taking part in a group takes the right to read from it, and asking about it the right to
/// describe it.
pub proof fn groups_are_guarded(p: RequestPayload)
    ensures
        p matches RequestPayload::JoinGroup { group_id, .. } ==> is_needed(
            rights(p),
            AclOperation::Read,
            ResourceType::Group,
            group_id@,
        ),
        p matches RequestPayload::SyncGroup { group_id, .. } ==> is_needed(
            rights(p),
            AclOperation::Read,
            ResourceType::Group,
            group_id@,
        ),
        p matches RequestPayload::Heartbeat { group_id, .. } ==> is_needed(
            rights(p),
            AclOperation::Read,
            ResourceType::Group,
            group_id@,
        ),
        p matches RequestPayload::LeaveGroup { group_id, .. } ==> is_needed(
            rights(p),
            AclOperation::Read,
            ResourceType::Group,
            group_id@,
        ),
        p matches RequestPayload::CommitOffset { group_id, .. } ==> is_needed(
            rights(p),
            AclOperation::Read,
            ResourceType::Group,
            group_id@,
        ),
        p matches RequestPayload::OffsetCommit { group_id, .. } ==> is_needed(
            rights(p),
            AclOperation::Read,
            ResourceType::Group,
            group_id@,
        ),
        p matches RequestPayload::FetchOffset { group_id, .. } ==> is_needed(
            rights(p),
            AclOperation::Describe,
            ResourceType::Group,
            group_id@,
        ),
        p matches RequestPayload::OffsetFetch { group_id, .. } ==> is_needed(
            rights(p),
            AclOperation::Describe,
            ResourceType::Group,
            group_id@,
        ),
        p matches RequestPayload::DescribeGroup { group_id } ==> is_needed(
            rights(p),
            AclOperation::Describe,
            ResourceType::Group,
            group_id@,
        ),
        p matches RequestPayload::ShareAcknowledge { group_id, .. } ==> is_needed(
            rights(p),
            AclOperation::Read,
            ResourceType::Group,
            group_id@,
        ),
        p matches RequestPayload::ShareGroupHeartbeat { group_id, .. } ==> is_needed(
            rights(p),
            AclOperation::Read,
            ResourceType::Group,
            group_id@,
        ),
        p matches RequestPayload::ShareGroupDescribe { group_id } ==> is_needed(
            rights(p),
            AclOperation::Describe,
            ResourceType::Group,
            group_id@,
        ),
{
    let s = rights(p);
    if s.len() > 0 {
        let first = s[0];
        assert(s[0] == first);
    }
}

/// Whatever is done under a transactional id takes the right to write under it.
pub proof fn transactions_are_guarded(p: RequestPayload)
    ensures
        p matches RequestPayload::BeginTx { transaction_id, .. } ==> is_needed(
            rights(p),
            AclOperation::Write,
            ResourceType::TransactionalId,
            transaction_id@,
        ),
        p matches RequestPayload::CommitTx { transaction_id } ==> is_needed(
            rights(p),
            AclOperation::Write,
            ResourceType::TransactionalId,
            transaction_id@,
        ),
        p matches RequestPayload::AbortTx { transaction_id } ==> is_needed(
            rights(p),
            AclOperation::Write,
            ResourceType::TransactionalId,
            transaction_id@,
        ),
        p matches RequestPayload::AddPartitionsToTxn { transactional_id, .. } ==> is_needed(
            rights(p),
            AclOperation::Write,
            ResourceType::TransactionalId,
            transactional_id@,
        ),
        p matches RequestPayload::EndTxn { transactional_id, .. } ==> is_needed(
            rights(p),
            AclOperation::Write,
            ResourceType::TransactionalId,
            transactional_id@,
        ),
        p matches RequestPayload::InitProducerId { transactional_id } ==> (transactional_id@.len()
            > 0 ==> is_needed(
            rights(p),
            AclOperation::Write,
            ResourceType::TransactionalId,
            transactional_id@,
        )),
{
    let s = rights(p);
    if s.len() > 0 {
        let first = s[0];
        assert(s[0] == first);
    }
}

/// Topics are created, deleted, described and configured with a right on the topic; rules, users
/// and nodes are changed with a right on the cluster.
pub proof fn administration_is_guarded(p: RequestPayload)
    ensures
        p matches RequestPayload::CreateTopic { topic, .. } ==> is_needed(
            rights(p),
            AclOperation::Create,
            ResourceType::Topic,
            topic@,
        ),
        p matches RequestPayload::DeleteTopic { topic } ==> is_needed(
            rights(p),
            AclOperation::Delete,
            ResourceType::Topic,
            topic@,
        ),
        p matches RequestPayload::DescribeTopic { topic } ==> is_needed(
            rights(p),
            AclOperation::Describe,
            ResourceType::Topic,
            topic@,
        ),
        p matches RequestPayload::LatestOffset { topic, .. } ==> is_needed(
            rights(p),
            AclOperation::Describe,
            ResourceType::Topic,
            topic@,
        ),
        p matches RequestPayload::DescribeConfigs { topic } ==> is_needed(
            rights(p),
            AclOperation::DescribeConfigs,
            ResourceType::Topic,
            topic@,
        ),
        p matches RequestPayload::AlterConfigs { topic, .. } ==> is_needed(
            rights(p),
            AclOperation::AlterConfigs,
            ResourceType::Topic,
            topic@,
        ),
        p matches RequestPayload::IncrementalAlterConfigs { topic, .. } ==> is_needed(
            rights(p),
            AclOperation::AlterConfigs,
            ResourceType::Topic,
            topic@,
        ),
        p is CreateAcls || p is DeleteAcls || p is UpsertScramUser || p is DeleteScramUser
            || p is RegisterBroker || p is UnregisterBroker ==> rights(p).len() > 0 && rights(
            p,
        )[0].operation == AclOperation::Alter && rights(p)[0].resource == ResourceType::Cluster,
        p is DescribeAcls || p is ListTopics || p is DescribeCluster || p is ListGroups ==> rights(
            p,
        ).len() > 0 && rights(p)[0].operation == AclOperation::Describe && rights(p)[0].resource
            == ResourceType::Cluster,
{
    let s = rights(p);
    if s.len() > 0 {
        let first = s[0];
        assert(s[0] == first);
    }
}

/// A refusal says what kind of resource the right is missing on.
pub proof fn a_refusal_names_the_kind_of_resource(
    e: StorageEngine,
    principal: Seq<char>,
    host: Seq<char>,
    r: Right,
)
    requires
        !granted(e, principal, host, r),
    ensures
        ({
            let told = first_refusal(e, principal, host, seq![r]);
            &&& told is Some
            &&& r.resource == ResourceType::Topic ==> told == Some("TopicAuthorizationFailed"@)
            &&& r.resource == ResourceType::Group ==> told == Some("GroupAuthorizationFailed"@)
            &&& r.resource == ResourceType::TransactionalId ==> told == Some(
                "TransactionalIdAuthorizationFailed"@,
            )
            &&& r.resource == ResourceType::Cluster ==> told == Some("ClusterAuthorizationFailed"@)
        }),
{
}

/// A connection has to bring the token where one is asked for and clients do not say who they are
/// in another way, unless it comes from the host of a peer.
pub proof fn strangers_bring_the_token(e: StorageEngine, peer_addr: Seq<char>, i: int)
    ensures
        e.config.auth_token is None ==> !token_needed(e, peer_addr),
        e.config.sasl_required ==> !token_needed(e, peer_addr),
        0 <= i < e.config.peer_addrs@.len() && e.config.peer_addrs@[i]@ == peer_addr
            ==> !token_needed(e, peer_addr),
        0 <= i < e.config.peer_addrs@.len() && host_of(e.config.peer_addrs@[i]@) == host_of(
            peer_addr,
        ) ==> !token_needed(e, peer_addr),
        e.config.auth_token is Some && !e.config.sasl_required && (forall|k: int|
            0 <= k < e.config.peer_addrs@.len() ==> host_of((#[trigger] e.config.peer_addrs@[k])@)
                != host_of(peer_addr)) ==> token_needed(e, peer_addr),
{
}

/// The host of an address is what stands before its first colon, or all of it.
pub proof fn a_host_stands_before_the_colon(host: Seq<char>, port: Seq<char>)
    requires
        !host.contains(':'),
    ensures
        host_of(host + seq![':'] + port) == host,
        host_of(host) == host,
{
    let s = host + seq![':'] + port;
    let k = host.len() as int;
    assert(s[k] == ':');
    assert(s.contains(':'));
    s.index_of_first_ensures(':');
    let i = s.index_of_first(':')->0;
    if i < k {
        assert(host[i] == ':');
        assert(host.contains(':'));
    }
    assert(s.take(k) =~= host);
}

/// Only the token itself, behind the four bytes that announce it, is taken for it.
pub proof fn only_the_token_is_the_token(token: Seq<char>, first: Seq<u8>)
    ensures
        brings_token(token, first) <==> first.len() >= 4 && first[0] == 0xCA && first[1] == 0xFE
            && first[2] == 0xBA && first[3] == 0xBE && first.skip(4) == encode_utf8(token),
{
    let m = seq![0xCAu8, 0xFEu8, 0xBAu8, 0xBEu8];
    if first.len() >= 4 && first[0] == 0xCA && first[1] == 0xFE && first[2] == 0xBA && first[3]
        == 0xBE && first.skip(4) == encode_utf8(token) {
        assert(first =~= m + first.skip(4));
    }
    if brings_token(token, first) {
        assert((m + encode_utf8(token)).skip(4) =~= encode_utf8(token));
    }
}

/// A write that is not for this node goes to the partition's leader, where its address is known,
/// else to the cluster's leader; where neither is known it is refused.
pub proof fn writes_go_to_the_leader(
    e: StorageEngine,
    p: RequestPayload,
    r: Route,
    topic: Seq<char>,
    partition: u32,
    id: u32,
)
    requires
        p matches RequestPayload::ProduceBatch { topic: t, key, num_partitions, .. } && t@ == topic
            && target_partition(key@, num_partitions) == partition,
        routed(e, p, false, r),
        leader_of(e@, topic, partition) == Some(id),
        id != e.config.node_id,
    ensures
        e@.brokers.contains_key(id) && e@.brokers[id].addr is Some ==> (
        r matches Route::Forward { addr } && addr@ == e@.brokers[id].addr->0),
        !(e@.brokers.contains_key(id) && e@.brokers[id].addr is Some) && e.role.leader_addr is Some
            ==> (r matches Route::Forward { addr } && addr@ == e.role.leader_addr->0@),
        !(e@.brokers.contains_key(id) && e@.brokers[id].addr is Some) && e.role.leader_addr is None
            ==> r is Refuse,
{
    assert(leader_address(e, topic, partition) == (if e@.brokers.contains_key(id)
        && e@.brokers[id].addr is Some {
        e@.brokers[id].addr
    } else {
        match e.role.leader_addr {
            Some(a) => Some(a@),
            None => None,
        }
    }));
}

/// A change of the metadata that reaches another node than the cluster's leader is passed on to
/// that one.
pub proof fn changes_go_to_the_controller(e: StorageEngine, p: RequestPayload, r: Route)
    requires
        p is CreateTopic || p is DeleteTopic || p is RegisterBroker || p is UnregisterBroker
            || p is CreateAcls || p is DeleteAcls || p is UpsertScramUser || p is DeleteScramUser
            || p is AlterConfigs || p is IncrementalAlterConfigs,
        routed(e, p, false, r),
    ensures
        e.role.is_leader ==> r is Here,
        !e.role.is_leader && e.role.leader_addr is Some ==> (r matches Route::Forward { addr }
            && addr@ == e.role.leader_addr->0@),
        !e.role.is_leader && e.role.leader_addr is None ==> r is Refuse,
{
}

/// Records are read from a replica, and written to the leader; another node says that it is
/// neither.
pub proof fn the_wrong_node_says_so(e: StorageEngine, p: RequestPayload)
    ensures
        p matches RequestPayload::Fetch { topic, partition, .. } ==> (misdirected(
            e,
            p,
            false,
        ) is None <==> replicates(e@, e.config, topic@, partition)),
        p matches RequestPayload::FetchCommitted { topic, partition, .. } ==> (misdirected(
            e,
            p,
            false,
        ) is None <==> replicates(e@, e.config, topic@, partition)),
        p matches RequestPayload::ShareFetch { topic, partition, .. } ==> (misdirected(
            e,
            p,
            false,
        ) is None <==> replicates(e@, e.config, topic@, partition)),
        p matches RequestPayload::ProduceBatch { topic, key, num_partitions, .. } ==> (misdirected(
            e,
            p,
            false,
        ) is None <==> topic_fault(topic@) is None && leads(
            e@,
            e.config,
            e.role.is_leader,
            topic@,
            target_partition(key@, num_partitions),
        )),
        p matches RequestPayload::DeleteTopic { topic } ==> (misdirected(e, p, false) is None
            <==> topic_fault(topic@) is None),
{
}

/// On the cluster's leader a request to change the metadata becomes the one record that says what
/// it asks for; on any other node it fails.
pub proof fn a_request_becomes_its_record(
    e: StorageEngine,
    p: RequestPayload,
    ratio_ok: Seq<bool>,
    t: Task,
)
    requires
        metadata_task(e, p, ratio_ok, t),
        p is DeleteTopic || p is RegisterBroker || p is UnregisterBroker || p is CreateAcls
            || p is DeleteAcls || p is UpsertScramUser || p is DeleteScramUser,
    ensures
        !e.role.is_leader ==> (t matches Task::Answer { outcome } && outcome is Failed),
        e.role.is_leader ==> (t matches Task::Propose { records } && records@.len() == 1 && match p {
            RequestPayload::DeleteTopic { topic } => records@[0]@ == (RecordView::TopicDeleted {
                topic: topic@,
            }),
            RequestPayload::RegisterBroker { node_id, endpoint } => (
            records@[0]@ matches RecordView::BrokerRegister { node_id: n, bind_addr, .. } && n
                == node_id && bind_addr == endpoint@),
            RequestPayload::UnregisterBroker { node_id } => records@[0]@ == (
            RecordView::BrokerUnregister { node_id }),
            RequestPayload::CreateAcls { binding } => records@[0]@ == (RecordView::AclCreated {
                binding: binding@,
            }),
            RequestPayload::DeleteAcls { binding } => records@[0]@ == (RecordView::AclDeleted {
                binding: binding@,
            }),
            RequestPayload::UpsertScramUser {
                username,
                iterations,
                salt,
                stored_key,
                server_key,
            } => (records@[0]@ matches RecordView::ScramCredentialUpsert { credential }
                && credential.username == username@ && credential.iterations == iterations
                && credential.salt == salt@ && credential.stored_key == stored_key@
                && credential.server_key == server_key@),
            RequestPayload::DeleteScramUser { username } => records@[0]@ == (
            RecordView::ScramCredentialDelete { username: username@ }),
            _ => true,
        }),
{
}

/// A transaction is ended as its producer says: committed or aborted; and not at all for a
/// producer that does not hold its id.
pub proof fn a_transaction_ends_as_asked(
    before: StorageEngine,
    after: StorageEngine,
    id: String,
    producer_id: u64,
    producer_epoch: i16,
    commit: bool,
    now_ms: u64,
    t: Task,
)
    requires
        transaction_task(
            before,
            after,
            RequestPayload::EndTxn {
                transactional_id: id,
                producer_id,
                producer_epoch,
                committed: commit,
            },
            now_ms,
            t,
        ),
    ensures
        ({
            let holds = before@.producers.contains_key(id@)
                && before@.producers[id@].producer_id == producer_id
                && before@.producers[id@].producer_epoch == producer_epoch;
            &&& holds && commit ==> (t matches Task::Commit { transaction_id } && transaction_id@
                == id@)
            &&& holds && !commit ==> (t matches Task::Abort { transaction_id } && transaction_id@
                == id@)
            &&& !holds ==> (t matches Task::Answer { outcome } && outcome is Failed)
        }),
{
}

/// A request concerns one part of the broker.
pub proof fn a_request_concerns_one_part(p: RequestPayload)
    ensures
        p is SyncGroup || p is Heartbeat || p is LeaveGroup || p is ListGroups || p is DescribeGroup
            ==> concern(p) is Groups,
        p is ShareAcknowledge || p is ShareGroupHeartbeat || p is ShareGroupDescribe ==> concern(
            p,
        ) is Shares,
        p is BeginTx || p is CommitTx || p is AbortTx || p is InitProducerId
            || p is AddPartitionsToTxn || p is EndTxn ==> concern(p) is Transactions,
        p is CreateTopic || p is DeleteTopic || p is RegisterBroker || p is UnregisterBroker
            || p is CreateAcls || p is DeleteAcls || p is UpsertScramUser || p is DeleteScramUser
            || p is AlterConfigs || p is IncrementalAlterConfigs ==> concern(p) is Metadata,
        p is ProduceBatch || p is Fetch || p is FetchCommitted || p is DescribeTopic
            || p is DescribeConfigs || p is LatestOffset ==> concern(p) is Topics,
{
}

/// A client names itself with one to two hundred and fifty-six bytes, and is known by that name
/// from then on; another name is refused and changes nothing.
pub proof fn clients_name_themselves(
    e: StorageEngine,
    v: IdentityView,
    client_id: String,
    host: Seq<char>,
    w: IdentityView,
    step: Step,
)
    requires
        processed(
            e,
            v,
            RequestPayload::SetClientId { client_id },
            host,
            false,
            false,
            w,
            step,
        ),
    ensures
        w.principal == v.principal,
        w.session == v.session,
        encode_utf8(client_id@).len() == 0 ==> w == v,
        encode_utf8(client_id@).len() > 256 ==> w == v,
        0 < encode_utf8(client_id@).len() <= 256
            ==> w.logical_client_id == Some(client_id@),
{
}

/// Every mechanism that is configured is offered, in order.
pub proof fn configured_mechanisms_are_offered(e: StorageEngine, has_binding: bool, i: int)
    requires
        0 <= i < e.config.sasl_mechanisms@.len(),
    ensures
        i < offered(e, has_binding).len(),
        offered(e, has_binding)[i] == e.config.sasl_mechanisms@[i]@,
        !has_binding ==> offered(e, has_binding).len() == e.config.sasl_mechanisms@.len(),
{
    let mechs = crate::text::text_views(e.config.sasl_mechanisms@);
    assert(mechs[i] == e.config.sasl_mechanisms@[i]@);
}

/// Texts are sent one after the other, each as it is.
pub proof fn texts_are_sent_in_turn(s: Seq<Seq<char>>, n: int)
    requires
        0 <= n <= s.len(),
    ensures
        texts_bytes(s) == texts_bytes(s.take(n)) + texts_bytes(s.skip(n)),
        s.len() == 0 ==> texts_bytes(s).len() == 0,
        s.len() == 1 ==> texts_bytes(s) == be(encode_utf8(s[0]).len() as int, 2) + encode_utf8(s[0]),
        list_bytes(s) == be(s.len() as int, 4) + texts_bytes(s),
    decreases s.len(),
{
    if s.len() == 1 {
        assert(s.drop_last() =~= Seq::empty());
        assert(texts_bytes(s.drop_last()) =~= Seq::empty());
        assert(texts_bytes(s) =~= pascal(s[0]));
    }
    if n == s.len() {
        assert(s.take(n) =~= s);
        assert(s.skip(n) =~= Seq::empty());
        assert(texts_bytes(s) =~= texts_bytes(s) + Seq::<u8>::empty());
    } else {
        texts_are_sent_in_turn(s.drop_last(), n);
        assert(s.drop_last().take(n) =~= s.take(n));
        assert(s.drop_last().skip(n) =~= s.skip(n).drop_last());
        assert(s.skip(n).last() == s.last());
        assert(texts_bytes(s) =~= texts_bytes(s.take(n)) + texts_bytes(s.skip(n)));
    }
}

/// Numbers are sent one after the other, and each can be read back.
pub proof fn numbers_are_read_back(s: Seq<u32>, i: int)
    requires
        0 <= i < s.len(),
    ensures
        numbers_bytes(s).len() == 4 * s.len(),
        number(numbers_bytes(s).subrange(4 * i, 4 * i + 4)) == s[i],
    decreases s.len(),
{
    lemma_ranges();
    let less = s.drop_last();
    let last = s.len() - 1;
    lemma_number_be(s.last() as int, 4);
    if less.len() > 0 {
        let j = if i < last {
            i
        } else {
            0
        };
        numbers_are_read_back(less, j);
    } else {
        assert(numbers_bytes(less) =~= Seq::empty());
    }
    let all = numbers_bytes(s);
    let before = numbers_bytes(less);
    if i < last {
        assert(all.subrange(4 * i, 4 * i + 4) =~= before.subrange(4 * i, 4 * i + 4));
    } else {
        assert(all.subrange(4 * i, 4 * i + 4) =~= be(s.last() as int, 4));
    }
}

/// Ranges of offsets are sent one after the other, and each can be read back: first where it
/// begins, then where it ends.
pub proof fn ranges_are_read_back(s: Seq<(u64, u64)>, i: int)
    requires
        0 <= i < s.len(),
    ensures
        pair_bytes(s).len() == 16 * s.len(),
        number(pair_bytes(s).subrange(16 * i, 16 * i + 8)) == s[i].0,
        number(pair_bytes(s).subrange(16 * i + 8, 16 * i + 16)) == s[i].1,
    decreases s.len(),
{
    lemma_ranges();
    let less = s.drop_last();
    let last = s.len() - 1;
    lemma_number_be(s.last().0 as int, 8);
    lemma_number_be(s.last().1 as int, 8);
    if less.len() > 0 {
        let j = if i < last {
            i
        } else {
            0
        };
        ranges_are_read_back(less, j);
    } else {
        assert(pair_bytes(less) =~= Seq::empty());
    }
    let all = pair_bytes(s);
    let before = pair_bytes(less);
    if i < last {
        assert(all.subrange(16 * i, 16 * i + 8) =~= before.subrange(16 * i, 16 * i + 8));
        assert(all.subrange(16 * i + 8, 16 * i + 16) =~= before.subrange(
            16 * i + 8,
            16 * i + 16,
        ));
    } else {
        assert(all.subrange(16 * i, 16 * i + 8) =~= be(s.last().0 as int, 8));
        assert(all.subrange(16 * i + 8, 16 * i + 16) =~= be(s.last().1 as int, 8));
    }
}

/// A reader of a fetch finds the last stable offset, how many ranges were aborted, and how many
/// bytes of entries follow.
pub proof fn a_fetch_header_is_read_back(lso: u64, aborted: Seq<(u64, u64)>, entries_len: u32)
    requires
        0 < aborted.len() <= u32::MAX,
    ensures
        ({
            let h = fetch_header(lso, aborted, entries_len as int);
            let n = aborted.len() as int;
            &&& h.len() == 16 + 16 * n
            &&& number(h.subrange(0, 8)) == lso
            &&& number(h.subrange(8, 12)) == n
            &&& h.subrange(12, 12 + 16 * n) == pair_bytes(aborted)
            &&& number(h.subrange(12 + 16 * n, 16 + 16 * n)) == entries_len
        }),
{
    lemma_ranges();
    let n = aborted.len() as int;
    let h = fetch_header(lso, aborted, entries_len as int);
    lemma_number_be(lso as int, 8);
    lemma_number_be(n, 4);
    lemma_number_be(entries_len as int, 4);
    ranges_are_read_back(aborted, 0);
    assert(h.subrange(0, 8) =~= be(lso as int, 8));
    assert(h.subrange(8, 12) =~= be(n, 4));
    assert(h.subrange(12, 12 + 16 * n) =~= pair_bytes(aborted));
    assert(h.subrange(12 + 16 * n, 16 + 16 * n) =~= be(entries_len as int, 4));
}

/// Rules are sent one after the other, each with all that it says.
pub proof fn rules_are_sent_in_turn(s: Seq<Rule>, n: int)
    requires
        0 <= n <= s.len(),
    ensures
        rules_bytes(s) == rules_bytes(s.take(n)) + rules_bytes(s.skip(n)),
        s.len() == 0 ==> rules_bytes(s).len() == 0,
        s.len() == 1 ==> rules_bytes(s) == seq![s[0].resource_type] + pascal(s[0].resource_name)
            + seq![s[0].pattern_type] + pascal(s[0].principal) + pascal(s[0].host) + seq![
            s[0].operation,
        ] + seq![s[0].permission_type],
    decreases s.len(),
{
    if s.len() == 1 {
        assert(s.drop_last() =~= Seq::empty());
        assert(rules_bytes(s.drop_last()) =~= Seq::empty());
        assert(rules_bytes(s) =~= rule_bytes(s[0]));
        assert(seq![s[0].operation, s[0].permission_type] =~= seq![s[0].operation] + seq![
            s[0].permission_type,
        ]);
        assert(rules_bytes(s) =~= seq![s[0].resource_type] + pascal(s[0].resource_name) + seq![
            s[0].pattern_type,
        ] + pascal(s[0].principal) + pascal(s[0].host) + seq![s[0].operation] + seq![
            s[0].permission_type,
        ]);
    }
    if n == s.len() {
        assert(s.take(n) =~= s);
        assert(s.skip(n) =~= Seq::empty());
        assert(rules_bytes(s) =~= rules_bytes(s) + Seq::<u8>::empty());
    } else {
        rules_are_sent_in_turn(s.drop_last(), n);
        assert(s.drop_last().take(n) =~= s.take(n));
        assert(s.drop_last().skip(n) =~= s.skip(n).drop_last());
        assert(s.skip(n).last() == s.last());
        assert(rules_bytes(s) =~= rules_bytes(s.take(n)) + rules_bytes(s.skip(n)));
    }
}

/// Nodes are sent one after the other, each with its number and its address.
pub proof fn nodes_are_sent_in_turn(s: Seq<(u32, Seq<char>)>, n: int)
    requires
        0 <= n <= s.len(),
    ensures
        endpoints_bytes(s) == endpoints_bytes(s.take(n)) + endpoints_bytes(s.skip(n)),
        s.len() == 0 ==> endpoints_bytes(s).len() == 0,
        s.len() == 1 ==> endpoints_bytes(s) == be(s[0].0 as int, 4) + pascal(s[0].1),
    decreases s.len(),
{
    if s.len() == 1 {
        assert(s.drop_last() =~= Seq::empty());
        assert(endpoints_bytes(s.drop_last()) =~= Seq::empty());
        assert(endpoints_bytes(s) =~= be(s[0].0 as int, 4) + pascal(s[0].1));
    }
    if n == s.len() {
        assert(s.take(n) =~= s);
        assert(s.skip(n) =~= Seq::empty());
        assert(endpoints_bytes(s) =~= endpoints_bytes(s) + Seq::<u8>::empty());
    } else {
        nodes_are_sent_in_turn(s.drop_last(), n);
        assert(s.drop_last().take(n) =~= s.take(n));
        assert(s.drop_last().skip(n) =~= s.skip(n).drop_last());
        assert(s.skip(n).last() == s.last());
        assert(endpoints_bytes(s) =~= endpoints_bytes(s.take(n)) + endpoints_bytes(s.skip(n)));
    }
}

/// Assignments are sent one after the other, each with its topic, how many partitions it has, and
/// these.
pub proof fn assignments_are_sent_in_turn(s: Seq<(Seq<char>, Seq<u32>)>, n: int)
    requires
        0 <= n <= s.len(),
    ensures
        assignments_bytes(s) == assignments_bytes(s.take(n)) + assignments_bytes(s.skip(n)),
        s.len() == 0 ==> assignments_bytes(s).len() == 0,
        s.len() == 1 ==> assignments_bytes(s) == pascal(s[0].0) + be(s[0].1.len() as int, 4)
            + numbers_bytes(s[0].1),
    decreases s.len(),
{
    if s.len() == 1 {
        assert(s.drop_last() =~= Seq::empty());
        assert(assignments_bytes(s.drop_last()) =~= Seq::empty());
        assert(assignments_bytes(s) =~= pascal(s[0].0) + be(s[0].1.len() as int, 4)
            + numbers_bytes(s[0].1));
    }
    if n == s.len() {
        assert(s.take(n) =~= s);
        assert(s.skip(n) =~= Seq::empty());
        assert(assignments_bytes(s) =~= assignments_bytes(s) + Seq::<u8>::empty());
    } else {
        assignments_are_sent_in_turn(s.drop_last(), n);
        assert(s.drop_last().take(n) =~= s.take(n));
        assert(s.drop_last().skip(n) =~= s.skip(n).drop_last());
        assert(s.skip(n).last() == s.last());
        assert(assignments_bytes(s) =~= assignments_bytes(s.take(n)) + assignments_bytes(
            s.skip(n),
        ));
    }
}

/// A success as it is sent reads as a whole reply to a node that passed the request on, with the
/// same status, length and payload.
pub proof fn a_reply_reads_as_it_was_sent(
    correlation: Option<u32>,
    payload: Seq<u8>,
    r: ForwardReply,
)
    requires
        payload.len() <= 67_108_864,
        forwarded(framed_success(correlation, payload), r),
    ensures
        r matches ForwardReply::Done { response } && response@ == seq![0u8] + be(
            payload.len() as int,
            4,
        ) + payload,
{
    lemma_ranges();
    let n = payload.len() as int;
    let s = framed_success(correlation, payload);
    let body = seq![0u8] + be(n, 4) + payload;
    lemma_number_be(n, 4);
    match correlation {
        Some(c) => {
            lemma_number_be(c as int, 4);
            assert(s[0] == 0xF1);
            assert(s.subrange(6, 10) =~= be(n, 4));
            assert(s.subrange(5, 10 + n) =~= body);
        },
        None => {
            assert(s =~= body);
            assert(s[0] == 0);
            assert(s.subrange(1, 5) =~= be(n, 4));
            assert(s.subrange(0, 5 + n) =~= body);
        },
    }
}

/// A producer is told to which partition its records went, and the offsets of the first and the
/// last.
pub proof fn a_producer_is_told_its_offsets(
    p: RequestPayload,
    partition: u32,
    first_offset: u64,
    last_offset: u64,
)
    ensures
        outcome_bytes(p, Outcome::Produced { partition, first_offset, last_offset }) matches Some(b)
            && {
            &&& b.len() == 20
            &&& number(b.subrange(0, 4)) == partition
            &&& number(b.subrange(4, 12)) == first_offset
            &&& number(b.subrange(12, 20)) == last_offset
        },
{
    lemma_ranges();
    lemma_number_be(partition as int, 4);
    lemma_number_be(first_offset as int, 8);
    lemma_number_be(last_offset as int, 8);
    let b = be(partition as int, 4) + be(first_offset as int, 8) + be(last_offset as int, 8);
    assert(b.subrange(0, 4) =~= be(partition as int, 4));
    assert(b.subrange(4, 12) =~= be(first_offset as int, 8));
    assert(b.subrange(12, 20) =~= be(last_offset as int, 8));
}

/// A consumer is told the offset that its group committed, or the highest number if it committed
/// none; the end of a log is told as it is, and a producer its number.
pub proof fn offsets_are_told(p: RequestPayload, offset: Option<u64>, end: u64, id: u64, epoch: i16)
    ensures
        outcome_bytes(p, Outcome::Committed { offset }) matches Some(b) && number(b) == (match offset {
            Some(x) => x,
            None => u64::MAX,
        }),
        outcome_bytes(p, Outcome::Watermark { end }) matches Some(b) && number(b) == end,
        outcome_bytes(p, Outcome::Producer { producer_id: id, producer_epoch: epoch }) matches Some(
            b,
        ) && number(b.subrange(0, 8)) == id && (epoch >= 0 ==> number(b.subrange(8, 10)) == epoch),
{
    lemma_ranges();
    lemma_number_be(end as int, 8);
    lemma_number_be(id as int, 8);
    lemma_number_be(
        match offset {
            Some(x) => x as int,
            None => u64::MAX as int,
        },
        8,
    );
    let e: int = if epoch < 0 {
        epoch + 0x1_0000
    } else {
        epoch as int
    };
    lemma_number_be(e, 2);
    let b = be(id as int, 8) + be(e, 2);
    assert(b.subrange(0, 8) =~= be(id as int, 8));
    assert(b.subrange(8, 10) =~= be(e, 2));
}

/// Whatever fails is answered as a failure, and what is done as a success.
pub proof fn failures_are_told_from_successes(p: RequestPayload, o: Outcome)
    ensures
        o is Failed || o is AckFailed || o is Missing ==> (concluded(p, o) matches Some(r)
            && r is Failure),
        o is Done || o is Produced || o is Committed || o is Watermark || o is Producer ==> (
        concluded(p, o) matches Some(r) && r is Success),
{
}

/// A mechanism is agreed on if and only if it is offered; whoever asks for another is told so, and
/// stays as it was.
pub proof fn a_mechanism_is_agreed_on_if_offered(
    e: StorageEngine,
    v: IdentityView,
    mechanism: String,
    host: Seq<char>,
    has_binding: bool,
    w: IdentityView,
    step: Step,
)
    requires
        processed(
            e,
            v,
            RequestPayload::SaslHandshake { mechanism },
            host,
            false,
            has_binding,
            w,
            step,
        ),
    ensures
        w.principal == v.principal,
        offers(offered(e, has_binding), mechanism@) ==> w.mechanism == mechanism_named(mechanism@)
            && w.is_plus == is_plus(mechanism@),
        !offers(offered(e, has_binding), mechanism@) ==> w == v,
        step matches Step::Reply { response } ==> (response@ matches ResponseView::Success {
            payload,
        } && payload.len() >= 2 && (number(payload.take(2)) == 0 <==> offers(
            offered(e, has_binding),
            mechanism@,
        ))),
{
    lemma_ranges();
    let code: int = if offers(offered(e, has_binding), mechanism@) {
        0
    } else {
        crate::sasl::UNSUPPORTED_MECHANISM as int
    };
    lemma_number_be(code, 2);
    assert((be(code, 2) + list_bytes(offered(e, has_binding))).take(2) =~= be(code, 2));
}

/// A transaction that was begun, or that partitions joined, is written down; what was refused
/// fails.
pub proof fn steps_of_a_transaction_are_written_down(
    before: StorageEngine,
    after: StorageEngine,
    p: RequestPayload,
    now_ms: u64,
    t: Task,
)
    requires
        transaction_task(before, after, p, now_ms, t),
    ensures
        p matches RequestPayload::BeginTx { transaction_id, producer_id } ==> exists|
            r: Result<Option<Vec<u8>>, String>,
        |
            #[trigger] begun_by(before, after, transaction_id@, producer_id, now_ms, r) && (r is Ok
                ==> t is Note) && (r is Err ==> (t matches Task::Answer { outcome }
                && outcome is Failed)),
        p matches RequestPayload::AddPartitionsToTxn {
            transactional_id,
            producer_id,
            producer_epoch,
            topics,
        } ==> exists|r: Result<Option<Vec<u8>>, String>|
            #[trigger] joined_by(
                before,
                after,
                transactional_id@,
                producer_id,
                producer_epoch,
                topics@,
                now_ms,
                r,
            ) && (r is Ok ==> t is Note) && (r is Err ==> (t matches Task::Answer { outcome }
                && outcome is Failed)),
        p matches RequestPayload::InitProducerId { transactional_id } ==> exists|
            r: Result<InitStep, String>,
        |
            #[trigger] begun_producing(before, after, transactional_id@, r) && (r is Ok
                ==> t is Register) && (r is Err ==> (t matches Task::Answer { outcome }
                && outcome is Failed)),
        p matches RequestPayload::CommitTx { transaction_id } ==> (t matches Task::Commit {
            transaction_id: id,
        } && id@ == transaction_id@),
        p matches RequestPayload::AbortTx { transaction_id } ==> (t matches Task::Abort {
            transaction_id: id,
        } && id@ == transaction_id@),
{
}

/// What a member asks of its group is done in that group, and it is told whether it was.
pub proof fn members_are_answered_by_their_group(
    before: GroupCoordinator,
    after: GroupCoordinator,
    p: RequestPayload,
    now: u64,
    t: Task,
)
    requires
        group_task(before, after, p, now, t),
    ensures
        p matches RequestPayload::SyncGroup { group_id, generation_id, member_id, assignments }
            ==> exists|r: Result<AssocMap<Vec<u32>>, String>|
            #[trigger] synced_by(
                before,
                after,
                group_id@,
                generation_id,
                member_id@,
                assignments@,
                now,
                r,
            ) && (t matches Task::Answer { outcome } && (r is Ok ==> outcome is Assigned) && (
            r is Err ==> outcome is Failed)),
        p matches RequestPayload::Heartbeat { group_id, generation_id, member_id } ==> exists|
            r: Result<(), String>,
        |
            #[trigger] beaten_by(before, after, group_id@, generation_id, member_id@, now, r) && (
            t matches Task::Answer { outcome } && (r is Ok ==> outcome is Done) && (r is Err
                ==> outcome is Failed)),
        p matches RequestPayload::LeaveGroup { group_id, member_id, group_instance_id } ==> exists|
            r: Result<(), String>,
        |
            #[trigger] left_by(
                before,
                after,
                group_id@,
                member_id@,
                text_of(group_instance_id),
                r,
            ) && (t matches Task::Answer { outcome } && (r is Ok ==> outcome is Done) && (r is Err
                ==> outcome is Failed)),
{
}

/// What a member of a share group asks is done in that group, at that partition.
pub proof fn sharers_are_answered_by_their_group(
    before: ShareGroupManager,
    after: ShareGroupManager,
    p: RequestPayload,
    now: u64,
    t: Task,
)
    requires
        share_task(before, after, p, now, t),
    ensures
        p matches RequestPayload::ShareAcknowledge {
            group_id,
            member_id,
            topic,
            partition,
            acknowledgements,
        } ==> after.heard(before, group_id@, member_id@, now) && (t matches Task::Acknowledged {
            rejected,
            write,
        } && acknowledged_by(
            before,
            after,
            group_id@,
            member_id@,
            topic@,
            partition,
            acknowledgements@,
            now,
            (rejected, write),
        )),
        p matches RequestPayload::ShareGroupHeartbeat { group_id, member_id } ==> after.heard(
            before,
            group_id@,
            member_id@,
            now,
        ) && after.partitions == before.partitions && (t matches Task::Answer { outcome }
            && outcome is Done),
        p is ShareGroupDescribe ==> after == before,
{
}

/// A topic that is not there is missed, and one that is there is described.
pub proof fn topics_are_described(e: StorageEngine, topic: String, t: Task)
    requires
        topic_task(e, RequestPayload::DescribeTopic { topic }, t),
    ensures
        e@.deleting.contains(topic@) ==> (t matches Task::Answer { outcome } && outcome is Missing),
        e@.topics.contains_key(topic@) && !e@.deleting.contains(topic@)
            ==> t is DescribeTopic,
{
}

/// Clients are shown every topic that they may see, once, in order, and no other.
pub proof fn every_topic_is_listed_once(
    e: StorageEngine,
    names: Seq<Seq<char>>,
    topic: Seq<char>,
    i: int,
    j: int,
)
    requires
        topic_list(e, names),
    ensures
        names.contains(topic) <==> listed(e@, topic),
        0 <= i < j < names.len() ==> text_before(names[i], names[j]),
{
}

/// Clients are told of every node whose address is known, once, in order, with that address.
pub proof fn every_node_is_listed_once(
    e: StorageEngine,
    nodes: Seq<(u32, Seq<char>)>,
    id: u32,
    i: int,
    j: int,
)
    requires
        node_list(e, nodes),
    ensures
        e@.brokers.contains_key(id) && e@.brokers[id].addr is Some ==> exists|k: int|
            0 <= k < nodes.len() && (#[trigger] nodes[k]).0 == id,
        0 <= i < nodes.len() ==> e@.brokers.contains_key(nodes[i].0) && e@.brokers[nodes[i].0].addr
            == Some(nodes[i].1),
        0 <= i < j < nodes.len() ==> nodes[i].0 < nodes[j].0,
{
    if 0 <= i < nodes.len() {
        assert(address_of(e@.brokers, nodes[i].0) == Some(nodes[i].1));
    }
    if e@.brokers.contains_key(id) && e@.brokers[id].addr is Some {
        assert(address_of(e@.brokers, id) is Some);
        let k = choose|k: int| 0 <= k < nodes.len() && nodes[k].0 == id;
        assert(nodes[k].0 == id);
    }
}

/// A filter finds every rule that it lets through, once, and no other.
pub proof fn every_rule_is_listed_once(
    e: StorageEngine,
    filter: Rule,
    rules: Seq<Rule>,
    x: Rule,
    i: int,
    j: int,
)
    requires
        rule_list(e, filter, rules),
    ensures
        rules.contains(x) <==> e@.acls.contains(x) && passes(filter, x),
        0 <= i < j < rules.len() ==> rules[i] != rules[j],
{
}

/// A description of the cluster begins with its id, then says which node this is and whether it
/// leads, how many nodes there are, and then lists them.
pub proof fn a_cluster_is_described(
    cluster_id: Seq<char>,
    node_id: u32,
    is_leader: bool,
    nodes: Seq<(u32, Seq<char>)>,
)
    requires
        encode_utf8(cluster_id).len() < 0x1_0000,
        nodes.len() <= u32::MAX,
    ensures
        ({
            let b = cluster_bytes(cluster_id, node_id, is_leader, nodes);
            let n = 2 + encode_utf8(cluster_id).len() as int;
            &&& number(b.subrange(0, 2)) == encode_utf8(cluster_id).len()
            &&& b.subrange(2, n) == encode_utf8(cluster_id)
            &&& number(b.subrange(n, n + 4)) == node_id
            &&& b[n + 4] == 1 <==> is_leader
            &&& number(b.subrange(n + 5, n + 9)) == nodes.len()
            &&& b.skip(n + 9) == endpoints_bytes(nodes)
        }),
{
    lemma_ranges();
    let u = encode_utf8(cluster_id);
    let b = cluster_bytes(cluster_id, node_id, is_leader, nodes);
    let n = 2 + u.len() as int;
    lemma_number_be(u.len() as int, 2);
    lemma_number_be(node_id as int, 4);
    lemma_number_be(nodes.len() as int, 4);
    assert(b.subrange(0, 2) =~= be(u.len() as int, 2));
    assert(b.subrange(2, n) =~= u);
    assert(b.subrange(n, n + 4) =~= be(node_id as int, 4));
    assert(b.subrange(n + 5, n + 9) =~= be(nodes.len() as int, 4));
    assert(b.skip(n + 9) =~= endpoints_bytes(nodes));
}

} // verus!
