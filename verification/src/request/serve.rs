//! What is done for a request here and now, and what is left to be done with files and peers.
use crate::assoc::AssocMap;
use crate::coordinator::describe::{group_described, groups_listed};
use crate::coordinator::group::{text_of, MemberView};
use crate::coordinator::groups::{
    assigned_all, beaten_by, left_by, synced_by, GroupCoordinator, GroupDescription,
    MemberAssignment,
};
use crate::engine::admin::{altered_by, configs_listed, merged_by, proposed};
use crate::engine::brokers::ProcessRole;
use crate::engine::configs::{name_views, pair_views};
use crate::engine::create::created_by;
use crate::engine::credentials::{CredentialView, ScramCredential, ScramMechanism};
use crate::engine::metadata::{MetadataRecord, RecordView};
use crate::engine::produce::{end_told, producer_fault};
use crate::engine::state::{topic_described, DescribedPartition, StorageEngine};
use crate::engine::txn::{begun_by, begun_producing, joined_by, InitStep};
use crate::request::payload::{changes_metadata, is_controller_mutation, RequestPayload};
use crate::request::replies::{assignment_views, Outcome};
use crate::share::batches::MAX_TIME;
use crate::share::manager::{acknowledged_by, PendingWrite, ShareGroupManager};
use crate::text::owned;
use vstd::prelude::*;
use vstd::slice::*;
use vstd::string::*;

verus! {

/// What is left to be done for a request.
pub enum Task {
    /// Nothing. This is what came of it.
    Answer { outcome: Outcome },
    /// To write the description of a topic.
    DescribeTopic { partitions: Vec<DescribedPartition> },
    /// To write the description of a group.
    DescribeGroup { group: GroupDescription },
    /// To write the description of a share group: its state, its members, how many records are
    /// in flight, and where it starts.
    DescribeShares { shares: (String, Vec<String>, u128, u64) },
    /// To write the settings of a topic.
    ListConfigs { configs: Vec<(String, String)> },
    /// To have the cluster agree on records, in order.
    Propose { records: Vec<MetadataRecord> },
    /// To write down where a transaction stands, if that can be written.
    Note { record: Option<Vec<u8>> },
    /// To commit a transaction.
    Commit { transaction_id: String },
    /// To abort a transaction.
    Abort { transaction_id: String },
    /// To go on with the registration of a producer.
    Register { step: InitStep },
    /// To write what was rejected to the dead-letter queue, and the partition to its log.
    Acknowledged { rejected: Vec<u64>, write: Option<PendingWrite> },
    /// To open the log of the partition first.
    Open,
    /// To serve the request from files.
    Storage,
}

/// The request failed for that reason.
pub open spec fn fails(t: Task, e: String) -> bool {
    t matches Task::Answer { outcome } && outcome == (Outcome::Failed { reason: e })
}

/// The request was done, or failed.
pub open spec fn answers(t: Task, r: Result<(), String>) -> bool {
    match r {
        Ok(()) => t matches Task::Answer { outcome } && outcome is Done,
        Err(e) => fails(t, e),
    }
}

/// There is nothing of that name.
pub open spec fn misses(t: Task, what: Seq<char>) -> bool {
    t matches Task::Answer { outcome } && outcome matches Outcome::Missing { what: w } && w@ == what
}

/// The record is proposed, or the request failed.
pub open spec fn proposes(t: Task, r: Result<MetadataRecord, String>) -> bool {
    match r {
        Ok(record) => t matches Task::Propose { records } && records@ == seq![record],
        Err(e) => fails(t, e),
    }
}

/// The records are proposed, or the request failed.
pub open spec fn proposes_all(t: Task, r: Result<Vec<MetadataRecord>, String>) -> bool {
    match r {
        Ok(records) => t == (Task::Propose { records }),
        Err(e) => fails(t, e),
    }
}

/// Where a transaction stands is written down, or the request failed.
pub open spec fn notes(t: Task, r: Result<Option<Vec<u8>>, String>) -> bool {
    match r {
        Ok(record) => t == (Task::Note { record }),
        Err(e) => fails(t, e),
    }
}

/// The member is told what it is to consume, or the request failed.
pub open spec fn assigns(t: Task, r: Result<AssocMap<Vec<u32>>, String>) -> bool {
    match r {
        Ok(own) => t matches Task::Answer { outcome } && outcome matches Outcome::Assigned {
            assignment,
        } && assignment_views(assignment@) == own.names().map(
            |i: int, name: Seq<char>| (name, own.values()[i]@),
        ),
        Err(e) => fails(t, e),
    }
}

fn fail(reason: String) -> (t: Task)
    ensures
        fails(t, reason),
{
    Task::Answer { outcome: Outcome::Failed { reason } }
}

fn done(r: Result<(), String>) -> (t: Task)
    ensures
        answers(t, r),
{
    match r {
        Ok(()) => Task::Answer { outcome: Outcome::Done },
        Err(e) => fail(e),
    }
}

fn missing(what: &str) -> (t: Task)
    ensures
        misses(t, what@),
{
    Task::Answer { outcome: Outcome::Missing { what: owned(what) } }
}

fn propose(r: Result<MetadataRecord, String>) -> (t: Task)
    ensures
        proposes(t, r),
{
    match r {
        Ok(record) => {
            let mut records: Vec<MetadataRecord> = Vec::new();
            records.push(record);
            assert(records@ =~= seq![record]);
            Task::Propose { records }
        },
        Err(e) => fail(e),
    }
}

fn note(r: Result<Option<Vec<u8>>, String>) -> (t: Task)
    ensures
        notes(t, r),
{
    match r {
        Ok(record) => Task::Note { record },
        Err(e) => fail(e),
    }
}

fn assign(r: Result<AssocMap<Vec<u32>>, String>) -> (t: Task)
    ensures
        assigns(t, r),
{
    match r {
        Ok(own) => {
            let mut assignment: Vec<(String, Vec<u32>)> = Vec::new();
            let mut i: usize = 0;
            let ghost want = own.names().map(|i: int, name: Seq<char>| (name, own.values()[i]@));
            while i < own.len()
                invariant
                    i <= own.names().len(),
                    want == own.names().map(|i: int, name: Seq<char>| (name, own.values()[i]@)),
                    assignment_views(assignment@) == want.take(i as int),
                decreases own.names().len() - i,
            {
                let name: String = own.name_at(i).clone();
                let parts: Vec<u32> = slice_to_vec(own.value_at(i).as_slice());
                assignment.push((name, parts));
                proof {
                    assert(want.take(i + 1) =~= want.take(i as int).push(want[i as int]));
                    assert(assignment_views(assignment@) =~= want.take(i + 1));
                }
                i = i + 1;
            }
            assert(want.take(i as int) =~= want);
            Task::Answer { outcome: Outcome::Assigned { assignment } }
        },
        Err(e) => fail(e),
    }
}

/// Assignments, as values.
pub open spec fn plan_views(s: Seq<MemberAssignment>) -> Seq<(Seq<char>, Seq<char>, Seq<u32>)> {
    s.map_values(|a: MemberAssignment| (a.member_id@, a.topic@, a.partitions@))
}

/// Assignments of the same values give members the same.
proof fn lemma_same_plan(
    members: Map<Seq<char>, MemberView>,
    a: Seq<MemberAssignment>,
    b: Seq<MemberAssignment>,
)
    requires
        plan_views(a) == plan_views(b),
    ensures
        assigned_all(members, a) == assigned_all(members, b),
    decreases a.len(),
{
    assert(plan_views(a).len() == a.len() && plan_views(b).len() == b.len());
    if a.len() > 0 {
        assert(plan_views(a.drop_last()) =~= plan_views(a).drop_last());
        assert(plan_views(b.drop_last()) =~= plan_views(b).drop_last());
        lemma_same_plan(members, a.drop_last(), b.drop_last());
        assert(plan_views(a).last() == plan_views(b).last());
    }
}

fn copy_plan(plan: &Vec<MemberAssignment>) -> (r: Vec<MemberAssignment>)
    ensures
        plan_views(r@) == plan_views(plan@),
{
    let mut r: Vec<MemberAssignment> = Vec::new();
    let mut i: usize = 0;
    while i < plan.len()
        invariant
            i <= plan.len(),
            plan_views(r@) == plan_views(plan@.take(i as int)),
        decreases plan.len() - i,
    {
        let a: &MemberAssignment = &plan[i];
        r.push(
            MemberAssignment {
                member_id: a.member_id.clone(),
                topic: a.topic.clone(),
                partitions: slice_to_vec(a.partitions.as_slice()),
            },
        );
        proof {
            let views = plan_views(plan@.take(i as int));
            let v = (a.member_id@, a.topic@, a.partitions@);
            assert(plan_views(plan@.take(i + 1)) =~= views.push(v));
            assert(plan_views(r@) =~= views.push(v));
        }
        i = i + 1;
    }
    assert(plan@.take(i as int) =~= plan@);
    r
}

fn copy_pairs(pairs: &Vec<(String, String)>) -> (r: Vec<(String, String)>)
    ensures
        pair_views(r@) == pair_views(pairs@),
        r@.len() == pairs@.len(),
{
    let mut r: Vec<(String, String)> = Vec::new();
    let mut i: usize = 0;
    while i < pairs.len()
        invariant
            i <= pairs.len(),
            r@.len() == i,
            pair_views(r@) == pair_views(pairs@.take(i as int)),
        decreases pairs.len() - i,
    {
        r.push((pairs[i].0.clone(), pairs[i].1.clone()));
        proof {
            let views = pair_views(pairs@.take(i as int));
            let v = (pairs@[i as int].0@, pairs@[i as int].1@);
            assert(pair_views(pairs@.take(i + 1)) =~= views.push(v));
            assert(pair_views(r@) =~= views.push(v));
        }
        i = i + 1;
    }
    assert(pairs@.take(i as int) =~= pairs@);
    r
}

fn copy_names(names: &Vec<String>) -> (r: Vec<String>)
    ensures
        name_views(r@) == name_views(names@),
{
    let mut r: Vec<String> = Vec::new();
    let mut i: usize = 0;
    while i < names.len()
        invariant
            i <= names.len(),
            name_views(r@) == name_views(names@.take(i as int)),
        decreases names.len() - i,
    {
        r.push(names[i].clone());
        proof {
            let views = name_views(names@.take(i as int));
            assert(name_views(names@.take(i + 1)) =~= views.push(names@[i as int]@));
            assert(name_views(r@) =~= views.push(names@[i as int]@));
        }
        i = i + 1;
    }
    assert(names@.take(i as int) =~= names@);
    r
}

/// Whether a request is one that can be served at all: there are not too many brokers or
/// partitions, and it is known of each setting whether its value is a ratio.
pub open spec fn servable(e: StorageEngine, p: RequestPayload, ratio_ok: Seq<bool>) -> bool {
    match p {
        RequestPayload::CreateTopic { .. } => e@.brokers.dom().len() < 0xffff,
        RequestPayload::DescribeTopic { .. } => e.partitions.count() <= u32::MAX,
        RequestPayload::AlterConfigs { configs, .. } => configs@.len() == ratio_ok.len(),
        RequestPayload::IncrementalAlterConfigs { upserts, .. } => upserts@.len() == ratio_ok.len(),
        _ => true,
    }
}

/// What is done for a request that changes the metadata: what it asks for is proposed. Nothing
/// changes before the cluster has agreed.
pub open spec fn metadata_task(
    e: StorageEngine,
    p: RequestPayload,
    ratio_ok: Seq<bool>,
    t: Task,
) -> bool {
    match p {
        RequestPayload::CreateTopic { topic, partitions } => exists|
            r: Result<Vec<MetadataRecord>, String>,
        | #[trigger] created_by(e, topic@, partitions, r) && proposes_all(t, r),
        RequestPayload::DeleteTopic { topic } => exists|r: Result<MetadataRecord, String>| #[trigger]
            proposed(e, RecordView::TopicDeleted { topic: topic@ }, r) && proposes(t, r),
        RequestPayload::RegisterBroker { node_id, endpoint } => exists|
            r: Result<MetadataRecord, String>,
        | #[trigger]
            proposed(
                e,
                RecordView::BrokerRegister {
                    node_id,
                    bind_addr: endpoint@,
                    roles: Seq::<ProcessRole>::empty(),
                },
                r,
            ) && proposes(t, r),
        RequestPayload::UnregisterBroker { node_id } => exists|r: Result<MetadataRecord, String>|
            #[trigger] proposed(e, RecordView::BrokerUnregister { node_id }, r) && proposes(t, r),
        RequestPayload::CreateAcls { binding } => exists|r: Result<MetadataRecord, String>|
            #[trigger] proposed(e, RecordView::AclCreated { binding: binding@ }, r) && proposes(
                t,
                r,
            ),
        RequestPayload::DeleteAcls { binding } => exists|r: Result<MetadataRecord, String>|
            #[trigger] proposed(e, RecordView::AclDeleted { binding: binding@ }, r) && proposes(
                t,
                r,
            ),
        RequestPayload::UpsertScramUser { username, iterations, salt, stored_key, server_key } =>
            exists|r: Result<MetadataRecord, String>| #[trigger]
            proposed(
                e,
                RecordView::ScramCredentialUpsert {
                    credential: CredentialView {
                        username: username@,
                        mechanism: ScramMechanism::Sha256,
                        iterations,
                        salt: salt@,
                        stored_key: stored_key@,
                        server_key: server_key@,
                    },
                },
                r,
            ) && proposes(t, r),
        RequestPayload::DeleteScramUser { username } => exists|r: Result<MetadataRecord, String>|
            #[trigger] proposed(
                e,
                RecordView::ScramCredentialDelete { username: username@ },
                r,
            ) && proposes(t, r),
        RequestPayload::AlterConfigs { topic, configs } => exists|
            r: Result<MetadataRecord, String>,
        | #[trigger]
            altered_by(e, topic@, pair_views(configs@), ratio_ok, r) && proposes(t, r),
        RequestPayload::IncrementalAlterConfigs { topic, upserts, deletes } => exists|
            r: Result<MetadataRecord, String>,
        | #[trigger]
            merged_by(e, topic@, pair_views(upserts@), name_views(deletes@), ratio_ok, r)
                && proposes(t, r),
        _ => false,
    }
}

impl StorageEngine {
    /// Proposes what a request to change the metadata asks for.
    pub fn propose_change(&self, p: &RequestPayload, ratio_ok: &[bool]) -> (t: Task)
        requires
            self.wf(),
            changes_metadata(*p),
            servable(*self, *p, ratio_ok@),
        ensures
            metadata_task(*self, *p, ratio_ok@, t),
    {
        match p {
            RequestPayload::CreateTopic { topic, partitions } => {
                let _ = self.brokers.len();
                match self.create_topic(topic.as_str(), *partitions) {
                    Ok(records) => Task::Propose { records },
                    Err(e) => fail(e),
                }
            },
            RequestPayload::DeleteTopic { topic } => propose(self.delete_topic(topic.as_str())),
            RequestPayload::RegisterBroker { node_id, endpoint } => propose(
                self.register_broker(*node_id, endpoint.clone()),
            ),
            RequestPayload::UnregisterBroker { node_id } => propose(
                self.unregister_broker(*node_id),
            ),
            RequestPayload::CreateAcls { binding } => propose(self.create_acl(binding.copy()).0),
            RequestPayload::DeleteAcls { binding } => propose(self.delete_acl(binding.copy()).0),
            RequestPayload::UpsertScramUser {
                username,
                iterations,
                salt,
                stored_key,
                server_key,
            } => propose(
                self.upsert_scram_credential(
                    ScramCredential {
                        username: username.clone(),
                        mechanism: ScramMechanism::Sha256,
                        iterations: *iterations,
                        salt: slice_to_vec(salt.as_slice()),
                        stored_key: slice_to_vec(stored_key.as_slice()),
                        server_key: slice_to_vec(server_key.as_slice()),
                    },
                ),
            ),
            RequestPayload::DeleteScramUser { username } => propose(
                self.delete_scram_user(username.as_str()).0,
            ),
            RequestPayload::AlterConfigs { topic, configs } => propose(
                self.alter_configs(topic.as_str(), copy_pairs(configs), ratio_ok),
            ),
            RequestPayload::IncrementalAlterConfigs { topic, upserts, deletes } => propose(
                self.incremental_alter_configs(
                    topic.as_str(),
                    copy_pairs(upserts),
                    copy_names(deletes),
                    ratio_ok,
                ),
            ),
            _ => Task::Storage,
        }
    }
}

/// Where the log of a partition ends is told, or the log has to be opened first.
pub open spec fn tells_end(t: Task, r: Result<Option<u64>, String>) -> bool {
    match r {
        Ok(Some(end)) => t == (Task::Answer { outcome: Outcome::Watermark { end } }),
        Ok(None) => t is Open,
        Err(e) => fails(t, e),
    }
}

/// What is done for a request of a transactional producer, and what becomes of the broker.
pub open spec fn transaction_task(
    before: StorageEngine,
    after: StorageEngine,
    p: RequestPayload,
    now_ms: u64,
    t: Task,
) -> bool {
    match p {
        RequestPayload::BeginTx { transaction_id, producer_id } => {
            &&& after.same_but_transactions(before)
            &&& exists|r: Result<Option<Vec<u8>>, String>| #[trigger]
                begun_by(before, after, transaction_id@, producer_id, now_ms, r) && notes(t, r)
        },
        RequestPayload::AddPartitionsToTxn {
            transactional_id,
            producer_id,
            producer_epoch,
            topics,
        } => {
            &&& after.same_but_transactions(before)
            &&& exists|r: Result<Option<Vec<u8>>, String>| #[trigger]
                joined_by(
                    before,
                    after,
                    transactional_id@,
                    producer_id,
                    producer_epoch,
                    topics@,
                    now_ms,
                    r,
                ) && notes(t, r)
        },
        RequestPayload::CommitTx { transaction_id } => after == before && (t matches Task::Commit {
            transaction_id: id,
        } && id@ == transaction_id@),
        RequestPayload::AbortTx { transaction_id } => after == before && (t matches Task::Abort {
            transaction_id: id,
        } && id@ == transaction_id@),
        RequestPayload::EndTxn { transactional_id, producer_id, producer_epoch, committed } => {
            &&& after == before
            &&& match producer_fault(
                before@.producers,
                transactional_id@,
                producer_id,
                producer_epoch,
            ) {
                Some(fault) => t matches Task::Answer { outcome } && outcome matches Outcome::Failed {
                    reason,
                } && reason@ == fault,
                None => if committed {
                    t matches Task::Commit { transaction_id } && transaction_id@
                        == transactional_id@
                } else {
                    t matches Task::Abort { transaction_id } && transaction_id@ == transactional_id@
                },
            }
        },
        RequestPayload::InitProducerId { transactional_id } => {
            &&& after.same_but_producers(before)
            &&& exists|r: Result<InitStep, String>| #[trigger]
                begun_producing(before, after, transactional_id@, r) && (match r {
                    Ok(step) => t == (Task::Register { step }),
                    Err(e) => fails(t, e),
                })
        },
        _ => after == before && t is Storage,
    }
}

impl StorageEngine {
    /// Does for a request of a transactional producer what can be done without files.
    pub fn serve_transaction(&mut self, p: &RequestPayload, now_ms: u64) -> (t: Task)
        requires
            old(self).wf(),
        ensures
            final(self).wf(),
            transaction_task(*old(self), *final(self), *p, now_ms, t),
    {
        match p {
            RequestPayload::BeginTx { transaction_id, producer_id } => note(
                self.begin_transaction(transaction_id.as_str(), *producer_id, now_ms),
            ),
            RequestPayload::AddPartitionsToTxn {
                transactional_id,
                producer_id,
                producer_epoch,
                topics,
            } => note(
                self.add_partitions_to_txn(
                    transactional_id.as_str(),
                    *producer_id,
                    *producer_epoch,
                    topics.as_slice(),
                    now_ms,
                ),
            ),
            RequestPayload::CommitTx { transaction_id } => Task::Commit {
                transaction_id: transaction_id.clone(),
            },
            RequestPayload::AbortTx { transaction_id } => Task::Abort {
                transaction_id: transaction_id.clone(),
            },
            RequestPayload::EndTxn { transactional_id, producer_id, producer_epoch, committed } => {
                match self.end_transaction(
                    transactional_id.as_str(),
                    *producer_id,
                    *producer_epoch,
                ) {
                    Ok(()) => {
                        let transaction_id: String = transactional_id.clone();
                        if *committed {
                            Task::Commit { transaction_id }
                        } else {
                            Task::Abort { transaction_id }
                        }
                    },
                    Err(e) => fail(e),
                }
            },
            RequestPayload::InitProducerId { transactional_id } => {
                match self.init_producer_id(transactional_id.as_str()) {
                    Ok(step) => Task::Register { step },
                    Err(e) => fail(e),
                }
            },
            _ => Task::Storage,
        }
    }
}

/// What is done for a request that concerns a consumer group, and what becomes of the groups.
pub open spec fn group_task(
    before: GroupCoordinator,
    after: GroupCoordinator,
    p: RequestPayload,
    now: u64,
    t: Task,
) -> bool {
    match p {
        RequestPayload::SyncGroup { group_id, generation_id, member_id, assignments } => exists|
            r: Result<AssocMap<Vec<u32>>, String>,
        | #[trigger]
            synced_by(
                before,
                after,
                group_id@,
                generation_id,
                member_id@,
                assignments@,
                now,
                r,
            ) && assigns(t, r),
        RequestPayload::Heartbeat { group_id, generation_id, member_id } => exists|
            r: Result<(), String>,
        | #[trigger]
            beaten_by(before, after, group_id@, generation_id, member_id@, now, r) && answers(t, r),
        RequestPayload::LeaveGroup { group_id, member_id, group_instance_id } => exists|
            r: Result<(), String>,
        | #[trigger]
            left_by(before, after, group_id@, member_id@, text_of(group_instance_id), r) && answers(
                t,
                r,
            ),
        RequestPayload::ListGroups => t matches Task::Answer { outcome } && outcome matches Outcome::Names {
            names,
        } && groups_listed(before, after, now, names@),
        RequestPayload::DescribeGroup { group_id } => exists|r: Option<GroupDescription>|
            #[trigger] group_described(before, after, group_id@, now, r) && (match r {
                Some(group) => t == (Task::DescribeGroup { group }),
                None => misses(t, "Group not found"@),
            }),
        _ => after == before && t is Storage,
    }
}

impl GroupCoordinator {
    /// Does what a request that concerns a consumer group asks for.
    pub fn serve_group(&mut self, p: &RequestPayload, now: u64) -> (t: Task)
        requires
            old(self).wf(),
        ensures
            final(self).wf(),
            final(self).same_settings(*old(self)),
            group_task(*old(self), *final(self), *p, now, t),
    {
        match p {
            RequestPayload::SyncGroup { group_id, generation_id, member_id, assignments } => {
                let plan: Vec<MemberAssignment> = copy_plan(assignments);
                let ghost same = plan@;
                let r: Result<AssocMap<Vec<u32>>, String> = self.sync_group(
                    group_id.as_str(),
                    *generation_id,
                    member_id.as_str(),
                    plan,
                    now,
                );
                proof {
                    assert forall|members: Map<Seq<char>, MemberView>| #[trigger]
                        assigned_all(members, same) == assigned_all(members, assignments@) by {
                        lemma_same_plan(members, same, assignments@);
                    }
                    assert(synced_by(
                        *old(self),
                        *self,
                        group_id@,
                        *generation_id,
                        member_id@,
                        assignments@,
                        now,
                        r,
                    ));
                }
                assign(r)
            },
            RequestPayload::Heartbeat { group_id, generation_id, member_id } => done(
                self.heartbeat(group_id.as_str(), *generation_id, member_id.as_str(), now),
            ),
            RequestPayload::LeaveGroup { group_id, member_id, group_instance_id } => {
                let instance: Option<&str> = match group_instance_id {
                    Some(i) => Some(i.as_str()),
                    None => None,
                };
                done(self.leave_group(group_id.as_str(), member_id.as_str(), instance))
            },
            RequestPayload::ListGroups => Task::Answer {
                outcome: Outcome::Names { names: self.list_groups(now) },
            },
            RequestPayload::DescribeGroup { group_id } => {
                match self.describe_group(group_id.as_str(), now) {
                    Some(group) => Task::DescribeGroup { group },
                    None => missing("Group not found"),
                }
            },
            _ => Task::Storage,
        }
    }
}

/// What is done for a request that concerns a share group, and what becomes of the groups.
pub open spec fn share_task(
    before: ShareGroupManager,
    after: ShareGroupManager,
    p: RequestPayload,
    now: u64,
    t: Task,
) -> bool {
    match p {
        RequestPayload::ShareAcknowledge {
            group_id,
            member_id,
            topic,
            partition,
            acknowledgements,
        } => {
            &&& after.heard(before, group_id@, member_id@, now)
            &&& t matches Task::Acknowledged { rejected, write } && acknowledged_by(
                before,
                after,
                group_id@,
                member_id@,
                topic@,
                partition,
                acknowledgements@,
                now,
                (rejected, write),
            )
        },
        RequestPayload::ShareGroupHeartbeat { group_id, member_id } => {
            &&& after.heard(before, group_id@, member_id@, now)
            &&& after.partitions == before.partitions
            &&& t matches Task::Answer { outcome } && outcome is Done
        },
        RequestPayload::ShareGroupDescribe { group_id } => after == before && (
        t matches Task::DescribeShares { shares } && crate::share::manager::group_described(
            before,
            group_id@,
            now,
            shares,
        )),
        _ => after == before && t is Storage,
    }
}

impl ShareGroupManager {
    /// Does what a request that concerns a share group asks for.
    pub fn serve_shares(&mut self, p: &RequestPayload, now: u64) -> (t: Task)
        requires
            old(self).wf(),
            now <= MAX_TIME,
        ensures
            final(self).wf(),
            final(self).same_settings(*old(self)),
            share_task(*old(self), *final(self), *p, now, t),
    {
        match p {
            RequestPayload::ShareAcknowledge {
                group_id,
                member_id,
                topic,
                partition,
                acknowledgements,
            } => {
                let (rejected, write): (Vec<u64>, Option<PendingWrite>) = self.share_acknowledge(
                    group_id.as_str(),
                    member_id.as_str(),
                    topic.as_str(),
                    *partition,
                    acknowledgements.as_slice(),
                    now,
                );
                Task::Acknowledged { rejected, write }
            },
            RequestPayload::ShareGroupHeartbeat { group_id, member_id } => {
                self.record_heartbeat(group_id.as_str(), member_id.as_str(), now);
                Task::Answer { outcome: Outcome::Done }
            },
            RequestPayload::ShareGroupDescribe { group_id } => Task::DescribeShares {
                shares: self.share_group_describe(group_id.as_str(), now),
            },
            _ => Task::Storage,
        }
    }
}

/// What is told of a topic.
pub open spec fn topic_task(e: StorageEngine, p: RequestPayload, t: Task) -> bool {
    match p {
        RequestPayload::DescribeTopic { topic } => exists|r: Option<Vec<DescribedPartition>>|
            #[trigger] topic_described(e, topic@, r) && (match r {
                Some(partitions) => t == (Task::DescribeTopic { partitions }),
                None => misses(t, "Topic not found"@),
            }),
        RequestPayload::DescribeConfigs { topic } => t matches Task::ListConfigs { configs }
            && configs_listed(e, topic@, configs),
        RequestPayload::LatestOffset { topic, partition } => exists|
            r: Result<Option<u64>, String>,
        | #[trigger] end_told(e, topic@, partition, r) && tells_end(t, r),
        _ => t is Storage,
    }
}

impl StorageEngine {
    /// Tells what a request asks of a topic.
    pub fn serve_topic(&self, p: &RequestPayload) -> (t: Task)
        requires
            self.wf(),
            p is DescribeTopic ==> self.partitions.count() <= u32::MAX,
        ensures
            topic_task(*self, *p, t),
    {
        match p {
            RequestPayload::DescribeTopic { topic } => {
                match self.describe_topic(topic.as_str()) {
                    Some(partitions) => Task::DescribeTopic { partitions },
                    None => missing("Topic not found"),
                }
            },
            RequestPayload::DescribeConfigs { topic } => Task::ListConfigs {
                configs: self.describe_configs(topic.as_str()),
            },
            RequestPayload::LatestOffset { topic, partition } => {
                match self.latest_offset(topic.as_str(), *partition) {
                    Ok(Some(end)) => Task::Answer { outcome: Outcome::Watermark { end } },
                    Ok(None) => Task::Open,
                    Err(e) => fail(e),
                }
            },
            _ => Task::Storage,
        }
    }
}

/// The part of the broker that a request concerns.
pub enum Concern {
    Metadata,
    Transactions,
    Groups,
    Shares,
    Topics,
}

/// The part of the broker that a request concerns.
pub open spec fn concern(p: RequestPayload) -> Concern {
    if changes_metadata(p) {
        Concern::Metadata
    } else if p is BeginTx || p is CommitTx || p is AbortTx || p is InitProducerId
        || p is AddPartitionsToTxn || p is EndTxn {
        Concern::Transactions
    } else if p is SyncGroup || p is Heartbeat || p is LeaveGroup || p is ListGroups
        || p is DescribeGroup {
        Concern::Groups
    } else if p is ShareAcknowledge || p is ShareGroupHeartbeat || p is ShareGroupDescribe {
        Concern::Shares
    } else {
        Concern::Topics
    }
}

fn concern_of(p: &RequestPayload) -> (r: Concern)
    ensures
        r == concern(*p),
{
    if is_controller_mutation(p) {
        return Concern::Metadata;
    }
    match p {
        RequestPayload::BeginTx { .. } => Concern::Transactions,
        RequestPayload::CommitTx { .. } => Concern::Transactions,
        RequestPayload::AbortTx { .. } => Concern::Transactions,
        RequestPayload::InitProducerId { .. } => Concern::Transactions,
        RequestPayload::AddPartitionsToTxn { .. } => Concern::Transactions,
        RequestPayload::EndTxn { .. } => Concern::Transactions,
        RequestPayload::SyncGroup { .. } => Concern::Groups,
        RequestPayload::Heartbeat { .. } => Concern::Groups,
        RequestPayload::LeaveGroup { .. } => Concern::Groups,
        RequestPayload::ListGroups => Concern::Groups,
        RequestPayload::DescribeGroup { .. } => Concern::Groups,
        RequestPayload::ShareAcknowledge { .. } => Concern::Shares,
        RequestPayload::ShareGroupHeartbeat { .. } => Concern::Shares,
        RequestPayload::ShareGroupDescribe { .. } => Concern::Shares,
        _ => Concern::Topics,
    }
}

/// What is done for a request, and what becomes of the parts of the broker: only the part that
/// the request concerns changes.
pub open spec fn tasked(
    engine: (StorageEngine, StorageEngine),
    groups: (GroupCoordinator, GroupCoordinator),
    shares: (ShareGroupManager, ShareGroupManager),
    p: RequestPayload,
    ratio_ok: Seq<bool>,
    now: u64,
    now_ms: u64,
    t: Task,
) -> bool {
    &&& !(concern(p) is Transactions) ==> engine.1 == engine.0
    &&& !(concern(p) is Groups) ==> groups.1 == groups.0
    &&& !(concern(p) is Shares) ==> shares.1 == shares.0
    &&& match concern(p) {
        Concern::Metadata => metadata_task(engine.0, p, ratio_ok, t),
        Concern::Transactions => transaction_task(engine.0, engine.1, p, now_ms, t),
        Concern::Groups => group_task(groups.0, groups.1, p, now, t),
        Concern::Shares => share_task(shares.0, shares.1, p, now, t),
        Concern::Topics => topic_task(engine.0, p, t),
    }
}

/// Does for a request what can be done without files and peers, and says what is left to do.
/// `ratio_ok` says of each setting in the request whether its value is a number from 0 to 1.
pub fn serve_request(
    engine: &mut StorageEngine,
    groups: &mut GroupCoordinator,
    shares: &mut ShareGroupManager,
    p: &RequestPayload,
    ratio_ok: &[bool],
    now: u64,
    now_ms: u64,
) -> (t: Task)
    requires
        old(engine).wf(),
        old(groups).wf(),
        old(shares).wf(),
        now <= MAX_TIME,
        servable(*old(engine), *p, ratio_ok@),
    ensures
        final(engine).wf(),
        final(groups).wf(),
        final(shares).wf(),
        final(groups).same_settings(*old(groups)),
        final(shares).same_settings(*old(shares)),
        tasked(
            (*old(engine), *final(engine)),
            (*old(groups), *final(groups)),
            (*old(shares), *final(shares)),
            *p,
            ratio_ok@,
            now,
            now_ms,
            t,
        ),
{
    match concern_of(p) {
        Concern::Metadata => engine.propose_change(p, ratio_ok),
        Concern::Transactions => engine.serve_transaction(p, now_ms),
        Concern::Groups => groups.serve_group(p, now),
        Concern::Shares => shares.serve_shares(p, now),
        Concern::Topics => engine.serve_topic(p),
    }
}

/// Only the controller proposes anything, and only for a request to change the metadata. Until
/// the cluster has agreed, nothing changes.
pub proof fn changes_are_proposed_first(
    engine: (StorageEngine, StorageEngine),
    groups: (GroupCoordinator, GroupCoordinator),
    shares: (ShareGroupManager, ShareGroupManager),
    p: RequestPayload,
    ratio_ok: Seq<bool>,
    now: u64,
    now_ms: u64,
    t: Task,
)
    requires
        tasked(engine, groups, shares, p, ratio_ok, now, now_ms, t),
    ensures
        t is Propose ==> changes_metadata(p) && engine.0.role.is_leader,
        changes_metadata(p) ==> engine.1 == engine.0 && groups.1 == groups.0 && shares.1
            == shares.0,
{
}

} // verus!
