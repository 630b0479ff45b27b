//! What a client is answered once its request has been served.
use crate::acl::{AclBinding, Rule};
use crate::acl_manager::rules_of;
use crate::codec::{be, pascal, put_be, put_bytes, put_pascal, put_u16, put_u32, put_u64, put_u8};
use crate::request::payload::RequestPayload;
use crate::text::{owned, text_views};
use crate::wire::{
    encode_fetch_entries_response, fetch_header, is_short, list_bytes, put_texts, short_text,
    short_texts, ResponseView, WireResponse,
};
use vstd::prelude::*;
use vstd::string::*;

verus! {

/// What came of serving a request.
pub enum Outcome {
    /// It was done, and there is nothing to tell.
    Done,
    /// It failed.
    Failed { reason: String },
    /// Acknowledgements that came with a fetch were not taken.
    AckFailed { reason: String },
    Produced { partition: u32, first_offset: u64, last_offset: u64 },
    Fetched { last_stable_offset: u64, aborted: Vec<(u64, u64)>, entries: Vec<u8> },
    /// The offset that a group has reached, if it has reached one.
    Committed { offset: Option<u64> },
    /// Where an offset stands in its file, if it is there.
    Position { found: Option<(u64, u64)> },
    Watermark { end: u64 },
    Producer { producer_id: u64, producer_epoch: i16 },
    Joined { member_id: String, generation_id: u32, is_leader: bool, protocol: String },
    Assigned { assignment: Vec<(String, Vec<u32>)> },
    Names { names: Vec<String> },
    Missing { what: String },
}

/// The name of a request in the message that it failed.
pub open spec fn request_name(p: RequestPayload) -> Seq<char> {
    match p {
        RequestPayload::UpsertScramUser { .. } => "UpsertScramUser"@,
        RequestPayload::DeleteScramUser { .. } => "DeleteScramUser"@,
        RequestPayload::CreateAcls { .. } => "CreateAcls"@,
        RequestPayload::DeleteAcls { .. } => "DeleteAcls"@,
        RequestPayload::ProduceBatch { .. } => "ProduceBatch"@,
        RequestPayload::Fetch { .. } => "Fetch"@,
        RequestPayload::FetchCommitted { .. } => "FetchCommitted"@,
        RequestPayload::FetchByTimestamp { .. } => "FetchByTimestamp"@,
        RequestPayload::CommitOffset { .. } => "CommitOffset"@,
        RequestPayload::OffsetCommit { .. } => "OffsetCommit"@,
        RequestPayload::Seek { .. } => "Seek"@,
        RequestPayload::LatestOffset { .. } => "LatestOffset"@,
        RequestPayload::BeginTx { .. } => "BeginTx"@,
        RequestPayload::CommitTx { .. } => "CommitTx"@,
        RequestPayload::AbortTx { .. } => "AbortTx"@,
        RequestPayload::InitProducerId { .. } => "InitProducerId"@,
        RequestPayload::DeleteTopic { .. } => "DeleteTopic"@,
        RequestPayload::CreateTopic { .. } => "CreateTopic"@,
        RequestPayload::RegisterBroker { .. } => "RegisterBroker"@,
        RequestPayload::UnregisterBroker { .. } => "UnregisterBroker"@,
        RequestPayload::ShareFetch { .. } => "ShareFetch"@,
        RequestPayload::AlterConfigs { .. } => "AlterConfigs"@,
        RequestPayload::IncrementalAlterConfigs { .. } => "IncrementalAlterConfigs"@,
        _ => "Request"@,
    }
}

/// The message about a request that failed. Some tell the reason alone, and some tell none.
pub open spec fn failure(p: RequestPayload, reason: Seq<char>) -> Seq<char> {
    match p {
        RequestPayload::AddPartitionsToTxn { .. } => "AddPartitionsToTxn failed"@,
        RequestPayload::EndTxn { .. } => "EndTxn failed"@,
        RequestPayload::JoinGroup { .. } => reason,
        RequestPayload::SyncGroup { .. } => reason,
        RequestPayload::Heartbeat { .. } => reason,
        RequestPayload::LeaveGroup { .. } => reason,
        _ => request_name(p) + " failed: "@ + reason,
    }
}

/// A signed number of two bytes.
pub open spec fn signed_be(x: i16) -> Seq<u8> {
    be(
        if x < 0 {
            x + 0x1_0000
        } else {
            x as int
        },
        2,
    )
}

/// Numbers of four bytes, with their count before them.
pub open spec fn numbers_bytes(s: Seq<u32>) -> Seq<u8>
    decreases s.len(),
{
    if s.len() == 0 {
        Seq::empty()
    } else {
        numbers_bytes(s.drop_last()) + be(s.last() as int, 4)
    }
}

/// Topics and their partitions, as values.
pub open spec fn assignment_views(s: Seq<(String, Vec<u32>)>) -> Seq<(Seq<char>, Seq<u32>)> {
    s.map_values(|a: (String, Vec<u32>)| (a.0@, a.1@))
}

/// Topics with their partitions.
pub open spec fn assignments_bytes(s: Seq<(Seq<char>, Seq<u32>)>) -> Seq<u8>
    decreases s.len(),
{
    if s.len() == 0 {
        Seq::empty()
    } else {
        assignments_bytes(s.drop_last()) + pascal(s.last().0) + be(s.last().1.len() as int, 4)
            + numbers_bytes(s.last().1)
    }
}

/// Whether the lengths in an assignment can be written down.
pub open spec fn short_assignment(s: Seq<(Seq<char>, Seq<u32>)>) -> bool {
    s.len() < 0x1_0000_0000 && forall|i: int|
        0 <= i < s.len() ==> short_text((#[trigger] s[i]).0) && s[i].1.len() < 0x1_0000_0000
}

/// The payload of a reply, if its lengths can be written down.
pub open spec fn outcome_bytes(p: RequestPayload, o: Outcome) -> Option<Seq<u8>> {
    match o {
        Outcome::Done => Some(
            if p is CreateAcls || p is DeleteAcls {
                be(0, 2)
            } else {
                Seq::empty()
            },
        ),
        Outcome::Produced { partition, first_offset, last_offset } => Some(
            be(partition as int, 4) + be(first_offset as int, 8) + be(last_offset as int, 8),
        ),
        Outcome::Fetched { last_stable_offset, aborted, entries } => if aborted@.len()
            < 0x1_0000_0000 && entries@.len() < 0x1_0000_0000 {
            Some(fetch_header(last_stable_offset, aborted@, entries@.len() as int) + entries@)
        } else {
            None
        },
        Outcome::Committed { offset } => Some(
            be(
                match offset {
                    Some(x) => x as int,
                    None => u64::MAX as int,
                },
                8,
            ),
        ),
        Outcome::Position { found } => match found {
            Some((base, pos)) => Some(be(base as int, 8) + be(pos as int, 8)),
            None => None,
        },
        Outcome::Watermark { end } => Some(be(end as int, 8)),
        Outcome::Producer { producer_id, producer_epoch } => Some(
            be(producer_id as int, 8) + signed_be(producer_epoch),
        ),
        Outcome::Joined { member_id, generation_id, is_leader, protocol } => if short_text(
            member_id@,
        ) && short_text(protocol@) {
            Some(
                pascal(member_id@) + be(generation_id as int, 4) + seq![
                    if is_leader {
                        1u8
                    } else {
                        0u8
                    },
                ] + pascal(protocol@),
            )
        } else {
            None
        },
        Outcome::Assigned { assignment } => if short_assignment(assignment_views(assignment@)) {
            Some(
                be(assignment@.len() as int, 4) + assignments_bytes(assignment_views(assignment@)),
            )
        } else {
            None
        },
        Outcome::Names { names } => if short_texts(text_views(names@)) {
            Some(list_bytes(text_views(names@)))
        } else {
            None
        },
        _ => None,
    }
}

/// What a client is answered, if it can be written down.
pub open spec fn concluded(p: RequestPayload, o: Outcome) -> Option<ResponseView> {
    match o {
        Outcome::Failed { reason } => Some(
            ResponseView::Failure { message: failure(p, reason@) },
        ),
        Outcome::AckFailed { reason } => Some(
            ResponseView::Failure { message: "ShareAcknowledge failed: "@ + reason@ },
        ),
        Outcome::Missing { what } => Some(ResponseView::Failure { message: what@ }),
        Outcome::Position { found } if found is None => Some(
            ResponseView::Failure { message: "Offset not found in index"@ },
        ),
        _ => match outcome_bytes(p, o) {
            Some(b) => Some(ResponseView::Success { payload: b }),
            None => None,
        },
    }
}

fn name_of(p: &RequestPayload) -> (r: &'static str)
    ensures
        r@ == request_name(*p),
{
    match p {
        RequestPayload::UpsertScramUser { .. } => "UpsertScramUser",
        RequestPayload::DeleteScramUser { .. } => "DeleteScramUser",
        RequestPayload::CreateAcls { .. } => "CreateAcls",
        RequestPayload::DeleteAcls { .. } => "DeleteAcls",
        RequestPayload::ProduceBatch { .. } => "ProduceBatch",
        RequestPayload::Fetch { .. } => "Fetch",
        RequestPayload::FetchCommitted { .. } => "FetchCommitted",
        RequestPayload::FetchByTimestamp { .. } => "FetchByTimestamp",
        RequestPayload::CommitOffset { .. } => "CommitOffset",
        RequestPayload::OffsetCommit { .. } => "OffsetCommit",
        RequestPayload::Seek { .. } => "Seek",
        RequestPayload::LatestOffset { .. } => "LatestOffset",
        RequestPayload::BeginTx { .. } => "BeginTx",
        RequestPayload::CommitTx { .. } => "CommitTx",
        RequestPayload::AbortTx { .. } => "AbortTx",
        RequestPayload::InitProducerId { .. } => "InitProducerId",
        RequestPayload::DeleteTopic { .. } => "DeleteTopic",
        RequestPayload::CreateTopic { .. } => "CreateTopic",
        RequestPayload::RegisterBroker { .. } => "RegisterBroker",
        RequestPayload::UnregisterBroker { .. } => "UnregisterBroker",
        RequestPayload::ShareFetch { .. } => "ShareFetch",
        RequestPayload::AlterConfigs { .. } => "AlterConfigs",
        RequestPayload::IncrementalAlterConfigs { .. } => "IncrementalAlterConfigs",
        _ => "Request",
    }
}

fn failure_of(p: &RequestPayload, reason: &str) -> (r: String)
    ensures
        r@ == failure(*p, reason@),
{
    match p {
        RequestPayload::AddPartitionsToTxn { .. } => owned("AddPartitionsToTxn failed"),
        RequestPayload::EndTxn { .. } => owned("EndTxn failed"),
        RequestPayload::JoinGroup { .. } => owned(reason),
        RequestPayload::SyncGroup { .. } => owned(reason),
        RequestPayload::Heartbeat { .. } => owned(reason),
        RequestPayload::LeaveGroup { .. } => owned(reason),
        _ => crate::text::concat3(name_of(p), " failed: ", reason),
    }
}

fn put_signed(out: &mut Vec<u8>, x: i16)
    ensures
        final(out)@ == old(out)@ + signed_be(x),
{
    let v: u64 = if x < 0 {
        (x as i32 + 0x1_0000) as u64
    } else {
        x as u64
    };
    put_be(out, v, 2);
}

fn put_numbers(out: &mut Vec<u8>, s: &Vec<u32>)
    ensures
        final(out)@ == old(out)@ + numbers_bytes(s@),
{
    let ghost start = out@;
    let mut i: usize = 0;
    assert(out@ =~= start + numbers_bytes(s@.take(0)));
    while i < s.len()
        invariant
            i <= s.len(),
            out@ == start + numbers_bytes(s@.take(i as int)),
        decreases s.len() - i,
    {
        put_u32(out, s[i]);
        proof {
            assert(s@.take(i + 1).drop_last() =~= s@.take(i as int));
            assert(s@.take(i + 1).last() == s@[i as int]);
            assert(out@ =~= start + numbers_bytes(s@.take(i + 1)));
        }
        i = i + 1;
    }
    assert(s@.take(i as int) =~= s@);
}

fn encode_assignment(s: &Vec<(String, Vec<u32>)>) -> (r: Option<Vec<u8>>)
    ensures
        ({
            let v = assignment_views(s@);
            match r {
                Some(b) => short_assignment(v) && b@ == be(v.len() as int, 4) + assignments_bytes(v),
                None => !short_assignment(v),
            }
        }),
{
    let ghost views = assignment_views(s@);
    if s.len() as u64 >= 0x1_0000_0000 {
        return None;
    }
    let mut out: Vec<u8> = Vec::new();
    put_u32(&mut out, s.len() as u32);
    let ghost head = out@;
    assert(head =~= be(views.len() as int, 4));
    let mut i: usize = 0;
    assert(assignments_bytes(views.take(0)) =~= Seq::empty());
    while i < s.len()
        invariant
            i <= s.len(),
            views == assignment_views(s@),
            forall|j: int|
                0 <= j < i ==> short_text((#[trigger] views[j]).0) && views[j].1.len()
                    < 0x1_0000_0000,
            out@ == head + assignments_bytes(views.take(i as int)),
        decreases s.len() - i,
    {
        assert(views[i as int] == (s@[i as int].0@, s@[i as int].1@));
        if !is_short(s[i].0.as_str()) || s[i].1.len() as u64 >= 0x1_0000_0000 {
            return None;
        }
        put_pascal(&mut out, s[i].0.as_str());
        put_u32(&mut out, s[i].1.len() as u32);
        put_numbers(&mut out, &s[i].1);
        proof {
            let next = views.take(i + 1);
            assert(next.drop_last() =~= views.take(i as int));
            assert(next.last() == views[i as int]);
            assert(out@ =~= head + assignments_bytes(next));
        }
        i = i + 1;
    }
    assert(views.take(i as int) =~= views);
    Some(out)
}

fn encode_outcome(p: &RequestPayload, o: &Outcome) -> (r: Option<Vec<u8>>)
    ensures
        match r {
            Some(b) => outcome_bytes(*p, *o) == Some(b@),
            None => outcome_bytes(*p, *o) is None,
        },
{
    let mut out: Vec<u8> = Vec::new();
    match o {
        Outcome::Done => {
            match p {
                RequestPayload::CreateAcls { .. } => put_u16(&mut out, 0),
                RequestPayload::DeleteAcls { .. } => put_u16(&mut out, 0),
                _ => {},
            }
            assert(out@ =~= outcome_bytes(*p, *o)->0);
            Some(out)
        },
        Outcome::Produced { partition, first_offset, last_offset } => {
            put_u32(&mut out, *partition);
            put_u64(&mut out, *first_offset);
            put_u64(&mut out, *last_offset);
            assert(out@ =~= outcome_bytes(*p, *o)->0);
            Some(out)
        },
        Outcome::Fetched { last_stable_offset, aborted, entries } => {
            if aborted.len() as u64 >= 0x1_0000_0000 || entries.len() as u64 >= 0x1_0000_0000 {
                return None;
            }
            Some(
                encode_fetch_entries_response(
                    *last_stable_offset,
                    aborted.as_slice(),
                    entries.as_slice(),
                ),
            )
        },
        Outcome::Committed { offset } => {
            put_u64(
                &mut out,
                match offset {
                    Some(x) => *x,
                    None => u64::MAX,
                },
            );
            assert(out@ =~= outcome_bytes(*p, *o)->0);
            Some(out)
        },
        Outcome::Position { found } => match found {
            Some((base, pos)) => {
                put_u64(&mut out, *base);
                put_u64(&mut out, *pos);
                assert(out@ =~= outcome_bytes(*p, *o)->0);
                Some(out)
            },
            None => None,
        },
        Outcome::Watermark { end } => {
            put_u64(&mut out, *end);
            assert(out@ =~= outcome_bytes(*p, *o)->0);
            Some(out)
        },
        Outcome::Producer { producer_id, producer_epoch } => {
            put_u64(&mut out, *producer_id);
            put_signed(&mut out, *producer_epoch);
            assert(out@ =~= outcome_bytes(*p, *o)->0);
            Some(out)
        },
        Outcome::Joined { member_id, generation_id, is_leader, protocol } => {
            if !is_short(member_id.as_str()) || !is_short(protocol.as_str()) {
                return None;
            }
            put_pascal(&mut out, member_id.as_str());
            put_u32(&mut out, *generation_id);
            put_u8(
                &mut out,
                if *is_leader {
                    1
                } else {
                    0
                },
            );
            put_pascal(&mut out, protocol.as_str());
            assert(out@ =~= outcome_bytes(*p, *o)->0);
            Some(out)
        },
        Outcome::Assigned { assignment } => encode_assignment(assignment),
        Outcome::Names { names } => {
            if !put_texts(&mut out, names.as_slice()) {
                return None;
            }
            assert(out@ =~= outcome_bytes(*p, *o)->0);
            Some(out)
        },
        Outcome::Failed { .. } => None,
        Outcome::AckFailed { .. } => None,
        Outcome::Missing { .. } => None,
    }
}

/// What a client is answered once its request has been served. None if the lengths in the
/// answer cannot be written down.
pub fn conclude(p: &RequestPayload, o: &Outcome) -> (r: Option<WireResponse>)
    ensures
        match r {
            Some(x) => concluded(*p, *o) == Some(x@),
            None => concluded(*p, *o) is None,
        },
{
    match o {
        Outcome::Failed { reason } => {
            return Some(WireResponse::Failure { message: failure_of(p, reason.as_str()) });
        },
        Outcome::AckFailed { reason } => {
            let mut message: String = owned("ShareAcknowledge failed: ");
            message.append(reason.as_str());
            return Some(WireResponse::Failure { message });
        },
        Outcome::Missing { what } => {
            return Some(WireResponse::Failure { message: owned(what.as_str()) });
        },
        Outcome::Position { found } => {
            if found.is_none() {
                return Some(WireResponse::Failure { message: owned("Offset not found in index") });
            }
        },
        _ => {},
    }
    match encode_outcome(p, o) {
        Some(payload) => Some(WireResponse::Success { payload }),
        None => None,
    }
}

/// A rule as it is sent.
pub open spec fn rule_bytes(r: Rule) -> Seq<u8> {
    seq![r.resource_type] + pascal(r.resource_name) + seq![r.pattern_type] + pascal(r.principal)
        + pascal(r.host) + seq![r.operation, r.permission_type]
}

/// Rules as they are sent.
pub open spec fn rules_bytes(s: Seq<Rule>) -> Seq<u8>
    decreases s.len(),
{
    if s.len() == 0 {
        Seq::empty()
    } else {
        rules_bytes(s.drop_last()) + rule_bytes(s.last())
    }
}

/// Whether the lengths in a rule can be written down.
pub open spec fn short_rule(r: Rule) -> bool {
    short_text(r.resource_name) && short_text(r.principal) && short_text(r.host)
}

/// Whether the lengths in rules can be written down.
pub open spec fn short_rules(s: Seq<Rule>) -> bool {
    s.len() < 0x1_0000_0000 && forall|i: int| 0 <= i < s.len() ==> short_rule(#[trigger] s[i])
}

/// Lists rules.
pub fn encode_acls(bindings: &Vec<AclBinding>) -> (r: Option<Vec<u8>>)
    ensures
        ({
            let rules = rules_of(bindings@);
            match r {
                Some(b) => short_rules(rules) && b@ == be(0, 2) + be(rules.len() as int, 4)
                    + rules_bytes(rules),
                None => !short_rules(rules),
            }
        }),
{
    let ghost rules = rules_of(bindings@);
    if bindings.len() as u64 >= 0x1_0000_0000 {
        return None;
    }
    let mut out: Vec<u8> = Vec::new();
    put_u16(&mut out, 0);
    put_u32(&mut out, bindings.len() as u32);
    let ghost head = out@;
    assert(head =~= be(0, 2) + be(rules.len() as int, 4));
    assert(rules_bytes(rules.take(0)) =~= Seq::empty());
    let mut i: usize = 0;
    while i < bindings.len()
        invariant
            i <= bindings.len(),
            rules == rules_of(bindings@),
            forall|j: int| 0 <= j < i ==> short_rule(#[trigger] rules[j]),
            out@ == head + rules_bytes(rules.take(i as int)),
        decreases bindings.len() - i,
    {
        let b: &AclBinding = &bindings[i];
        assert(rules[i as int] == b@);
        if !is_short(b.resource_name.as_str()) || !is_short(b.principal.as_str()) || !is_short(
            b.host.as_str(),
        ) {
            return None;
        }
        put_u8(&mut out, b.resource_type);
        put_pascal(&mut out, b.resource_name.as_str());
        put_u8(&mut out, b.pattern_type);
        put_pascal(&mut out, b.principal.as_str());
        put_pascal(&mut out, b.host.as_str());
        put_u8(&mut out, b.operation);
        put_u8(&mut out, b.permission_type);
        proof {
            let next = rules.take(i + 1);
            assert(next.drop_last() =~= rules.take(i as int));
            assert(next.last() == b@);
            assert(out@ =~= head + rules_bytes(next));
        }
        i = i + 1;
    }
    assert(rules.take(i as int) =~= rules);
    Some(out)
}

/// Nodes and their addresses, as values.
pub open spec fn endpoint_views(s: Seq<(u32, String)>) -> Seq<(u32, Seq<char>)> {
    s.map_values(|e: (u32, String)| (e.0, e.1@))
}

/// Nodes and their addresses as they are sent.
pub open spec fn endpoints_bytes(s: Seq<(u32, Seq<char>)>) -> Seq<u8>
    decreases s.len(),
{
    if s.len() == 0 {
        Seq::empty()
    } else {
        endpoints_bytes(s.drop_last()) + be(s.last().0 as int, 4) + pascal(s.last().1)
    }
}

/// Whether the lengths of the addresses can be written down.
pub open spec fn short_endpoints(s: Seq<(u32, Seq<char>)>) -> bool {
    s.len() < 0x1_0000_0000 && forall|i: int| 0 <= i < s.len() ==> short_text((#[trigger] s[i]).1)
}

/// The cluster as it is described: its id, this node, whether it leads, and all nodes.
pub open spec fn cluster_bytes(
    cluster_id: Seq<char>,
    node_id: u32,
    is_leader: bool,
    nodes: Seq<(u32, Seq<char>)>,
) -> Seq<u8> {
    pascal(cluster_id) + be(node_id as int, 4) + seq![
        if is_leader {
            1u8
        } else {
            0u8
        },
    ] + be(nodes.len() as int, 4) + endpoints_bytes(nodes)
}

/// Describes the cluster.
pub fn encode_cluster(
    cluster_id: &str,
    node_id: u32,
    is_leader: bool,
    nodes: &Vec<(u32, String)>,
) -> (r: Option<Vec<u8>>)
    ensures
        ({
            let views = endpoint_views(nodes@);
            match r {
                Some(b) => short_text(cluster_id@) && short_endpoints(views) && b@ == cluster_bytes(
                    cluster_id@,
                    node_id,
                    is_leader,
                    views,
                ),
                None => !(short_text(cluster_id@) && short_endpoints(views)),
            }
        }),
{
    let ghost views = endpoint_views(nodes@);
    if !is_short(cluster_id) || nodes.len() as u64 >= 0x1_0000_0000 {
        return None;
    }
    let mut out: Vec<u8> = Vec::new();
    put_pascal(&mut out, cluster_id);
    put_u32(&mut out, node_id);
    put_u8(
        &mut out,
        if is_leader {
            1
        } else {
            0
        },
    );
    put_u32(&mut out, nodes.len() as u32);
    let ghost head = out@;
    assert(endpoints_bytes(views.take(0)) =~= Seq::empty());
    let mut i: usize = 0;
    while i < nodes.len()
        invariant
            i <= nodes.len(),
            views == endpoint_views(nodes@),
            forall|j: int| 0 <= j < i ==> short_text((#[trigger] views[j]).1),
            out@ == head + endpoints_bytes(views.take(i as int)),
        decreases nodes.len() - i,
    {
        assert(views[i as int] == (nodes@[i as int].0, nodes@[i as int].1@));
        if !is_short(nodes[i].1.as_str()) {
            return None;
        }
        put_u32(&mut out, nodes[i].0);
        put_pascal(&mut out, nodes[i].1.as_str());
        proof {
            let next = views.take(i + 1);
            assert(next.drop_last() =~= views.take(i as int));
            assert(next.last() == views[i as int]);
            assert(out@ =~= head + endpoints_bytes(next));
        }
        i = i + 1;
    }
    assert(views.take(i as int) =~= views);
    assert(out@ =~= cluster_bytes(cluster_id@, node_id, is_leader, views));
    Some(out)
}

/// Tells a client what it can speak here: the versions from the first to the last, and the codes
/// of the commands with their count before them. None if there are too many to count.
pub fn encode_protocol(min: u16, max: u16, codes: &[u8]) -> (r: Option<Vec<u8>>)
    ensures
        match r {
            Some(b) => codes@.len() < 0x1_0000 && b@ == be(min as int, 2) + be(max as int, 2) + be(
                codes@.len() as int,
                2,
            ) + codes@,
            None => codes@.len() >= 0x1_0000,
        },
{
    if codes.len() >= 0x1_0000 {
        return None;
    }
    let mut out: Vec<u8> = Vec::new();
    put_u16(&mut out, min);
    put_u16(&mut out, max);
    put_u16(&mut out, codes.len() as u16);
    put_bytes(&mut out, codes);
    assert(out@ =~= be(min as int, 2) + be(max as int, 2) + be(codes@.len() as int, 2) + codes@);
    Some(out)
}

} // verus!
