//! What nodes understand of each other.
use crate::codec::{be, lemma_number_be, lemma_ranges, range};
use crate::engine::brokers::ProcessRole;
use crate::engine::state::StorageEngine;
use crate::internode::{
    acknowledged, electable, fence, forwarded, heartbeat_in, kept, metadata_end, metadata_topic,
    number_field, push_in, reply_name, text_field, vote_in, welcome, EntryOutcome, ForwardReply,
    FrameType, HeartbeatView, PushView, VoteView,
};
use crate::text::text_views;
use vstd::prelude::*;
use vstd::utf8::*;

verus! {

/// A text with its length before it.
pub open spec fn framed_text(t: Seq<char>) -> Seq<u8> {
    be(encode_utf8(t).len() as int, 2) + encode_utf8(t)
}

/// A number is read as it was written, and what follows it is left.
pub proof fn a_number_field_is_read_back(
    frame: Seq<char>,
    x: int,
    n: nat,
    rest: Seq<u8>,
    field: Seq<char>,
)
    requires
        0 <= x < range(n),
    ensures
        number_field(frame, be(x, n) + rest, n as int, field) == Ok::<_, Seq<char>>((x, rest)),
{
    lemma_number_be(x, n);
    let s = be(x, n) + rest;
    assert(s.take(n as int) =~= be(x, n));
    assert(s.skip(n as int) =~= rest);
}

/// A number of which a byte is missing is not read.
pub proof fn a_short_number_is_refused(frame: Seq<char>, s: Seq<u8>, n: int, field: Seq<char>)
    ensures
        number_field(frame, s, n, field) is Err <==> s.len() < n,
{
}

/// A text is read as it was written, and what follows it is left, unless it is too long.
pub proof fn a_text_field_is_read_back(
    frame: Seq<char>,
    t: Seq<char>,
    rest: Seq<u8>,
    max: int,
    field: Seq<char>,
)
    requires
        encode_utf8(t).len() < 0x1_0000,
    ensures
        encode_utf8(t).len() <= max ==> text_field(frame, framed_text(t) + rest, max, field) == Ok::<
            _,
            Seq<char>,
        >((t, rest)),
        encode_utf8(t).len() > max ==> text_field(frame, framed_text(t) + rest, max, field) is Err,
{
    let b = encode_utf8(t);
    let n = b.len() as int;
    lemma_ranges();
    encode_utf8_valid_utf8(t);
    encode_utf8_decode_utf8(t);
    a_number_field_is_read_back(frame, n, 2, b + rest, field);
    assert(framed_text(t) + rest =~= be(n, 2) + (b + rest));
    assert((b + rest).take(n) =~= b);
    assert((b + rest).skip(n) =~= rest);
}

/// A text of which a byte is missing is not read.
pub proof fn a_short_text_is_refused(
    frame: Seq<char>,
    t: Seq<char>,
    k: int,
    max: int,
    field: Seq<char>,
)
    requires
        encode_utf8(t).len() < 0x1_0000,
        0 <= k < framed_text(t).len(),
    ensures
        text_field(frame, framed_text(t).take(k), max, field) is Err,
{
    let b = encode_utf8(t);
    let n = b.len() as int;
    lemma_ranges();
    lemma_number_be(n, 2);
    let s = framed_text(t).take(k);
    if k >= 2 {
        assert(s.take(2) =~= be(n, 2));
        assert(s.skip(2).len() < n);
    }
}

/// A request for a vote says what the candidate wrote: its cluster, who it is, its term, and how
/// far its log goes.
pub proof fn a_request_for_a_vote_is_read_back(v: VoteView, rest: Seq<u8>)
    requires
        encode_utf8(v.cluster_id).len() <= 256,
        0 <= v.candidate_id <= u32::MAX,
        0 <= v.term <= u64::MAX,
        0 <= v.last_log_index <= u64::MAX,
    ensures
        vote_in(
            framed_text(v.cluster_id) + (be(v.candidate_id, 4) + (be(v.term, 8) + (be(
                v.last_log_index,
                8,
            ) + rest))),
        ) == Ok::<_, Seq<char>>(v),
{
    lemma_ranges();
    let f = "VoteRequest"@;
    let c = be(v.last_log_index, 8) + rest;
    let b = be(v.term, 8) + c;
    let a = be(v.candidate_id, 4) + b;
    a_text_field_is_read_back(f, v.cluster_id, a, 256, "cluster_id"@);
    a_number_field_is_read_back(f, v.candidate_id, 4, b, "candidate_id"@);
    a_number_field_is_read_back(f, v.term, 8, c, "term"@);
    a_number_field_is_read_back(f, v.last_log_index, 8, rest, "candidate_last_log_index"@);
}

/// A sign of life says what the leader wrote: its cluster, who it is, its term, and where it is.
pub proof fn a_sign_of_life_is_read_back(h: HeartbeatView, rest: Seq<u8>)
    requires
        encode_utf8(h.cluster_id).len() <= 256,
        encode_utf8(h.leader_bind_addr).len() <= 256,
        0 <= h.node_id <= u32::MAX,
        0 <= h.term <= u64::MAX,
    ensures
        heartbeat_in(
            framed_text(h.cluster_id) + (be(h.node_id, 4) + (be(h.term, 8) + (framed_text(
                h.leader_bind_addr,
            ) + rest))),
        ) == Ok::<_, Seq<char>>(h),
{
    lemma_ranges();
    let f = "Heartbeat"@;
    let c = framed_text(h.leader_bind_addr) + rest;
    let b = be(h.term, 8) + c;
    let a = be(h.node_id, 4) + b;
    a_text_field_is_read_back(f, h.cluster_id, a, 256, "cluster_id"@);
    a_number_field_is_read_back(f, h.node_id, 4, b, "node_id"@);
    a_number_field_is_read_back(f, h.term, 8, c, "term"@);
    a_text_field_is_read_back(f, h.leader_bind_addr, rest, 256, "leader_bind_addr"@);
}

/// A push says what the leader wrote: the partition, the epoch, how far is committed, and the
/// entries. One of another cluster is refused.
pub proof fn a_push_is_read_back(
    p: PushView,
    sender: Seq<char>,
    cluster_id: Seq<char>,
    rest: Seq<u8>,
)
    requires
        encode_utf8(sender).len() <= 256,
        encode_utf8(p.topic).len() <= 512,
        0 <= p.partition <= u32::MAX,
        0 <= p.epoch <= u64::MAX,
        0 <= p.leader_hw <= u64::MAX,
        p.entries.len() <= u32::MAX,
    ensures
        ({
            let s = framed_text(sender) + (framed_text(p.topic) + (be(p.partition, 4) + (be(
                p.epoch,
                8,
            ) + (be(p.leader_hw, 8) + (be(p.entries.len() as int, 4) + (p.entries + rest))))));
            &&& sender == cluster_id ==> push_in(s, cluster_id) == Ok::<_, Seq<char>>(p)
            &&& sender != cluster_id ==> push_in(s, cluster_id) is Err
        }),
{
    lemma_ranges();
    let f = "ReplicationPush"@;
    let n = p.entries.len() as int;
    let h = p.entries + rest;
    let g = be(n, 4) + h;
    let d = be(p.leader_hw, 8) + g;
    let c = be(p.epoch, 8) + d;
    let b = be(p.partition, 4) + c;
    let a = framed_text(p.topic) + b;
    a_text_field_is_read_back(f, sender, a, 256, "cluster_id"@);
    a_text_field_is_read_back(f, p.topic, b, 512, "topic"@);
    a_number_field_is_read_back(f, p.partition, 4, c, "partition"@);
    a_number_field_is_read_back(f, p.epoch, 8, d, "epoch"@);
    a_number_field_is_read_back(f, p.leader_hw, 8, g, "leader_hw"@);
    a_number_field_is_read_back(f, n, 4, h, "entries_len"@);
    assert(h.take(n) =~= p.entries);
}

/// A candidate may get a vote if and only if it is of this cluster and behind neither in term nor
/// in what it has of the metadata, and this node is one of several controllers.
pub proof fn who_may_be_elected(e: StorageEngine, r: VoteView)
    requires
        e@.partitions.contains_key((metadata_topic(), 0u32)),
        crate::engine::state::open_fault(e@, e.config, metadata_topic(), 0) is None,
    ensures
        electable(e, r) <==> r.cluster_id == e.config.cluster_id@ && e.config.peer_addrs@.len() > 0
            && (exists|i: int|
            0 <= i < e.config.roles@.len() && #[trigger] e.config.roles@[i]
                == ProcessRole::Controller) && r.term >= e.role.epoch && r.last_log_index
            >= e@.partitions[(metadata_topic(), 0u32)].log_end_offset,
{
    if e.config.roles@.contains(ProcessRole::Controller) {
        let i = choose|i: int|
            0 <= i < e.config.roles@.len() && e.config.roles@[i] == ProcessRole::Controller;
        assert(e.config.roles@[i] == ProcessRole::Controller);
    }
}

/// Of two candidates the one that is further in both term and log may have every vote that the
/// other may have.
pub proof fn the_candidate_ahead_may_be_elected(e: StorageEngine, a: VoteView, b: VoteView)
    requires
        electable(e, a),
        b.cluster_id == a.cluster_id,
        b.term >= a.term,
        b.last_log_index >= a.last_log_index,
    ensures
        electable(e, b),
{
}

/// A sign of life is taken from a configured peer of this cluster, or from any node of it where no
/// peers are configured, but never from a node that claims to be this one.
pub proof fn whose_sign_of_life_is_taken(e: StorageEngine, h: HeartbeatView, i: int)
    ensures
        welcome(e, h) ==> h.cluster_id == e.config.cluster_id@,
        welcome(e, h) ==> h.leader_bind_addr != e.role.advertised_addr@,
        welcome(e, h) && e.config.peer_addrs@.len() > 0 ==> exists|k: int|
            0 <= k < e.config.peer_addrs@.len() && (#[trigger] e.config.peer_addrs@[k])@
                == h.leader_bind_addr,
        h.cluster_id == e.config.cluster_id@ && h.leader_bind_addr != e.role.advertised_addr@
            && e.config.peer_addrs@.len() == 0 ==> welcome(e, h),
        h.cluster_id == e.config.cluster_id@ && h.leader_bind_addr != e.role.advertised_addr@ && 0
            <= i < e.config.peer_addrs@.len() && e.config.peer_addrs@[i]@ == h.leader_bind_addr
            ==> welcome(e, h),
{
    let s = text_views(e.config.peer_addrs@);
    if 0 <= i < e.config.peer_addrs@.len() {
        assert(s[i] == e.config.peer_addrs@[i]@);
    }
    if s.contains(h.leader_bind_addr) {
        let k = choose|k: int| 0 <= k < s.len() && s[k] == h.leader_bind_addr;
        assert(e.config.peer_addrs@[k]@ == h.leader_bind_addr);
    }
}

/// A push must not be behind: of the metadata the term of the cluster's leader counts, of an open
/// partition the epoch of its leader, and of any other nothing.
pub proof fn old_leaders_are_fenced_off(e: StorageEngine, topic: Seq<char>, partition: u32)
    ensures
        fence(e, metadata_topic(), partition) == e.role.epoch,
        topic != metadata_topic() && e@.partitions.contains_key((topic, partition)) ==> fence(
            e,
            topic,
            partition,
        ) == e@.partitions[(topic, partition)].leader_epoch,
        topic != metadata_topic() && !e@.partitions.contains_key((topic, partition)) ==> fence(
            e,
            topic,
            partition,
        ) == 0,
{
}

/// A push is acknowledged only once every one of its entries is in the log, and the log on disk.
pub proof fn what_is_acknowledged_is_on_disk(outcomes: Seq<EntryOutcome>, flushed: bool, i: int)
    ensures
        acknowledged(outcomes, flushed) ==> flushed,
        acknowledged(outcomes, flushed) && 0 <= i < outcomes.len() ==> outcomes[i] is Appended
            || outcomes[i] is AlreadyApplied,
        flushed && (forall|k: int|
            0 <= k < outcomes.len() ==> (#[trigger] outcomes[k]) is Appended
                || outcomes[k] is AlreadyApplied) ==> acknowledged(outcomes, flushed),
{
    if acknowledged(outcomes, flushed) && 0 <= i < outcomes.len() {
        assert(kept(outcomes[i]));
    }
    if flushed && (forall|k: int|
        0 <= k < outcomes.len() ==> (#[trigger] outcomes[k]) is Appended
            || outcomes[k] is AlreadyApplied) {
        assert forall|k: int| 0 <= k < outcomes.len() implies kept(#[trigger] outcomes[k]) by {}
    }
}

/// A leader's reply is passed on whole, status and length included, and without a correlation
/// number before it or anything behind it.
pub proof fn a_reply_is_passed_on_whole(
    number: Seq<u8>,
    status: u8,
    payload: Seq<u8>,
    rest: Seq<u8>,
    r: ForwardReply,
    q: ForwardReply,
)
    requires
        number.len() == 4,
        payload.len() <= 67_108_864,
        status != 0xF1,
        forwarded(
            seq![0xF1u8] + number + seq![status] + be(payload.len() as int, 4) + payload + rest,
            r,
        ),
        forwarded(seq![status] + be(payload.len() as int, 4) + payload + rest, q),
    ensures
        r matches ForwardReply::Done { response } && response@ == seq![status] + be(
            payload.len() as int,
            4,
        ) + payload,
        q matches ForwardReply::Done { response } && response@ == seq![status] + be(
            payload.len() as int,
            4,
        ) + payload,
{
    lemma_ranges();
    let n = payload.len() as int;
    lemma_number_be(n, 4);
    let body = seq![status] + be(n, 4) + payload;
    let s = seq![0xF1u8] + number + seq![status] + be(n, 4) + payload + rest;
    let t = seq![status] + be(n, 4) + payload + rest;
    assert(s[0] == 0xF1);
    assert(t[0] == status);
    assert(s.subrange(6, 10) =~= be(n, 4));
    assert(t.subrange(1, 5) =~= be(n, 4));
    assert(s.subrange(5, 10 + n) =~= body);
    assert(t.subrange(0, 5 + n) =~= body);
}

/// A node whose metadata log is not open has nothing of it, so every candidate's log is as long.
pub proof fn a_node_without_a_log_has_nothing(e: StorageEngine)
    requires
        !e@.partitions.contains_key((metadata_topic(), 0u32)),
    ensures
        metadata_end(e@, e.config) == 0,
{
}

/// What answers a request is no request: it has a name of its own, and the rest has none.
pub proof fn replies_are_no_requests(f: FrameType)
    ensures
        reply_name(f) is Some <==> f is ReplicationPushAck || f is HeartbeatAck || f is VoteResponse
            || f is ReplicationFetchResponse,
{
}

} // verus!
