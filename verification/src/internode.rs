//! What nodes of a cluster say to each other, and how it is answered.
use crate::codec::{get_be, lemma_ranges, number, part, range};
use crate::engine::brokers::{address_of, has_role, BrokerView, ProcessRole};
use crate::engine::metadata::MetadataRecord;
use crate::engine::state::{
    access, leads, open_fault, Access, ClusterRole, EngineConfig, EngineView, StorageEngine,
};
use crate::engine::table::partition_name;
use crate::partition::{sync_due, wrapped, BatchHeader, PartitionView, VerbatimAppendResult};
use crate::text::{
    concat3, concat5, decimal, decimal_text, owned, same_text, text_from_utf8, text_views,
};
use vstd::prelude::*;
use vstd::slice::*;
use vstd::string::*;
use vstd::utf8::*;

verus! {

/// The longest cluster id that is accepted, in bytes.
pub const MAX_CLUSTER_ID_LEN: usize = 256;

/// The longest address that is accepted, in bytes.
pub const MAX_BIND_ADDR_LEN: usize = 256;

/// The longest topic name that is accepted, in bytes.
pub const MAX_TOPIC_NAME_LEN: usize = 512;

/// How many entries one push may hold.
pub const MAX_REPLICATION_BATCH_COUNT: usize = 100_000;

/// The longest reply that is taken from a leader, in bytes.
pub const MAX_FORWARD_RESPONSE_BYTES: usize = 67_108_864;

/// The first byte of a reply with a correlation number.
pub const VERSIONED_ENVELOPE_MAGIC: u8 = 0xF1;

/// Why a frame is not served.
#[derive(Debug)]
pub struct PacketError {
    pub message: String,
}

/// Reads the fields of a frame one after the other. A field that has not fully arrived makes
/// the frame malformed.
pub struct PayloadReader<'a> {
    pub payload: &'a [u8],
    pub at: usize,
    pub frame: &'static str,
}

/// The message about a field that is not there.
pub open spec fn ended_before(frame: Seq<char>, field: Seq<char>) -> Seq<char> {
    frame + " frame ended before its "@ + field + " field"@
}

/// A number of `n` bytes at the front, and what follows it.
pub open spec fn number_field(frame: Seq<char>, s: Seq<u8>, n: int, field: Seq<char>) -> Result<
    (int, Seq<u8>),
    Seq<char>,
> {
    if s.len() < n {
        Err(ended_before(frame, field))
    } else {
        Ok((number(s.take(n)), s.skip(n)))
    }
}

/// A text at the front, with its length before it, and what follows it.
pub open spec fn text_field(frame: Seq<char>, s: Seq<u8>, max: int, field: Seq<char>) -> Result<
    (Seq<char>, Seq<u8>),
    Seq<char>,
> {
    match number_field(frame, s, 2, field) {
        Err(e) => Err(e),
        Ok((len, rest)) => if len > max {
            Err(
                frame + " frame's "@ + field + " length "@ + decimal(len as nat) + " exceeds the "@
                    + decimal(max as nat) + " byte maximum"@,
            )
        } else if rest.len() < len {
            Err(ended_before(frame, field))
        } else if !valid_utf8(rest.take(len)) {
            Err("Invalid UTF-8 in "@ + frame + " frame's "@ + field)
        } else {
            Ok((decode_utf8(rest.take(len)), rest.skip(len)))
        },
    }
}

impl<'a> PayloadReader<'a> {
    pub open spec fn wf(self) -> bool {
        self.at <= self.payload@.len()
    }

    /// What has not been read yet.
    pub open spec fn rest(self) -> Seq<u8> {
        self.payload@.skip(self.at as int)
    }

    pub fn new(payload: &'a [u8], frame: &'static str) -> (r: Self)
        ensures
            r.wf(),
            r.rest() == payload@,
            r.frame@ == frame@,
    {
        assert(payload@.skip(0) =~= payload@);
        PayloadReader { payload, at: 0, frame }
    }

    fn short(&self, field: &str) -> (r: PacketError)
        ensures
            r.message@ == ended_before(self.frame@, field@),
    {
        let head: String = concat3(self.frame, " frame ended before its ", field);
        let mut message: String = head;
        message.append(" field");
        PacketError { message }
    }

    /// Reads a number of up to 8 bytes.
    fn number(&mut self, n: usize, field: &str) -> (r: Result<u64, PacketError>)
        requires
            old(self).wf(),
            n <= 8,
        ensures
            final(self).wf(),
            final(self).frame == old(self).frame,
            match number_field(old(self).frame@, old(self).rest(), n as int, field@) {
                Ok((x, rest)) => r matches Ok(v) && v == x && v < range(n as nat)
                    && final(self).rest() == rest,
                Err(e) => r matches Err(p) && p.message@ == e,
            },
    {
        if self.payload.len() - self.at < n {
            return Err(self.short(field));
        }
        let v: u64 = get_be(self.payload, self.at, n);
        proof {
            assert(self.payload@.subrange(self.at as int, self.at + n) =~= self.rest().take(
                n as int,
            ));
            assert(self.rest().skip(n as int) =~= self.payload@.skip(self.at + n));
        }
        self.at = self.at + n;
        Ok(v)
    }

    pub fn u16(&mut self, field: &str) -> (r: Result<u16, PacketError>)
        requires
            old(self).wf(),
        ensures
            final(self).wf(),
            final(self).frame == old(self).frame,
            match number_field(old(self).frame@, old(self).rest(), 2, field@) {
                Ok((x, rest)) => r matches Ok(v) && v == x && final(self).rest() == rest,
                Err(e) => r matches Err(p) && p.message@ == e,
            },
    {
        proof {
            lemma_ranges();
        }
        match self.number(2, field) {
            Ok(v) => Ok(v as u16),
            Err(e) => Err(e),
        }
    }

    pub fn u32(&mut self, field: &str) -> (r: Result<u32, PacketError>)
        requires
            old(self).wf(),
        ensures
            final(self).wf(),
            final(self).frame == old(self).frame,
            match number_field(old(self).frame@, old(self).rest(), 4, field@) {
                Ok((x, rest)) => r matches Ok(v) && v == x && final(self).rest() == rest,
                Err(e) => r matches Err(p) && p.message@ == e,
            },
    {
        proof {
            lemma_ranges();
        }
        match self.number(4, field) {
            Ok(v) => Ok(v as u32),
            Err(e) => Err(e),
        }
    }

    pub fn u64(&mut self, field: &str) -> (r: Result<u64, PacketError>)
        requires
            old(self).wf(),
        ensures
            final(self).wf(),
            final(self).frame == old(self).frame,
            match number_field(old(self).frame@, old(self).rest(), 8, field@) {
                Ok((x, rest)) => r matches Ok(v) && v == x && final(self).rest() == rest,
                Err(e) => r matches Err(p) && p.message@ == e,
            },
    {
        self.number(8, field)
    }

    /// Reads so many bytes.
    pub fn take(&mut self, n: usize, field: &str) -> (r: Result<Vec<u8>, PacketError>)
        requires
            old(self).wf(),
        ensures
            final(self).wf(),
            final(self).frame == old(self).frame,
            if old(self).rest().len() < n {
                r matches Err(p) && p.message@ == ended_before(old(self).frame@, field@)
            } else {
                r matches Ok(b) && b@ == old(self).rest().take(n as int) && final(self).rest()
                    == old(self).rest().skip(n as int)
            },
    {
        if self.payload.len() - self.at < n {
            return Err(self.short(field));
        }
        let b: Vec<u8> = part(self.payload, self.at, self.at + n);
        proof {
            assert(b@ =~= self.rest().take(n as int));
            assert(self.rest().skip(n as int) =~= self.payload@.skip(self.at + n));
        }
        self.at = self.at + n;
        Ok(b)
    }

    /// Reads a text. Its length is checked before anything is taken for it, and its bytes have
    /// to be UTF-8 to the letter.
    pub fn pascal_string(&mut self, max_len: usize, field: &str) -> (r: Result<String, PacketError>)
        requires
            old(self).wf(),
        ensures
            final(self).wf(),
            final(self).frame == old(self).frame,
            match text_field(old(self).frame@, old(self).rest(), max_len as int, field@) {
                Ok((x, rest)) => r matches Ok(s) && s@ == x && final(self).rest() == rest,
                Err(e) => r matches Err(p) && p.message@ == e,
            },
    {
        let len: usize = match self.u16(field) {
            Ok(v) => v as usize,
            Err(e) => {
                return Err(e);
            },
        };
        if len > max_len {
            let have: String = decimal_text(len as u64);
            let most: String = decimal_text(max_len as u64);
            let head: String = concat5(
                self.frame,
                " frame's ",
                field,
                " length ",
                have.as_str(),
            );
            let mut message: String = concat3(head.as_str(), " exceeds the ", most.as_str());
            message.append(" byte maximum");
            return Err(PacketError { message });
        }
        let bytes: Vec<u8> = match self.take(len, field) {
            Ok(b) => b,
            Err(e) => {
                return Err(e);
            },
        };
        match text_from_utf8(bytes) {
            Some(s) => Ok(s),
            None => {
                let head: String = concat3("Invalid UTF-8 in ", self.frame, " frame's ");
                let mut message: String = head;
                message.append(field);
                Err(PacketError { message })
            },
        }
    }
}

/// A candidate's request for a vote.
pub struct VoteRequest {
    pub cluster_id: String,
    pub candidate_id: u32,
    pub term: u64,
    pub last_log_index: u64,
}

/// A request for a vote, as values.
pub struct VoteView {
    pub cluster_id: Seq<char>,
    pub candidate_id: int,
    pub term: int,
    pub last_log_index: int,
}

impl VoteRequest {
    pub open spec fn view(self) -> VoteView {
        VoteView {
            cluster_id: self.cluster_id@,
            candidate_id: self.candidate_id as int,
            term: self.term as int,
            last_log_index: self.last_log_index as int,
        }
    }
}

/// The request in a frame.
pub open spec fn vote_in(payload: Seq<u8>) -> Result<VoteView, Seq<char>> {
    let f = "VoteRequest"@;
    match text_field(f, payload, MAX_CLUSTER_ID_LEN as int, "cluster_id"@) {
        Err(e) => Err(e),
        Ok((cluster_id, a)) => match number_field(f, a, 4, "candidate_id"@) {
            Err(e) => Err(e),
            Ok((candidate_id, b)) => match number_field(f, b, 8, "term"@) {
                Err(e) => Err(e),
                Ok((term, c)) => match number_field(f, c, 8, "candidate_last_log_index"@) {
                    Err(e) => Err(e),
                    Ok((last_log_index, _)) => Ok(
                        VoteView { cluster_id, candidate_id, term, last_log_index },
                    ),
                },
            },
        },
    }
}

/// Reads a request for a vote.
pub fn read_vote_request(payload: &[u8]) -> (r: Result<VoteRequest, PacketError>)
    ensures
        match r {
            Ok(v) => vote_in(payload@) == Ok::<VoteView, Seq<char>>(v@),
            Err(p) => vote_in(payload@) == Err::<VoteView, Seq<char>>(p.message@),
        },
{
    let mut reader = PayloadReader::new(payload, "VoteRequest");
    let cluster_id: String = match reader.pascal_string(MAX_CLUSTER_ID_LEN, "cluster_id") {
        Ok(x) => x,
        Err(e) => {
            return Err(e);
        },
    };
    let candidate_id: u32 = match reader.u32("candidate_id") {
        Ok(x) => x,
        Err(e) => {
            return Err(e);
        },
    };
    let term: u64 = match reader.u64("term") {
        Ok(x) => x,
        Err(e) => {
            return Err(e);
        },
    };
    let last_log_index: u64 = match reader.u64("candidate_last_log_index") {
        Ok(x) => x,
        Err(e) => {
            return Err(e);
        },
    };
    Ok(VoteRequest { cluster_id, candidate_id, term, last_log_index })
}

/// The topic of the cluster's metadata.
pub open spec fn metadata_topic() -> Seq<char> {
    "__cluster_metadata"@
}

/// How far this node's metadata log goes.
pub open spec fn metadata_end(v: EngineView, c: EngineConfig) -> u64 {
    if open_fault(v, c, metadata_topic(), 0) is None && v.partitions.contains_key(
        (metadata_topic(), 0),
    ) {
        v.partitions[(metadata_topic(), 0u32)].log_end_offset
    } else {
        0
    }
}

/// Whether a vote may be given, as far as this is decided without knowing who else was voted
/// for: the candidate is of this cluster, this node votes at all, and the candidate is behind
/// neither in term nor in its log.
pub open spec fn electable(e: StorageEngine, r: VoteView) -> bool {
    &&& r.cluster_id == e.config.cluster_id@
    &&& e.config.peer_addrs@.len() > 0
    &&& e.config.roles@.contains(ProcessRole::Controller)
    &&& r.term >= e.role.epoch
    &&& r.last_log_index >= metadata_end(e@, e.config)
}

/// A leader's sign of life.
pub struct Heartbeat {
    pub cluster_id: String,
    pub node_id: u32,
    pub term: u64,
    pub leader_bind_addr: String,
}

/// A sign of life, as values.
pub struct HeartbeatView {
    pub cluster_id: Seq<char>,
    pub node_id: int,
    pub term: int,
    pub leader_bind_addr: Seq<char>,
}

impl Heartbeat {
    pub open spec fn view(self) -> HeartbeatView {
        HeartbeatView {
            cluster_id: self.cluster_id@,
            node_id: self.node_id as int,
            term: self.term as int,
            leader_bind_addr: self.leader_bind_addr@,
        }
    }
}

/// The sign of life in a frame.
pub open spec fn heartbeat_in(payload: Seq<u8>) -> Result<HeartbeatView, Seq<char>> {
    let f = "Heartbeat"@;
    match text_field(f, payload, MAX_CLUSTER_ID_LEN as int, "cluster_id"@) {
        Err(e) => Err(e),
        Ok((cluster_id, a)) => match number_field(f, a, 4, "node_id"@) {
            Err(e) => Err(e),
            Ok((node_id, b)) => match number_field(f, b, 8, "term"@) {
                Err(e) => Err(e),
                Ok((term, c)) => match text_field(
                    f,
                    c,
                    MAX_BIND_ADDR_LEN as int,
                    "leader_bind_addr"@,
                ) {
                    Err(e) => Err(e),
                    Ok((leader_bind_addr, _)) => Ok(
                        HeartbeatView { cluster_id, node_id, term, leader_bind_addr },
                    ),
                },
            },
        },
    }
}

/// Reads a sign of life.
pub fn read_heartbeat(payload: &[u8]) -> (r: Result<Heartbeat, PacketError>)
    ensures
        match r {
            Ok(v) => heartbeat_in(payload@) == Ok::<HeartbeatView, Seq<char>>(v@),
            Err(p) => heartbeat_in(payload@) == Err::<HeartbeatView, Seq<char>>(p.message@),
        },
{
    let mut reader = PayloadReader::new(payload, "Heartbeat");
    let cluster_id: String = match reader.pascal_string(MAX_CLUSTER_ID_LEN, "cluster_id") {
        Ok(x) => x,
        Err(e) => {
            return Err(e);
        },
    };
    let node_id: u32 = match reader.u32("node_id") {
        Ok(x) => x,
        Err(e) => {
            return Err(e);
        },
    };
    let term: u64 = match reader.u64("term") {
        Ok(x) => x,
        Err(e) => {
            return Err(e);
        },
    };
    let leader_bind_addr: String = match reader.pascal_string(
        MAX_BIND_ADDR_LEN,
        "leader_bind_addr",
    ) {
        Ok(x) => x,
        Err(e) => {
            return Err(e);
        },
    };
    Ok(Heartbeat { cluster_id, node_id, term, leader_bind_addr })
}

/// Whether a sign of life is taken: it is of this cluster, its sender does not claim to be this
/// node, and it is among the peers that were configured, if any were.
pub open spec fn welcome(e: StorageEngine, h: HeartbeatView) -> bool {
    &&& h.cluster_id == e.config.cluster_id@
    &&& h.leader_bind_addr != e.role.advertised_addr@
    &&& e.config.peer_addrs@.len() == 0 || text_views(e.config.peer_addrs@).contains(
        h.leader_bind_addr,
    )
}

/// The answer to a sign of life. A refusal says nothing of this node.
pub enum HeartbeatReply {
    Rejected,
    Accepted { node_id: u32, advertised_addr: String, roles: Vec<ProcessRole> },
}

/// A leader's push of entries.
pub struct Push {
    pub topic: String,
    pub partition: u32,
    pub epoch: u64,
    pub leader_hw: u64,
    pub entries: Vec<u8>,
}

/// A push, as values.
pub struct PushView {
    pub topic: Seq<char>,
    pub partition: int,
    pub epoch: int,
    pub leader_hw: int,
    pub entries: Seq<u8>,
}

impl Push {
    pub open spec fn view(self) -> PushView {
        PushView {
            topic: self.topic@,
            partition: self.partition as int,
            epoch: self.epoch as int,
            leader_hw: self.leader_hw as int,
            entries: self.entries@,
        }
    }
}

/// The push in a frame. One of another cluster is refused before the rest is looked at.
pub open spec fn push_in(payload: Seq<u8>, cluster_id: Seq<char>) -> Result<PushView, Seq<char>> {
    let f = "ReplicationPush"@;
    match text_field(f, payload, MAX_CLUSTER_ID_LEN as int, "cluster_id"@) {
        Err(e) => Err(e),
        Ok((id, a)) => if id != cluster_id {
            Err("Replication cluster_id mismatch"@)
        } else {
            match text_field(f, a, MAX_TOPIC_NAME_LEN as int, "topic"@) {
                Err(e) => Err(e),
                Ok((topic, b)) => match number_field(f, b, 4, "partition"@) {
                    Err(e) => Err(e),
                    Ok((partition, c)) => match number_field(f, c, 8, "epoch"@) {
                        Err(e) => Err(e),
                        Ok((epoch, d)) => match number_field(f, d, 8, "leader_hw"@) {
                            Err(e) => Err(e),
                            Ok((leader_hw, g)) => match number_field(f, g, 4, "entries_len"@) {
                                Err(e) => Err(e),
                                Ok((n, h)) => if h.len() < n {
                                    Err(ended_before(f, "entry bytes"@))
                                } else {
                                    Ok(
                                        PushView {
                                            topic,
                                            partition,
                                            epoch,
                                            leader_hw,
                                            entries: h.take(n),
                                        },
                                    )
                                },
                            },
                        },
                    },
                },
            }
        },
    }
}

fn read_push(payload: &[u8], cluster_id: &str) -> (r: Result<Push, PacketError>)
    ensures
        match r {
            Ok(v) => push_in(payload@, cluster_id@) == Ok::<PushView, Seq<char>>(v@),
            Err(p) => push_in(payload@, cluster_id@) == Err::<PushView, Seq<char>>(p.message@),
        },
{
    let mut reader = PayloadReader::new(payload, "ReplicationPush");
    let id: String = match reader.pascal_string(MAX_CLUSTER_ID_LEN, "cluster_id") {
        Ok(x) => x,
        Err(e) => {
            return Err(e);
        },
    };
    if !same_text(id.as_str(), cluster_id) {
        return Err(PacketError { message: owned("Replication cluster_id mismatch") });
    }
    let topic: String = match reader.pascal_string(MAX_TOPIC_NAME_LEN, "topic") {
        Ok(x) => x,
        Err(e) => {
            return Err(e);
        },
    };
    let partition: u32 = match reader.u32("partition") {
        Ok(x) => x,
        Err(e) => {
            return Err(e);
        },
    };
    let epoch: u64 = match reader.u64("epoch") {
        Ok(x) => x,
        Err(e) => {
            return Err(e);
        },
    };
    let leader_hw: u64 = match reader.u64("leader_hw") {
        Ok(x) => x,
        Err(e) => {
            return Err(e);
        },
    };
    let n: usize = match reader.u32("entries_len") {
        Ok(x) => x as usize,
        Err(e) => {
            return Err(e);
        },
    };
    let entries: Vec<u8> = match reader.take(n, "entry bytes") {
        Ok(x) => x,
        Err(e) => {
            return Err(e);
        },
    };
    Ok(Push { topic, partition, epoch, leader_hw, entries })
}

/// The epoch that a push must not be behind: of the metadata that of the cluster's leader, of a
/// partition that of its own leader.
pub open spec fn fence(e: StorageEngine, topic: Seq<char>, partition: u32) -> u64 {
    if topic == metadata_topic() {
        e.role.epoch
    } else if e@.partitions.contains_key((topic, partition)) {
        e@.partitions[(topic, partition)].leader_epoch as u64
    } else {
        0
    }
}

/// What comes of a push at first.
pub enum PushStep {
    /// Its sender leads no more, and is to step down.
    StaleEpoch,
    /// Its entries are to be appended.
    Append { push: Push },
}

/// What the log did with one entry of a push.
#[derive(Debug, Clone, Copy, PartialEq, Eq, Structural)]
pub enum EntryOutcome {
    Appended,
    AlreadyApplied,
    /// Entries before it are missing. Nothing behind it is tried.
    Gap,
    Failed,
}

/// Whether an entry is in the log.
pub open spec fn kept(o: EntryOutcome) -> bool {
    o is Appended || o is AlreadyApplied
}

/// Whether a push is acknowledged: all its entries are in the log, and the log was synced.
pub open spec fn acknowledged(outcomes: Seq<EntryOutcome>, flushed: bool) -> bool {
    flushed && forall|i: int| 0 <= i < outcomes.len() ==> kept(#[trigger] outcomes[i])
}

/// Whether the next entry of a push is to be tried.
pub fn goes_on(outcome: EntryOutcome) -> (r: bool)
    ensures
        r == !(outcome is Gap),
{
    match outcome {
        EntryOutcome::Gap => false,
        _ => true,
    }
}

/// Whether a push is acknowledged. Its metadata takes effect only then, so memory never runs
/// ahead of the disk.
pub fn acknowledge_push(outcomes: &[EntryOutcome], flushed: bool) -> (r: bool)
    ensures
        r == acknowledged(outcomes@, flushed),
{
    let mut ok: bool = flushed;
    let mut i: usize = 0;
    while i < outcomes.len()
        invariant
            i <= outcomes.len(),
            ok == (flushed && forall|j: int| 0 <= j < i ==> kept(#[trigger] outcomes@[j])),
        decreases outcomes.len() - i,
    {
        match outcomes[i] {
            EntryOutcome::Appended => {},
            EntryOutcome::AlreadyApplied => {},
            EntryOutcome::Gap => {
                assert(!kept(outcomes@[i as int]));
                ok = false;
            },
            EntryOutcome::Failed => {
                assert(!kept(outcomes@[i as int]));
                ok = false;
            },
        }
        i = i + 1;
    }
    ok
}

/// How far a push has come: what the log did with its entries, and the metadata in those that are
/// in the log.
pub struct PushProgress {
    pub outcomes: Vec<EntryOutcome>,
    pub pending: Vec<(u64, MetadataRecord)>,
}

impl PushProgress {
    pub fn new() -> (r: Self)
        ensures
            r.outcomes@.len() == 0,
            r.pending@.len() == 0,
    {
        PushProgress { outcomes: Vec::new(), pending: Vec::new() }
    }

    /// Notes what the log did with the next entry, which holds `records` of metadata. Returns
    /// whether the entry after it is to be tried.
    pub fn take(&mut self, outcome: EntryOutcome, records: Vec<(u64, MetadataRecord)>) -> (r: bool)
        ensures
            r == !(outcome is Gap),
            final(self).outcomes@ == old(self).outcomes@.push(outcome),
            final(self).pending@ == (if kept(outcome) {
                old(self).pending@ + records@
            } else {
                old(self).pending@
            }),
    {
        self.outcomes.push(outcome);
        match outcome {
            EntryOutcome::Appended => {
                let mut more: Vec<(u64, MetadataRecord)> = records;
                self.pending.append(&mut more);
            },
            EntryOutcome::AlreadyApplied => {
                let mut more: Vec<(u64, MetadataRecord)> = records;
                self.pending.append(&mut more);
            },
            _ => {},
        }
        goes_on(outcome)
    }

    /// Ends the push. The result holds the metadata that takes effect, if the push is
    /// acknowledged: memory never runs ahead of the disk.
    pub fn finish(self, flushed: bool) -> (r: Option<Vec<(u64, MetadataRecord)>>)
        ensures
            match r {
                Some(records) => acknowledged(self.outcomes@, flushed) && records@ == self.pending@,
                None => !acknowledged(self.outcomes@, flushed),
            },
    {
        if acknowledge_push(self.outcomes.as_slice(), flushed) {
            Some(self.pending)
        } else {
            None
        }
    }
}

/// Whether one more entry of a push may be decoded after so many.
pub fn check_entry_count(decoded: usize) -> (r: Result<(), PacketError>)
    ensures
        match r {
            Ok(()) => decoded < MAX_REPLICATION_BATCH_COUNT,
            Err(e) => decoded >= MAX_REPLICATION_BATCH_COUNT && e.message@
                == "Replication batch entry count too large"@,
        },
{
    if decoded >= MAX_REPLICATION_BATCH_COUNT {
        return Err(PacketError { message: owned("Replication batch entry count too large") });
    }
    Ok(())
}

/// What a follower that fetches is served.
pub enum FetchServing {
    /// Nothing: this node does not lead the partition, or may not use it.
    Nothing,
    /// The partition has to be opened first.
    Open,
    /// Entries from the offset on, and the committed offset. `confirmed` is what the request
    /// itself proves: that the follower has everything before it.
    Serve { high_watermark: u64, confirmed: Option<(String, u64)> },
}

impl StorageEngine {
    fn metadata_log_end(&self) -> (r: u64)
        requires
            self.wf(),
        ensures
            r == metadata_end(self@, self.config),
    {
        match self.get_or_create_partition("__cluster_metadata", 0) {
            Ok(_) => match self.partitions.get("__cluster_metadata", 0) {
                Some(p) => p.log_end_offset,
                None => 0,
            },
            Err(_) => 0,
        }
    }

    /// Whether a candidate may get this node's vote, if it gave it to nobody else in the term.
    /// The result then holds the candidate and the term.
    pub fn handle_vote_request(&self, payload: &[u8]) -> (r: Result<
        Option<(u32, u64)>,
        PacketError,
    >)
        requires
            self.wf(),
        ensures
            match vote_in(payload@) {
                Err(e) => r matches Err(p) && p.message@ == e,
                Ok(v) => if electable(*self, v) {
                    r matches Ok(Some(x)) && x.0 == v.candidate_id && x.1 == v.term
                } else {
                    r matches Ok(None)
                },
            },
    {
        let v: VoteRequest = match read_vote_request(payload) {
            Ok(v) => v,
            Err(e) => {
                return Err(e);
            },
        };
        if !same_text(v.cluster_id.as_str(), self.config.cluster_id.as_str()) {
            return Ok(None);
        }
        if self.config.peer_addrs.len() == 0 {
            return Ok(None);
        }
        if !has_role(self.config.roles.as_slice(), ProcessRole::Controller) {
            return Ok(None);
        }
        let log_ok: bool = v.last_log_index >= self.metadata_log_end();
        if v.term >= self.role.epoch && log_ok {
            Ok(Some((v.candidate_id, v.term)))
        } else {
            Ok(None)
        }
    }

    /// Takes over the term of a candidate that got this node's vote.
    pub fn adopt_epoch(&mut self, term: u64)
        requires
            old(self).wf(),
        ensures
            final(self).wf(),
            *final(self) == (StorageEngine {
                role: ClusterRole { epoch: term, ..old(self).role },
                ..*old(self)
            }),
    {
        self.role.epoch = term;
    }

    fn is_peer(&self, addr: &str) -> (r: bool)
        ensures
            r == text_views(self.config.peer_addrs@).contains(addr@),
    {
        let ghost views = text_views(self.config.peer_addrs@);
        let mut i: usize = 0;
        while i < self.config.peer_addrs.len()
            invariant
                i <= self.config.peer_addrs.len(),
                views == text_views(self.config.peer_addrs@),
                forall|j: int| 0 <= j < i ==> views[j] != addr@,
            decreases self.config.peer_addrs.len() - i,
        {
            assert(views[i as int] == self.config.peer_addrs@[i as int]@);
            if same_text(self.config.peer_addrs[i].as_str(), addr) {
                return true;
            }
            i = i + 1;
        }
        false
    }

    /// Takes a leader's sign of life. One of an old term changes nothing, but is answered.
    pub fn handle_heartbeat(&mut self, payload: &[u8]) -> (r: Result<HeartbeatReply, PacketError>)
        requires
            old(self).wf(),
        ensures
            final(self).wf(),
            match heartbeat_in(payload@) {
                Err(e) => (r matches Err(p) && p.message@ == e) && *final(self) == *old(self),
                Ok(h) => if !welcome(*old(self), h) {
                    (r matches Ok(x) && x is Rejected) && *final(self) == *old(self)
                } else {
                    &&& r matches Ok(HeartbeatReply::Accepted { node_id, advertised_addr, roles })
                        && node_id == old(self).config.node_id && advertised_addr@ == old(self).role.advertised_addr@ && roles@ == old(self).config.roles@
                    &&& if h.term >= old(self).role.epoch {
                        &&& *final(self) == (StorageEngine {
                            role: ClusterRole {
                                epoch: h.term as u64,
                                leader_addr: final(self).role.leader_addr,
                                ..old(self).role
                            },
                            brokers: final(self).brokers,
                            ..*old(self)
                        })
                        &&& final(self).role.epoch == h.term
                        &&& final(self).role.leader_addr matches Some(a) && a@ == h.leader_bind_addr
                        &&& final(self)@ == (EngineView {
                            brokers: old(self)@.brokers.insert(
                                h.node_id as u32,
                                BrokerView {
                                    addr: Some(h.leader_bind_addr),
                                    roles: if old(self)@.brokers.contains_key(h.node_id as u32) {
                                        old(self)@.brokers[h.node_id as u32].roles
                                    } else {
                                        None
                                    },
                                },
                            ),
                            ..old(self)@
                        })
                    } else {
                        *final(self) == *old(self)
                    }
                },
            },
    {
        let h: Heartbeat = match read_heartbeat(payload) {
            Ok(h) => h,
            Err(e) => {
                return Err(e);
            },
        };
        if !same_text(h.cluster_id.as_str(), self.config.cluster_id.as_str()) {
            return Ok(HeartbeatReply::Rejected);
        }
        if same_text(h.leader_bind_addr.as_str(), self.role.advertised_addr.as_str()) {
            return Ok(HeartbeatReply::Rejected);
        }
        if self.config.peer_addrs.len() > 0 && !self.is_peer(h.leader_bind_addr.as_str()) {
            return Ok(HeartbeatReply::Rejected);
        }
        let reply = HeartbeatReply::Accepted {
            node_id: self.config.node_id,
            advertised_addr: owned(self.role.advertised_addr.as_str()),
            roles: slice_to_vec(self.config.roles.as_slice()),
        };
        if h.term >= self.role.epoch {
            self.role.epoch = h.term;
            self.role.leader_addr = Some(owned(h.leader_bind_addr.as_str()));
            self.brokers.register_broker_address(h.node_id, h.leader_bind_addr);
        }
        Ok(reply)
    }

    /// Takes a leader's push. One from a leader of an old epoch is refused; one of the metadata
    /// with a newer epoch makes this node take the epoch over.
    pub fn handle_replication_push(&mut self, payload: &[u8]) -> (r: Result<PushStep, PacketError>)
        requires
            old(self).wf(),
        ensures
            final(self).wf(),
            match push_in(payload@, old(self).config.cluster_id@) {
                Err(e) => (r matches Err(p) && p.message@ == e) && *final(self) == *old(self),
                Ok(v) => {
                    let current = fence(*old(self), v.topic, v.partition as u32);
                    if v.epoch < current {
                        (r matches Ok(x) && x is StaleEpoch) && *final(self) == *old(self)
                    } else {
                        &&& r matches Ok(PushStep::Append { push }) && push@ == v
                        &&& *final(self) == (StorageEngine {
                            role: ClusterRole {
                                epoch: if v.topic == metadata_topic() {
                                    v.epoch as u64
                                } else {
                                    old(self).role.epoch
                                },
                                ..old(self).role
                            },
                            ..*old(self)
                        })
                        &&& v.topic == metadata_topic() ==> final(self).role.epoch == v.epoch
                    }
                },
            },
    {
        let push: Push = match read_push(payload, self.config.cluster_id.as_str()) {
            Ok(p) => p,
            Err(e) => {
                return Err(e);
            },
        };
        let meta: bool = same_text(push.topic.as_str(), "__cluster_metadata");
        let current: u64 = if meta {
            self.role.epoch
        } else {
            match self.partitions.get(push.topic.as_str(), push.partition) {
                Some(p) => p.leader_epoch as u64,
                None => 0,
            }
        };
        if push.epoch < current {
            return Ok(PushStep::StaleEpoch);
        }
        if push.epoch > current && meta {
            self.role.epoch = push.epoch;
        }
        Ok(PushStep::Append { push })
    }

    /// Notes what the log did with an entry of a push. Returns whether a sync is due because so
    /// many bytes are waiting.
    pub fn replica_appended(
        &mut self,
        topic: &str,
        partition: u32,
        result: VerbatimAppendResult,
        entry: &BatchHeader,
    ) -> (due: bool)
        requires
            old(self).wf(),
            old(self)@.partitions.contains_key((topic@, partition)),
            entry.wf(),
        ensures
            final(self).wf(),
            final(self).same_node(*old(self)),
            ({
                let p = old(self)@.partitions[(topic@, partition)];
                let waiting = p.unsynced_bytes + entry.encoded_size;
                if result is Appended {
                    &&& due == sync_due(p.flush_policy, waiting)
                    &&& final(self)@ == (EngineView {
                        partitions: old(self)@.partitions.insert(
                            (topic@, partition),
                            PartitionView {
                                log_end_offset: (entry.last_offset() + 1) as u64,
                                unsynced_bytes: wrapped(waiting),
                                ..p
                            },
                        ),
                        ..old(self)@
                    })
                } else {
                    !due && final(self)@ == old(self)@
                }
            }),
    {
        match self.partitions.find(topic, partition) {
            Some(i) => {
                let ghost before = self.partitions;
                let p = self.partitions.partitions.value_mut(i);
                let due: bool = p.append_replica_entry_verbatim(result, entry);
                proof {
                    let q = self.partitions.partitions@[partition_name((topic@, partition))];
                    before.lemma_replaced(self.partitions, (topic@, partition), q);
                    if !(result is Appended) {
                        assert(self@.partitions =~= old(self)@.partitions);
                    }
                }
                due
            },
            None => false,
        }
    }

    /// Takes over the leader's committed offset after a push, as far as this log goes. Returns
    /// whether the log is to be synced before the push is acknowledged.
    pub fn push_appended(&mut self, topic: &str, partition: u32, leader_hw: u64) -> (sync: bool)
        requires
            old(self).wf(),
            old(self)@.partitions.contains_key((topic@, partition)),
        ensures
            final(self).wf(),
            final(self).same_node(*old(self)),
            ({
                let p = old(self)@.partitions[(topic@, partition)];
                let c = if leader_hw < p.log_end_offset {
                    leader_hw
                } else {
                    p.log_end_offset
                };
                &&& sync == (topic@ == metadata_topic() || p.flush_policy is SyncEveryBatch
                    || p.flush_policy is UnbufferedSync)
                &&& final(self)@ == (EngineView {
                    partitions: old(self)@.partitions.insert(
                        (topic@, partition),
                        PartitionView {
                            committed_hw: if c > p.committed_hw {
                                c
                            } else {
                                p.committed_hw
                            },
                            ..p
                        },
                    ),
                    ..old(self)@
                })
            }),
    {
        match self.partitions.find(topic, partition) {
            Some(i) => {
                let ghost before = self.partitions;
                let p = self.partitions.partitions.value_mut(i);
                let _ = p.follow_committed_hw(leader_hw);
                let policy: bool = p.flush_if_sync_policy();
                proof {
                    let q = self.partitions.partitions@[partition_name((topic@, partition))];
                    before.lemma_replaced(self.partitions, (topic@, partition), q);
                }
                policy || same_text(topic, "__cluster_metadata")
            },
            None => false,
        }
    }

    /// What a follower that asks for entries from `fetch_offset` on is served.
    pub fn handle_replication_fetch(
        &self,
        topic: &str,
        partition: u32,
        fetch_offset: u64,
        follower_node_id: u32,
    ) -> (r: FetchServing)
        requires
            self.wf(),
        ensures
            if !leads(self@, self.config, self.role.is_leader, topic@, partition) || open_fault(
                self@,
                self.config,
                topic@,
                partition,
            ) is Some {
                r is Nothing
            } else if access(self@, topic@, partition) is Open {
                r is Open
            } else {
                r matches FetchServing::Serve { high_watermark, confirmed } && {
                    &&& high_watermark == self@.partitions[(topic@, partition)].committed_hw
                    &&& match confirmed {
                        Some((addr, offset)) => fetch_offset > 0 && offset == fetch_offset - 1
                            && address_of(self@.brokers, follower_node_id) == Some(addr@),
                        None => fetch_offset == 0 || address_of(
                            self@.brokers,
                            follower_node_id,
                        ) is None,
                    }
                }
            },
    {
        if !self.is_partition_leader(topic, partition) {
            return FetchServing::Nothing;
        }
        match self.get_or_create_partition(topic, partition) {
            Err(_) => FetchServing::Nothing,
            Ok(Access::Open) => FetchServing::Open,
            Ok(Access::Ready) => match self.partitions.get(topic, partition) {
                None => FetchServing::Nothing,
                Some(p) => {
                    let confirmed: Option<(String, u64)> = if fetch_offset > 0 {
                        match self.brokers.get_broker_address(follower_node_id) {
                            Some(a) => Some((a, fetch_offset - 1)),
                            None => None,
                        }
                    } else {
                        None
                    };
                    FetchServing::Serve { high_watermark: p.committed_hw, confirmed }
                },
            },
        }
    }
}

/// How far the reply of a leader has come in.
pub enum ForwardReply {
    /// So many bytes in all have to come in before more can be said.
    NeedBytes { total: usize },
    /// It is too long.
    Refused { message: String },
    /// The reply without its correlation number.
    Done { response: Vec<u8> },
}

/// Where the status of a reply stands: behind the correlation number, if there is one.
pub open spec fn status_at(s: Seq<u8>) -> int {
    if s.len() > 0 && s[0] == VERSIONED_ENVELOPE_MAGIC {
        5
    } else {
        0
    }
}

/// How far a reply has come in.
pub open spec fn forwarded(s: Seq<u8>, r: ForwardReply) -> bool {
    let at = status_at(s);
    if s.len() == 0 {
        r matches ForwardReply::NeedBytes { total } && total == 1
    } else if s.len() < at + 5 {
        r matches ForwardReply::NeedBytes { total } && total == at + 5
    } else {
        let n = number(s.subrange(at + 1, at + 5));
        if n > MAX_FORWARD_RESPONSE_BYTES {
            r matches ForwardReply::Refused { message } && message@
                == "Leader forward response payload "@ + decimal(n as nat) + " exceeds maximum "@
                + decimal(MAX_FORWARD_RESPONSE_BYTES as nat) + " bytes"@
        } else if s.len() < at + 5 + n {
            r matches ForwardReply::NeedBytes { total } && total == at + 5 + n
        } else {
            r matches ForwardReply::Done { response } && response@ == s.subrange(at, at + 5 + n)
        }
    }
}

/// Reads the reply of a leader, as far as it has come in.
pub fn read_forward_reply(s: &[u8]) -> (r: ForwardReply)
    ensures
        forwarded(s@, r),
{
    if s.len() == 0 {
        return ForwardReply::NeedBytes { total: 1 };
    }
    let at: usize = if s[0] == VERSIONED_ENVELOPE_MAGIC {
        5
    } else {
        0
    };
    if s.len() < at + 5 {
        return ForwardReply::NeedBytes { total: at + 5 };
    }
    proof {
        lemma_ranges();
    }
    let n: usize = get_be(s, at + 1, 4) as usize;
    if n > MAX_FORWARD_RESPONSE_BYTES {
        let have: String = decimal_text(n as u64);
        let most: String = decimal_text(MAX_FORWARD_RESPONSE_BYTES as u64);
        let message: String = concat5(
            "Leader forward response payload ",
            have.as_str(),
            " exceeds maximum ",
            most.as_str(),
            " bytes",
        );
        return ForwardReply::Refused { message };
    }
    if s.len() < at + 5 + n {
        return ForwardReply::NeedBytes { total: at + 5 + n };
    }
    ForwardReply::Done { response: part(s, at, at + 5 + n) }
}

/// No vote goes to a candidate whose metadata log is shorter than this node's, so no election
/// rolls metadata back that this node has.
pub proof fn votes_keep_the_log(e: StorageEngine, r: VoteView)
    requires
        r.last_log_index < metadata_end(e@, e.config) || r.term < e.role.epoch || r.cluster_id
            != e.config.cluster_id@,
    ensures
        !electable(e, r),
{
}

/// A node never takes itself for its leader on the word of a peer.
pub proof fn nobody_else_is_this_node(e: StorageEngine, h: HeartbeatView)
    requires
        h.leader_bind_addr == e.role.advertised_addr@,
    ensures
        !welcome(e, h),
{
}

/// The kinds of frames that nodes exchange.
#[derive(Debug, Clone, Copy, PartialEq, Eq, Structural)]
pub enum FrameType {
    ReplicationPush,
    ReplicationPushAck,
    Heartbeat,
    HeartbeatAck,
    VoteRequest,
    VoteResponse,
    ReplicationFetch,
    ReplicationFetchResponse,
}

/// The name of a kind of frame that is a reply.
pub open spec fn reply_name(f: FrameType) -> Option<Seq<char>> {
    match f {
        FrameType::ReplicationPushAck => Some("ReplicationPushAck"@),
        FrameType::HeartbeatAck => Some("HeartbeatAck"@),
        FrameType::VoteResponse => Some("VoteResponse"@),
        FrameType::ReplicationFetchResponse => Some("ReplicationFetchResponse"@),
        _ => None,
    }
}

/// Refuses a frame that is a reply where a request is expected.
pub fn check_request_frame(f: FrameType) -> (r: Result<(), PacketError>)
    ensures
        match r {
            Ok(()) => reply_name(f) is None,
            Err(e) => reply_name(f) is Some && e.message@ == "received "@ + reply_name(f)->0
                + ", which is a reply and never a request"@,
        },
{
    let name: &str = match f {
        FrameType::ReplicationPushAck => "ReplicationPushAck",
        FrameType::HeartbeatAck => "HeartbeatAck",
        FrameType::VoteResponse => "VoteResponse",
        FrameType::ReplicationFetchResponse => "ReplicationFetchResponse",
        _ => {
            return Ok(());
        },
    };
    Err(
        PacketError {
            message: concat3("received ", name, ", which is a reply and never a request"),
        },
    )
}

} // verus!
