//! Where a request is served, and who may connect.
use crate::engine::brokers::address_of;
use crate::engine::produce::{choose_partition, target_partition};
use crate::engine::state::{leader_of, leads, StorageEngine};
use crate::request::payload::{changes_metadata, is_controller_mutation, RequestPayload};
use crate::text::{chars_of, find_char, owned, part_chars, same_text, text_of};
use vstd::prelude::*;
use vstd::slice::*;
use vstd::string::*;
use vstd::utf8::*;

verus! {

/// What a connection has to begin with if the broker asks for a token.
pub open spec fn auth_magic() -> Seq<u8> {
    seq![0xCAu8, 0xFEu8, 0xBAu8, 0xBEu8]
}

/// How much of a request a connection takes in at most, in bytes.
pub const MAX_CONNECTION_BUFFER: usize = 134_217_728;

/// What stands before the first colon of an address, or all of it.
pub open spec fn host_of(addr: Seq<char>) -> Seq<char> {
    if addr.contains(':') {
        addr.take(addr.index_of_first(':')->0)
    } else {
        addr
    }
}

/// The host of an address.
pub fn peer_host(addr: &str) -> (r: String)
    ensures
        r@ == host_of(addr@),
{
    let chars: Vec<char> = chars_of(addr);
    proof {
        chars@.index_of_first_ensures(':');
    }
    match find_char(chars.as_slice(), ':') {
        Some(i) => {
            assert(chars@.contains(':'));
            let head: Vec<char> = part_chars(chars.as_slice(), 0, i);
            assert(head@ =~= addr@.take(i as int));
            text_of(head.as_slice())
        },
        None => owned(addr),
    }
}

/// Whether a connection has to bring the token: one is asked for, clients do not say who they
/// are in another way, and the other end is no known peer.
pub open spec fn token_needed(
    e: StorageEngine,
    peer_addr: Seq<char>,
) -> bool {
    &&& e.config.auth_token is Some
    &&& !e.config.sasl_required
    &&& !exists|i: int|
        0 <= i < e.config.peer_addrs@.len() && host_of(#[trigger] e.config.peer_addrs@[i]@)
            == host_of(peer_addr)
}

/// Whether what a connection begins with is the token.
pub open spec fn brings_token(token: Seq<char>, first: Seq<u8>) -> bool {
    first == auth_magic() + encode_utf8(token)
}

/// Where a request goes.
pub enum Route {
    /// It is served here.
    Here,
    /// It is passed on to this address, marked as passed on.
    Forward { addr: String },
    /// It cannot be served now.
    Refuse { message: String },
}

/// The address of the leader of a partition, or of the cluster's leader if that is not known.
pub open spec fn leader_address(e: StorageEngine, topic: Seq<char>, partition: u32) -> Option<Seq<char>> {
    let direct = match leader_of(e@, topic, partition) {
        Some(id) => address_of(e@.brokers, id),
        None => None,
    };
    match direct {
        Some(a) => Some(a),
        None => match e.role.leader_addr {
            Some(a) => Some(a@),
            None => None,
        },
    }
}

/// Where a request goes. One that was passed on is served where it arrives.
pub open spec fn routed(e: StorageEngine, p: RequestPayload, forwarded: bool, r: Route) -> bool {
    match p {
        RequestPayload::ProduceBatch { topic, key, num_partitions, .. } => {
            let partition = target_partition(key@, num_partitions);
            if forwarded || leads(e@, e.config, e.role.is_leader, topic@, partition) {
                r is Here
            } else {
                match leader_address(e, topic@, partition) {
                    Some(a) => r matches Route::Forward { addr } && addr@ == a,
                    None => r matches Route::Refuse { message } && message@
                        == "NOT_LEADER: No leader elected for this partition. Retry later."@,
                }
            }
        },
        _ => if changes_metadata(p) && !e.role.is_leader && !forwarded {
            match e.role.leader_addr {
                Some(a) => r matches Route::Forward { addr } && addr@ == a@,
                None => r matches Route::Refuse { message } && message@
                    == "NOT_CONTROLLER: No cluster leader elected. Retry later."@,
            }
        } else {
            r is Here
        },
    }
}

/// What a client is told if its request could not be passed on.
pub fn forward_failed(p: &RequestPayload, reason: &str) -> (r: String)
    ensures
        r@ == (if *p is ProduceBatch {
            "Failed to forward produce to leader: "@
        } else {
            "Failed to forward request to cluster leader: "@
        }) + reason@,
{
    let mut message: String = match p {
        RequestPayload::ProduceBatch { .. } => owned("Failed to forward produce to leader: "),
        _ => owned("Failed to forward request to cluster leader: "),
    };
    message.append(reason);
    message
}

/// How large the buffer of a connection becomes when it is full. None if it is as large as it
/// may be, and the connection is to be closed.
pub fn grown_buffer(len: usize) -> (r: Option<usize>)
    ensures
        r == (if len >= MAX_CONNECTION_BUFFER {
            None
        } else if 2 * len < MAX_CONNECTION_BUFFER {
            Some((2 * len) as usize)
        } else {
            Some(MAX_CONNECTION_BUFFER)
        }),
{
    if len >= MAX_CONNECTION_BUFFER {
        return None;
    }
    if len * 2 < MAX_CONNECTION_BUFFER {
        Some(len * 2)
    } else {
        Some(MAX_CONNECTION_BUFFER)
    }
}

/// Whether what a connection begins with is the token.
pub fn check_token(token: &str, first: &[u8]) -> (r: bool)
    ensures
        r == brings_token(token@, first@),
{
    let bytes: &[u8] = token.as_bytes();
    let ghost want = auth_magic() + encode_utf8(token@);
    if first.len() < 4 || first.len() - 4 != bytes.len() {
        return false;
    }
    if first[0] != 0xCA || first[1] != 0xFE || first[2] != 0xBA || first[3] != 0xBE {
        assert(want[0] == 0xCAu8 && want[1] == 0xFEu8 && want[2] == 0xBAu8 && want[3] == 0xBEu8);
        return false;
    }
    let mut i: usize = 0;
    while i < bytes.len()
        invariant
            i <= bytes.len(),
            first.len() - 4 == bytes.len(),
            bytes@ == encode_utf8(token@),
            want == auth_magic() + encode_utf8(token@),
            forall|j: int| 0 <= j < i ==> first@[j + 4] == #[trigger] bytes@[j],
        decreases bytes.len() - i,
    {
        assert(i + 4 < first.len());
        if first[i + 4] != bytes[i] {
            assert(want[i + 4] == bytes@[i as int]);
            return false;
        }
        i = i + 1;
    }
    proof {
        assert forall|j: int| 0 <= j < first@.len() implies first@[j] == want[j] by {
            if j >= 4 {
                assert(first@[(j - 4) + 4] == bytes@[j - 4]);
            }
        }
        assert(first@ =~= want);
    }
    true
}

impl StorageEngine {
    /// Whether a connection from this address has to bring the token.
    pub fn needs_token(&self, peer_addr: &str) -> (r: bool)
        ensures
            r == token_needed(*self, peer_addr@),
    {
        if self.config.auth_token.is_none() || self.config.sasl_required {
            return false;
        }
        let host: String = peer_host(peer_addr);
        let mut i: usize = 0;
        while i < self.config.peer_addrs.len()
            invariant
                i <= self.config.peer_addrs.len(),
                host@ == host_of(peer_addr@),
                forall|j: int|
                    0 <= j < i ==> host_of(#[trigger] self.config.peer_addrs@[j]@) != host_of(
                        peer_addr@,
                    ),
            decreases self.config.peer_addrs.len() - i,
        {
            let other: String = peer_host(self.config.peer_addrs[i].as_str());
            if same_text(other.as_str(), host.as_str()) {
                return false;
            }
            i = i + 1;
        }
        true
    }

    /// Where a request goes.
    pub fn route_request(&self, p: &RequestPayload, forwarded: bool) -> (r: Route)
        requires
            self.wf(),
        ensures
            routed(*self, *p, forwarded, r),
    {
        match p {
            RequestPayload::ProduceBatch { topic, key, num_partitions, .. } => {
                let partition: u32 = choose_partition(key.as_str(), *num_partitions);
                if forwarded || self.is_partition_leader(topic.as_str(), partition) {
                    return Route::Here;
                }
                let direct: Option<String> = match self.partition_leader_id(
                    topic.as_str(),
                    partition,
                ) {
                    Some(id) => self.brokers.get_broker_address(id),
                    None => None,
                };
                match direct {
                    Some(addr) => Route::Forward { addr },
                    None => match &self.role.leader_addr {
                        Some(a) => Route::Forward { addr: owned(a.as_str()) },
                        None => Route::Refuse {
                            message: owned(
                                "NOT_LEADER: No leader elected for this partition. Retry later.",
                            ),
                        },
                    },
                }
            },
            _ => {
                if is_controller_mutation(p) && !self.role.is_leader && !forwarded {
                    match &self.role.leader_addr {
                        Some(a) => Route::Forward { addr: owned(a.as_str()) },
                        None => Route::Refuse {
                            message: owned(
                                "NOT_CONTROLLER: No cluster leader elected. Retry later.",
                            ),
                        },
                    }
                } else {
                    Route::Here
                }
            },
        }
    }

    /// Whether a topic has to be created before a request is routed: this node leads the
    /// cluster, and a client writes to a topic that the metadata does not know. The result is
    /// the topic and the number of partitions.
    pub fn topic_to_create(&self, p: &RequestPayload) -> (r: Option<(String, u32)>)
        requires
            self.wf(),
        ensures
            match r {
                Some((t, n)) => self.role.is_leader && !self@.topics.contains_key(t@) && (*p matches RequestPayload::ProduceBatch {
                    topic,
                    num_partitions,
                    ..
                } && topic@ == t@ && num_partitions == n),
                None => !self.role.is_leader || !(*p is ProduceBatch) || (*p matches RequestPayload::ProduceBatch {
                    topic,
                    ..
                } && self@.topics.contains_key(topic@)),
            },
    {
        match p {
            RequestPayload::ProduceBatch { topic, num_partitions, .. } => {
                if self.role.is_leader && !self.topic_registry.contains(topic.as_str()) {
                    Some((owned(topic.as_str()), *num_partitions))
                } else {
                    None
                }
            },
            _ => None,
        }
    }
}

/// A request is passed on once at most: one that was passed on is served where it arrives, so no
/// two nodes pass a request to and fro.
pub proof fn nothing_is_forwarded_twice(e: StorageEngine, p: RequestPayload, r: Route)
    requires
        routed(e, p, true, r),
    ensures
        r is Here,
{
}

/// A change of the metadata is served by the cluster's leader alone, unless another node that is
/// not the leader passed it on.
pub proof fn the_controller_changes_metadata(e: StorageEngine, p: RequestPayload, r: Route)
    requires
        changes_metadata(p),
        routed(e, p, false, r),
        r is Here,
    ensures
        e.role.is_leader,
{
}

} // verus!
