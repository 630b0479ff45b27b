//! Serving a request, as far as no file and no peer is needed for it.
use crate::acl::{passes, AclBinding, AclOperation, ResourceType, Rule};
use crate::acl_manager::rules_of;
use crate::codec::be;
use crate::engine::admin::{offers, with_plus};
use crate::engine::brokers::address_of;
use crate::engine::produce::{choose_partition, target_partition};
use crate::engine::state::{leads, listed, replicates, StorageEngine};
use crate::placement::{topic_fault, validate_topic_name};
use crate::request::payload::{allowed_unknown, is_allowed_unknown, RequestPayload};
use crate::request::replies::{
    cluster_bytes, encode_acls, encode_cluster, endpoint_views, rules_bytes, short_endpoints,
    short_rules,
};
use crate::request::rights::{first_refusal, granted, on_topic, rights};
use crate::sasl::{
    anonymous, auth_taken, is_plus, mechanism_named, AuthStep, ClientIdentity, IdentityView,
    MAX_CLIENT_ID_LEN, UNSUPPORTED_MECHANISM,
};
use crate::text::{owned, rising_texts, same_text, text_views};
use crate::wire::{list_bytes, put_texts, short_text, short_texts, ResponseView, WireResponse};
use vstd::prelude::*;
use vstd::slice::*;
use vstd::string::*;
use vstd::utf8::*;

verus! {

/// What comes of a request.
pub enum Step {
    /// This is the answer.
    Reply { response: WireResponse },
    /// Its sender lacks a right that it needs, and is told so.
    Denied { message: String },
    /// It is to be served, and answered with what comes of that.
    Serve,
    /// A message of an authentication, and what comes next in it.
    Authenticate { step: AuthStep },
    /// The answer is longer than can be written down.
    Unwritable,
}

/// Why a request is refused although its sender may make it, if it is.
pub open spec fn misdirected(e: StorageEngine, p: RequestPayload, forwarded: bool) -> Option<
    Seq<char>,
> {
    let not_leader = "NotLeaderForPartition"@;
    match p {
        RequestPayload::UpsertScramUser { username, .. } => if username@.len() == 0 {
            Some("SCRAM username cannot be empty"@)
        } else {
            None
        },
        RequestPayload::ProduceBatch { topic, key, num_partitions, .. } => match topic_fault(
            topic@,
        ) {
            Some(f) => Some("Invalid topic name: "@ + f),
            None => if !forwarded && !leads(
                e@,
                e.config,
                e.role.is_leader,
                topic@,
                target_partition(key@, num_partitions),
            ) {
                Some(not_leader)
            } else {
                None
            },
        },
        RequestPayload::Fetch { topic, partition, .. } => if !forwarded && !replicates(
            e@,
            e.config,
            topic@,
            partition,
        ) {
            Some(not_leader)
        } else {
            None
        },
        RequestPayload::FetchCommitted { topic, partition, .. } => if !replicates(
            e@,
            e.config,
            topic@,
            partition,
        ) {
            Some(not_leader)
        } else {
            None
        },
        RequestPayload::ShareFetch { topic, partition, .. } => if !replicates(
            e@,
            e.config,
            topic@,
            partition,
        ) {
            Some(not_leader)
        } else {
            None
        },
        RequestPayload::DeleteTopic { topic } => match topic_fault(topic@) {
            Some(f) => Some("Invalid topic name: "@ + f),
            None => None,
        },
        _ => None,
    }
}

/// The names of the topics that clients are shown, in order.
pub open spec fn topic_list(e: StorageEngine, names: Seq<Seq<char>>) -> bool {
    rising_texts(names) && forall|t: Seq<char>| #[trigger] names.contains(t) <==> listed(e@, t)
}

/// The nodes whose address is known, in order.
pub open spec fn node_list(e: StorageEngine, nodes: Seq<(u32, Seq<char>)>) -> bool {
    &&& forall|i: int, j: int| 0 <= i < j < nodes.len() ==> nodes[i].0 < nodes[j].0
    &&& forall|i: int|
        0 <= i < nodes.len() ==> address_of(e@.brokers, (#[trigger] nodes[i]).0) == Some(nodes[i].1)
    &&& forall|id: u32| #[trigger]
        address_of(e@.brokers, id) is Some ==> exists|i: int| 0 <= i < nodes.len() && nodes[i].0 == id
}

/// The rules that a filter lets through, each once.
pub open spec fn rule_list(e: StorageEngine, filter: Rule, rules: Seq<Rule>) -> bool {
    rules.no_duplicates() && forall|x: Rule| #[trigger]
        rules.contains(x) <==> e@.acls.contains(x) && passes(filter, x)
}

/// A reply with these bytes, or none if they cannot be written down.
pub open spec fn replies(step: Step, writable: bool, payload: Seq<u8>) -> bool {
    if writable {
        step matches Step::Reply { response } && response@ == (ResponseView::Success { payload })
    } else {
        step is Unwritable
    }
}

/// What a request comes to that its sender may make and that has come to the right place.
pub open spec fn served(e: StorageEngine, p: RequestPayload, step: Step) -> bool {
    match p {
        RequestPayload::Ping => replies(step, true, "PONG"@.map_values(|c: char| c as u8)),
        RequestPayload::ListTopics => exists|names: Seq<Seq<char>>|
            #[trigger] topic_list(e, names) && replies(step, short_texts(names), list_bytes(names)),
        RequestPayload::DescribeCluster => exists|nodes: Seq<(u32, Seq<char>)>|
            #[trigger] node_list(e, nodes) && replies(
                step,
                short_text(e.config.cluster_id@) && short_endpoints(nodes),
                cluster_bytes(e.config.cluster_id@, e.config.node_id, e.role.is_leader, nodes),
            ),
        RequestPayload::DescribeAcls { filter } => exists|rules: Seq<Rule>|
            #[trigger] rule_list(e, filter@, rules) && replies(
                step,
                short_rules(rules),
                be(0, 2) + be(rules.len() as int, 4) + rules_bytes(rules),
            ),
        _ => step is Serve,
    }
}

/// What a request comes to whose sender lacks a right.
pub open spec fn denied(step: Step, message: Seq<char>) -> bool {
    step matches Step::Denied { message: m } && m@ == message
}

/// What a refused request comes to.
pub open spec fn refused(step: Step, message: Seq<char>) -> bool {
    step matches Step::Reply { response } && response@ == (ResponseView::Failure { message })
}

/// The mechanisms that clients are offered.
pub open spec fn offered(e: StorageEngine, has_binding: bool) -> Seq<Seq<char>> {
    let mechs = text_views(e.config.sasl_mechanisms@);
    if has_binding {
        with_plus(with_plus(mechs, "SCRAM-SHA-256"@), "SCRAM-SHA-512"@)
    } else {
        mechs
    }
}

/// What a message of an authentication comes to.
pub open spec fn authenticated(
    e: StorageEngine,
    v: IdentityView,
    bytes: Seq<u8>,
    w: IdentityView,
    step: AuthStep,
) -> bool {
    auth_taken(
        e@.credentials,
        v,
        bytes,
        match e.config.auth_token {
            Some(t) => Some(t@),
            None => None,
        },
        w,
        step,
    )
}

/// What a request comes to. `v` and `w` are who the client is before and after it.
pub open spec fn processed(
    e: StorageEngine,
    v: IdentityView,
    p: RequestPayload,
    host: Seq<char>,
    forwarded: bool,
    has_binding: bool,
    w: IdentityView,
    step: Step,
) -> bool {
    if e.config.sasl_required && v.principal == anonymous() && !allowed_unknown(p) {
        w == v && refused(step, "SaslAuthenticationRequired"@)
    } else {
        match p {
            RequestPayload::SaslHandshake { mechanism } => {
                let names = offered(e, has_binding);
                let supported = offers(names, mechanism@);
                &&& w == (if supported {
                    IdentityView {
                        mechanism: mechanism_named(mechanism@),
                        is_plus: is_plus(mechanism@),
                        ..v
                    }
                } else {
                    v
                })
                &&& replies(
                    step,
                    short_texts(names),
                    be(
                        if supported {
                            0
                        } else {
                            UNSUPPORTED_MECHANISM as int
                        },
                        2,
                    ) + list_bytes(names),
                )
            },
            RequestPayload::SaslAuthenticate { auth_bytes } => step matches Step::Authenticate {
                step: inner,
            } && authenticated(e, v, auth_bytes@, w, inner),
            RequestPayload::SetClientId { client_id } => if 0 < encode_utf8(client_id@).len()
                <= MAX_CLIENT_ID_LEN {
                w == (IdentityView { logical_client_id: Some(client_id@), ..v }) && replies(
                    step,
                    true,
                    Seq::empty(),
                )
            } else {
                w == v && refused(step, "Invalid client_id"@)
            },
            _ => {
                let refusal = first_refusal(e, v.principal, host, rights(p));
                &&& w == v
                &&& if refusal is Some {
                    denied(step, refusal->0)
                } else if misdirected(e, p, forwarded) is Some {
                    refused(step, misdirected(e, p, forwarded)->0)
                } else {
                    served(e, p, step)
                }
            },
        }
    }
}

fn refuse(message: String) -> (r: Step)
    ensures
        refused(r, message@),
{
    Step::Reply { response: WireResponse::Failure { message } }
}

fn answer(payload: Option<Vec<u8>>) -> (r: Step)
    ensures
        match payload {
            Some(b) => replies(r, true, b@),
            None => r is Unwritable,
        },
{
    match payload {
        Some(payload) => Step::Reply { response: WireResponse::Success { payload } },
        None => Step::Unwritable,
    }
}

fn bad_topic(topic: &str) -> (r: Option<String>)
    ensures
        match r {
            Some(s) => topic_fault(topic@) is Some && s@ == "Invalid topic name: "@ + topic_fault(
                topic@,
            )->0,
            None => topic_fault(topic@) is None,
        },
{
    match validate_topic_name(topic) {
        Ok(()) => None,
        Err(e) => {
            let mut s: String = owned("Invalid topic name: ");
            s.append(e.as_str());
            Some(s)
        },
    }
}

impl StorageEngine {
    fn not_here(&self, p: &RequestPayload, forwarded: bool) -> (r: Option<String>)
        requires
            self.wf(),
        ensures
            match r {
                Some(s) => misdirected(*self, *p, forwarded) == Some(s@),
                None => misdirected(*self, *p, forwarded) is None,
            },
    {
        let here: bool = match p {
            RequestPayload::UpsertScramUser { username, .. } => {
                if username.as_str().is_empty() {
                    return Some(owned("SCRAM username cannot be empty"));
                }
                true
            },
            RequestPayload::ProduceBatch { topic, key, num_partitions, .. } => {
                match bad_topic(topic.as_str()) {
                    Some(s) => {
                        return Some(s);
                    },
                    None => {},
                }
                forwarded || self.is_partition_leader(
                    topic.as_str(),
                    choose_partition(key.as_str(), *num_partitions),
                )
            },
            RequestPayload::Fetch { topic, partition, .. } => forwarded
                || self.is_partition_replica(topic.as_str(), *partition),
            RequestPayload::FetchCommitted { topic, partition, .. } => self.is_partition_replica(
                topic.as_str(),
                *partition,
            ),
            RequestPayload::ShareFetch { topic, partition, .. } => self.is_partition_replica(
                topic.as_str(),
                *partition,
            ),
            RequestPayload::DeleteTopic { topic } => {
                return bad_topic(topic.as_str());
            },
            _ => true,
        };
        if here {
            None
        } else {
            Some(owned("NotLeaderForPartition"))
        }
    }

    fn serve(&self, p: &RequestPayload) -> (r: Step)
        requires
            self.wf(),
        ensures
            served(*self, *p, r),
    {
        match p {
            RequestPayload::Ping => {
                let mut pong: Vec<u8> = Vec::new();
                pong.push(80);
                pong.push(79);
                pong.push(78);
                pong.push(71);
                proof {
                    reveal_strlit("PONG");
                    assert(pong@ =~= "PONG"@.map_values(|c: char| c as u8));
                }
                answer(Some(pong))
            },
            RequestPayload::ListTopics => {
                let names: Vec<String> = self.list_topics();
                let mut out: Vec<u8> = Vec::new();
                assert(topic_list(*self, text_views(names@)));
                if !put_texts(&mut out, names.as_slice()) {
                    return Step::Unwritable;
                }
                assert(out@ =~= list_bytes(text_views(names@)));
                answer(Some(out))
            },
            RequestPayload::DescribeCluster => {
                let nodes: Vec<(u32, String)> = self.brokers.broker_endpoints();
                proof {
                    let views = endpoint_views(nodes@);
                    assert forall|i: int| 0 <= i < views.len() implies address_of(
                        self@.brokers,
                        (#[trigger] views[i]).0,
                    ) == Some(views[i].1) by {
                        assert(address_of(self@.brokers, nodes@[i].0) == Some(nodes@[i].1@));
                    }
                    assert forall|id: u32| #[trigger]
                        address_of(self@.brokers, id) is Some implies exists|i: int|
                        0 <= i < views.len() && views[i].0 == id by {
                        let i = choose|i: int| 0 <= i < nodes@.len() && nodes@[i].0 == id;
                        assert(views[i].0 == id);
                    }
                    assert(node_list(*self, views));
                }
                answer(
                    encode_cluster(
                        self.config.cluster_id.as_str(),
                        self.config.node_id,
                        self.role.is_leader,
                        &nodes,
                    ),
                )
            },
            RequestPayload::DescribeAcls { filter } => {
                let bindings: Vec<AclBinding> = self.acl.list_acls(filter);
                assert(rule_list(*self, filter@, rules_of(bindings@)));
                answer(encode_acls(&bindings))
            },
            _ => Step::Serve,
        }
    }

    fn authenticate(&self, identity: &mut ClientIdentity, auth_bytes: &Vec<u8>) -> (r: AuthStep)
        requires
            self.wf(),
        ensures
            authenticated(*self, old(identity)@, auth_bytes@, final(identity)@, r),
    {
        let token: Option<&str> = match &self.config.auth_token {
            Some(t) => Some(t.as_str()),
            None => None,
        };
        let bytes: Vec<u8> = slice_to_vec(auth_bytes.as_slice());
        identity.authenticate(&self.scram_credentials, bytes, token)
    }

    /// Serves a request, as far as that can be done here and now. `host` is where it came from,
    /// `forwarded` says whether another node passed it on, and `has_channel_binding` whether
    /// this node has a certificate that clients can bind to.
    pub fn process_request(
        &self,
        identity: &mut ClientIdentity,
        p: &RequestPayload,
        host: &str,
        forwarded: bool,
        has_channel_binding: bool,
    ) -> (r: Step)
        requires
            self.wf(),
        ensures
            processed(
                *self,
                old(identity)@,
                *p,
                host@,
                forwarded,
                has_channel_binding,
                final(identity)@,
                r,
            ),
    {
        if self.config.sasl_required && same_text(identity.principal.as_str(), "User:ANONYMOUS")
            && !is_allowed_unknown(p) {
            return refuse(owned("SaslAuthenticationRequired"));
        }
        match p {
            RequestPayload::SaslHandshake { mechanism } => {
                let mechs: Vec<String> = self.advertised_sasl_mechanisms(has_channel_binding);
                match identity.handshake(&mechs, mechanism.as_str()) {
                    Some(response) => Step::Reply { response },
                    None => Step::Unwritable,
                }
            },
            RequestPayload::SaslAuthenticate { auth_bytes } => {
                let step: AuthStep = self.authenticate(identity, auth_bytes);
                Step::Authenticate { step }
            },
            RequestPayload::SetClientId { client_id } => Step::Reply {
                response: identity.set_client_id(client_id.as_str()),
            },
            _ => {
                match self.check_rights(identity.principal.as_str(), host, p) {
                    Some(message) => {
                        return Step::Denied { message };
                    },
                    None => {},
                }
                match self.not_here(p, forwarded) {
                    Some(message) => {
                        return refuse(message);
                    },
                    None => {},
                }
                self.serve(p)
            },
        }
    }
}

/// Where clients have to say who they are, one that has not is served nothing but what it takes
/// to do so, and what it has to know for that: how this broker is spoken to.
pub proof fn strangers_are_not_served(
    e: StorageEngine,
    v: IdentityView,
    p: RequestPayload,
    host: Seq<char>,
    forwarded: bool,
    has_binding: bool,
    w: IdentityView,
    step: Step,
)
    requires
        e.config.sasl_required,
        v.principal == anonymous(),
        processed(e, v, p, host, forwarded, has_binding, w, step),
    ensures
        step is Serve ==> p is NegotiateProtocol,
        allowed_unknown(p) || (w == v && refused(step, "SaslAuthenticationRequired"@)),
{
}

/// A request that is passed on to be served was allowed by every right that it needs.
pub proof fn what_is_served_was_allowed(
    e: StorageEngine,
    v: IdentityView,
    p: RequestPayload,
    host: Seq<char>,
    forwarded: bool,
    has_binding: bool,
    w: IdentityView,
    step: Step,
)
    requires
        processed(e, v, p, host, forwarded, has_binding, w, step),
        step is Serve,
    ensures
        first_refusal(e, v.principal, host, rights(p)) is None,
        misdirected(e, p, forwarded) is None,
        w == v,
{
}

/// A fetch is sent straight from the file only where it would be served all the same.
pub proof fn sending_from_file_changes_nothing(
    e: StorageEngine,
    v: IdentityView,
    p: RequestPayload,
    host: Seq<char>,
    has_binding: bool,
    w: IdentityView,
    step: Step,
)
    requires
        p is Fetch,
        !(e.config.sasl_required && v.principal == anonymous()),
        granted(e, v.principal, host, on_topic(AclOperation::Read, p->Fetch_topic@)),
        replicates(e@, e.config, p->Fetch_topic@, p->Fetch_partition),
        processed(e, v, p, host, false, has_binding, w, step),
    ensures
        step is Serve,
        w == v,
{
    let right = on_topic(AclOperation::Read, p->Fetch_topic@);
    assert(rights(p) == seq![right]);
    assert(seq![right].skip(1) =~= Seq::empty());
    assert(first_refusal(e, v.principal, host, Seq::empty()) is None);
}

/// Who a client is changes by an authentication alone.
pub proof fn only_authentication_changes_the_principal(
    e: StorageEngine,
    v: IdentityView,
    p: RequestPayload,
    host: Seq<char>,
    forwarded: bool,
    has_binding: bool,
    w: IdentityView,
    step: Step,
)
    requires
        processed(e, v, p, host, forwarded, has_binding, w, step),
        !(p is SaslAuthenticate),
    ensures
        w.principal == v.principal,
{
}

impl StorageEngine {
    /// Whether a fetch may be sent straight from the file: its sender has said who it is where
    /// that is asked for, and may read the topic, this node has the partition, there is
    /// something to send, and the client does not wait for more.
    pub fn may_send_from_file(
        &self,
        principal: &str,
        host: &str,
        topic: &str,
        partition: u32,
        physical_len: u64,
        min_bytes: u32,
        max_wait_ms: u32,
    ) -> (r: bool)
        requires
            self.wf(),
        ensures
            r == (!(self.config.sasl_required && principal@ == anonymous()) && granted(
                *self,
                principal@,
                host@,
                on_topic(AclOperation::Read, topic@),
            ) && replicates(self@, self.config, topic@, partition) && physical_len > 0 && !(
            physical_len < min_bytes && max_wait_ms > 0)),
    {
        if self.config.sasl_required && same_text(principal, "User:ANONYMOUS") {
            return false;
        }
        self.authorize(
            principal,
            host,
            AclOperation::Read.code(),
            ResourceType::Topic.code(),
            topic,
        ) && self.is_partition_replica(topic, partition) && physical_len > 0 && !(physical_len
            < min_bytes as u64 && max_wait_ms > 0)
    }
}

} // verus!
