//! Requests of administrators, and what a node does as it starts.
use crate::assoc::AssocMap;
use crate::engine::brokers::{BrokerRegistry, BrokerView, ProcessRole, roles_meant};
use crate::engine::configs::{
    collected, invalid_value, list_configs, merge_configs, name_views, pair_views,
    validate_topic_configs, wanted, with_all, without,
};
use crate::engine::create::not_controller;
use crate::engine::metadata::{MetadataRecord, RecordView};
use crate::engine::credentials::{known_user, CredentialStore, ScramCredential};
use crate::engine::state::{ClusterRole, EngineConfig, StorageEngine};
use crate::engine::table::PartitionTable;
use crate::engine::topics::TopicRegistry;
use crate::acl::AclBinding;
use crate::acl_manager::AclManager;
use crate::name_map::NameMap;
use crate::transaction::manager::{TransactionManager, TransactionalProducerState, TxView};
use crate::ip::{address_fault, validate_advertised_addr};
use crate::text::{
    chars_of, concat3, concat5, decimal, decimal_text, lower_chars, lowered, matches_at, owned,
    parse_unsigned, part_chars, stands_at, text_of, text_views, unsigned_value,
};
use vstd::prelude::*;
use vstd::string::*;

verus! {

/// A list of pairs that was refused by `validate_topic_configs` with this message.
pub open spec fn refused_with(
    configs: Seq<(Seq<char>, Seq<char>)>,
    ratio_ok: Seq<bool>,
    message: Seq<char>,
) -> bool {
    exists|i: int|
        {
            &&& 0 <= i < configs.len()
            &&& (#[trigger] wanted(configs[i].0, configs[i].1, ratio_ok[i])) is Some
            &&& message == invalid_value(
                configs[i].0,
                configs[i].1,
                wanted(configs[i].0, configs[i].1, ratio_ok[i])->0,
            )
            &&& forall|j: int|
                0 <= j < i ==> wanted(
                    (#[trigger] configs[j]).0,
                    configs[j].1,
                    ratio_ok[j],
                ) is None
        }
}

/// All values of a list are accepted.
pub open spec fn all_accepted(configs: Seq<(Seq<char>, Seq<char>)>, ratio_ok: Seq<bool>) -> bool {
    forall|i: int|
        0 <= i < configs.len() ==> wanted(
            (#[trigger] configs[i]).0,
            configs[i].1,
            ratio_ok[i],
        ) is None
}

fn check_configs(configs: &[(String, String)], ratio_ok: &[bool]) -> (r: Result<(), String>)
    requires
        configs@.len() == ratio_ok@.len(),
    ensures
        match r {
            Ok(()) => all_accepted(pair_views(configs@), ratio_ok@),
            Err(e) => !all_accepted(pair_views(configs@), ratio_ok@) && refused_with(
                pair_views(configs@),
                ratio_ok@,
                e@,
            ),
        },
{
    let r: Result<(), String> = validate_topic_configs(configs, ratio_ok);
    proof {
        let views = pair_views(configs@);
        assert forall|i: int| 0 <= i < views.len() implies (#[trigger] views[i]).0
            == configs@[i].0@ && views[i].1 == configs@[i].1@ by {}
        if r is Err {
            let i = choose|i: int|
                {
                    &&& 0 <= i < configs@.len()
                    &&& (#[trigger] wanted(configs@[i].0@, configs@[i].1@, ratio_ok@[i])) is Some
                    &&& r->Err_0@ == invalid_value(
                        configs@[i].0@,
                        configs@[i].1@,
                        wanted(configs@[i].0@, configs@[i].1@, ratio_ok@[i])->0,
                    )
                    &&& forall|j: int|
                        0 <= j < i ==> wanted(
                            (#[trigger] configs@[j]).0@,
                            configs@[j].1@,
                            ratio_ok@[j],
                        ) is None
                };
            assert(wanted(views[i].0, views[i].1, ratio_ok@[i]) is Some);
            assert forall|j: int| 0 <= j < i implies wanted(
                (#[trigger] views[j]).0,
                views[j].1,
                ratio_ok@[j],
            ) is None by {
                let _ = configs@[j];
            }
        }
    }
    r
}

/// How a request to replace the settings of a topic is answered.
pub open spec fn altered_by(
    e: StorageEngine,
    topic: Seq<char>,
    configs: Seq<(Seq<char>, Seq<char>)>,
    ratio_ok: Seq<bool>,
    r: Result<MetadataRecord, String>,
) -> bool {
    match r {
        Ok(rec) => {
            &&& e@.topics.contains_key(topic)
            &&& all_accepted(configs, ratio_ok)
            &&& e.role.is_leader
            &&& rec@ == (RecordView::TopicConfigChanged {
                topic: topic,
                configs: configs,
            })
        },
        Err(m) => if !e@.topics.contains_key(topic) {
            m@ == no_such_topic(topic)
        } else if !all_accepted(configs, ratio_ok) {
            refused_with(configs, ratio_ok, m@)
        } else {
            !e.role.is_leader && m@ == not_controller()
        },
    }
}

/// How a request to change some of the settings of a topic is answered.
pub open spec fn merged_by(
    e: StorageEngine,
    topic: Seq<char>,
    upserts: Seq<(Seq<char>, Seq<char>)>,
    deletes: Seq<Seq<char>>,
    ratio_ok: Seq<bool>,
    r: Result<MetadataRecord, String>,
) -> bool {
    match r {
        Ok(rec) => {
            &&& e@.topics.contains_key(topic)
            &&& all_accepted(upserts, ratio_ok)
            &&& e.role.is_leader
            &&& rec@ matches RecordView::TopicConfigChanged { topic: t, configs } && t
                == topic && collected(configs) == with_all(
                without(e@.topics[topic].configs, deletes),
                upserts,
            )
        },
        Err(m) => if !e@.topics.contains_key(topic) {
            m@ == no_such_topic(topic)
        } else if !all_accepted(upserts, ratio_ok) {
            refused_with(upserts, ratio_ok, m@)
        } else {
            !e.role.is_leader && m@ == not_controller()
        },
    }
}

/// The message about a topic that the metadata does not know.
pub open spec fn no_such_topic(topic: Seq<char>) -> Seq<char> {
    "Unknown topic '"@ + topic + "'"@
}

/// The message about an address that a node cannot be known by.
pub open spec fn not_advertised(addr: Seq<char>, reason: Seq<char>) -> Seq<char> {
    "refusing to advertise '"@ + addr + "' as this node's identity: "@ + reason
        + ". Set `advertised.listeners` (EngineConfig::advertised_addr) to this node's real, externally-reachable address, or bind `listeners` (bind_addr) to a concrete host so the real bound address can be used instead."@
}

/// The address that a node is known by: the one it was told to use, or the one it listens at.
pub open spec fn resolved_addr(c: EngineConfig, bound: Seq<char>) -> Seq<char> {
    match c.advertised_addr {
        Some(a) => a@,
        None => bound,
    }
}

/// The topic and the partition that a directory belongs to: what stands before and behind the
/// last hyphen of its name.
pub open spec fn directory_of(name: Seq<char>) -> Option<(Seq<char>, u32)> {
    if name.contains('-') {
        let i = name.index_of_last('-')->0;
        match unsigned_value(name.skip(i + 1), u32::MAX as int) {
            Some(p) => Some((name.take(i), p as u32)),
            None => None,
        }
    } else {
        None
    }
}

/// Whether a directory belongs to a topic: its name is the topic's, a hyphen and a number.
pub open spec fn belongs_to(name: Seq<char>, topic: Seq<char>) -> bool {
    stands_at(name, topic.push('-'), 0) && unsigned_value(
        name.skip(topic.len() as int + 1),
        u32::MAX as int,
    ) is Some
}

/// Reads the name of a partition's directory.
pub fn partition_of_directory(name: &str) -> (r: Option<(String, u32)>)
    ensures
        match r {
            Some((t, p)) => directory_of(name@) == Some((t@, p)),
            None => directory_of(name@) is None,
        },
{
    let chars: Vec<char> = chars_of(name);
    proof {
        chars@.index_of_last_ensures('-');
    }
    let mut i: usize = chars.len();
    while i > 0
        invariant
            i <= chars.len(),
            chars@ == name@,
            forall|j: int| i <= j < chars.len() ==> chars@[j] != '-',
            match chars@.index_of_last('-') {
                Some(k) => 0 <= k < chars.len() && chars@[k] == '-' && forall|j: int|
                    k < j < chars.len() ==> chars@[j] != '-',
                None => !chars@.contains('-'),
            },
        decreases i,
    {
        i = i - 1;
        if chars[i] == '-' {
            assert(chars@.contains('-'));
            let head: Vec<char> = part_chars(chars.as_slice(), 0, i);
            let tail: Vec<char> = part_chars(chars.as_slice(), i + 1, chars.len());
            assert(head@ =~= name@.take(i as int));
            assert(tail@ =~= name@.skip(i + 1));
            return match parse_unsigned(tail.as_slice(), u32::MAX as u64) {
                Some(p) => Some((text_of(head.as_slice()), p as u32)),
                None => None,
            };
        }
    }
    None
}

/// Whether a directory belongs to a topic.
pub fn is_directory_of(name: &str, topic: &str) -> (r: bool)
    ensures
        r == belongs_to(name@, topic@),
{
    let chars: Vec<char> = chars_of(name);
    let mut prefix: Vec<char> = chars_of(topic);
    prefix.push('-');
    if !matches_at(chars.as_slice(), prefix.as_slice(), 0) {
        return false;
    }
    let n: usize = prefix.len();
    let tail: Vec<char> = part_chars(chars.as_slice(), n, chars.len());
    assert(tail@ =~= name@.skip(topic@.len() as int + 1));
    parse_unsigned(tail.as_slice(), u32::MAX as u64).is_some()
}

/// A directory belongs to one topic at most: the one that its name is read as. A topic whose
/// name begins with that of another is not mistaken for it.
pub proof fn a_directory_has_one_topic(name: Seq<char>, topic: Seq<char>)
    ensures
        belongs_to(name, topic) <==> (directory_of(name) matches Some((t, p)) && t == topic),
{
    name.index_of_last_ensures('-');
    let n = topic.len() as int;
    if belongs_to(name, topic) {
        assert(name.subrange(0, n + 1)[n] == '-');
        assert(name[n] == '-');
        assert(name.contains('-'));
        let i = name.index_of_last('-')->0;
        let tail = name.skip(n + 1);
        assert(i == n) by {
            if i > n {
                let d = crate::text::unsigned_part(tail);
                assert(tail[i - n - 1] == '-');
                if tail[0] == '+' {
                    assert(i - n - 1 > 0);
                    assert(d[i - n - 2] == '-');
                } else {
                    assert(d[i - n - 1] == '-');
                }
            }
        }
        assert(name.take(i) =~= topic) by {
            assert forall|k: int| 0 <= k < n implies name[k] == topic[k] by {
                assert(name.subrange(0, n + 1)[k] == topic.push('-')[k]);
            }
        }
    }
    if directory_of(name) is Some {
        if (directory_of(name)->0).0 == topic {
            let i = name.index_of_last('-')->0;
            assert(i == n);
            assert(name.subrange(0, n + 1) =~= topic.push('-'));
        }
    }
}

/// Whether two texts differ at most in ASCII capitals.
pub open spec fn same_letters(a: Seq<char>, b: Seq<char>) -> bool {
    lowered(a) == lowered(b)
}

/// Whether a mechanism is listed, in whatever letters.
pub open spec fn offers(mechs: Seq<Seq<char>>, name: Seq<char>) -> bool {
    exists|i: int| 0 <= i < mechs.len() && same_letters(#[trigger] mechs[i], name)
}

/// The mechanisms with the channel-binding one of `base` behind them, if `base` is among them
/// and that one is not.
pub open spec fn with_plus(mechs: Seq<Seq<char>>, base: Seq<char>) -> Seq<Seq<char>> {
    if offers(mechs, base) && !offers(mechs, base + "-PLUS"@) {
        mechs.push(base + "-PLUS"@)
    } else {
        mechs
    }
}

fn listed_mechanism(mechs: &Vec<String>, name: &str) -> (r: bool)
    ensures
        r == offers(text_views(mechs@), name@),
{
    let want: Vec<char> = lower_chars(name);
    let ghost views = text_views(mechs@);
    let mut i: usize = 0;
    while i < mechs.len()
        invariant
            i <= mechs.len(),
            want@ == lowered(name@),
            views == text_views(mechs@),
            forall|j: int| 0 <= j < i ==> !same_letters(#[trigger] views[j], name@),
        decreases mechs.len() - i,
    {
        let have: Vec<char> = lower_chars(mechs[i].as_str());
        assert(views[i as int] == mechs@[i as int]@);
        if have.len() == want.len() && matches_at(have.as_slice(), want.as_slice(), 0) {
            assert(have@.subrange(0, want@.len() as int) =~= have@);
            return true;
        }
        assert(have@ != want@) by {
            if have@ == want@ {
                assert(have@.subrange(0, want@.len() as int) =~= have@);
            }
        }
        i = i + 1;
    }
    false
}

fn add_plus(mechs: &mut Vec<String>, base: &str)
    ensures
        text_views(final(mechs)@) == with_plus(text_views(old(mechs)@), base@),
{
    if listed_mechanism(mechs, base) {
        let mut plus: String = owned(base);
        plus.append("-PLUS");
        if !listed_mechanism(mechs, plus.as_str()) {
            let ghost before = text_views(mechs@);
            mechs.push(plus);
            assert(text_views(mechs@) =~= before.push(base@ + "-PLUS"@));
        }
    }
}

/// How a request for the settings of a topic is answered.
pub open spec fn configs_listed(
    e: StorageEngine,
    topic: Seq<char>,
    r: Vec<(String, String)>,
) -> bool {
    &&& collected(pair_views(r@)) == (if e@.topics.contains_key(topic) {
        e@.topics[topic].configs
    } else {
        Map::<Seq<char>, Seq<char>>::empty()
    })
    &&& forall|i: int, j: int| 0 <= i < j < r@.len() ==> r@[i].0@ != r@[j].0@
}

impl StorageEngine {
    /// A broker that knows itself and nobody else.
    pub fn new(config: EngineConfig) -> (r: Self)
        ensures
            r.wf(),
            r.config == config,
            !r.role.is_leader,
            r.role.epoch == 0,
            r.role.leader_addr is None,
            r.role.advertised_addr@ == config.bind_addr@,
            r.undiscovered_peers_since is None,
            !r.undiscovered_peers_warned,
            r@.log_index == 0,
            r@.brokers == Map::<u32, BrokerView>::empty().insert(
                config.node_id,
                BrokerView {
                    addr: Some(config.bind_addr@),
                    roles: Some(roles_meant(config.roles@)),
                },
            ),
            r@.topics.dom() == Set::<Seq<char>>::empty(),
            r@.partitions.dom() == Set::<(Seq<char>, u32)>::empty(),
            r@.deleting == Set::<Seq<char>>::empty(),
            r@.acls == Set::<crate::acl::Rule>::empty(),
            r@.credentials == crate::engine::credentials::CredentialMap::empty(),
            r@.producers == Map::<Seq<char>, TransactionalProducerState>::empty(),
            r@.next_producer_id == 1,
            r.transactions.txs() == Map::<Seq<char>, TxView>::empty(),
            r.partitions.count() == 0,
    {
        let addr: String = owned(config.bind_addr.as_str());
        let roles: Vec<ProcessRole> = vstd::slice::slice_to_vec(config.roles.as_slice());
        let node_id: u32 = config.node_id;
        let mut brokers = BrokerRegistry::new();
        brokers.register_broker_address(node_id, owned(addr.as_str()));
        brokers.register_broker_roles(node_id, roles);
        assert(brokers@ =~= Map::<u32, BrokerView>::empty().insert(
            node_id,
            BrokerView { addr: Some(addr@), roles: Some(roles_meant(config.roles@)) },
        ));
        let r = StorageEngine {
            config,
            role: ClusterRole {
                is_leader: false,
                epoch: 0,
                leader_addr: None,
                advertised_addr: addr,
                metadata_log_index: 0,
            },
            partitions: PartitionTable::new(),
            deleting_topics: NameMap::new(),
            topic_registry: TopicRegistry::new(),
            brokers,
            acl: AclManager::new(),
            scram_credentials: CredentialStore::new(),
            transactions: TransactionManager::new(),
            undiscovered_peers_since: None,
            undiscovered_peers_warned: false,
        };
        assert(r@.topics.dom() =~= Set::<Seq<char>>::empty());
        assert(r@.partitions.dom() =~= Set::<(Seq<char>, u32)>::empty());
        assert(r@.deleting =~= Set::<Seq<char>>::empty());
        r
    }

    /// Settles the address that this node is known by. If it leads the cluster, the result is
    /// the record that tells the others. An address that nobody can dial is refused, and then
    /// nothing changes.
    pub fn finalize_advertised_addr(&mut self, bound_addr: &str) -> (r: Result<
        Option<MetadataRecord>,
        String,
    >)
        requires
            old(self).wf(),
        ensures
            ({
                let addr = resolved_addr(old(self).config, bound_addr@);
                match r {
                    Err(e) => address_fault(addr) is Some && e@ == not_advertised(
                        addr,
                        address_fault(addr)->0,
                    ) && *final(self) == *old(self),
                    Ok(rec) => {
                        &&& address_fault(addr) is None
                        &&& final(self).wf()
                        &&& *final(self) == (StorageEngine {
                            role: ClusterRole {
                                advertised_addr: final(self).role.advertised_addr,
                                ..old(self).role
                            },
                            brokers: final(self).brokers,
                            ..*old(self)
                        })
                        &&& final(self).role.advertised_addr@ == addr
                        &&& final(self)@.brokers == old(self)@.brokers.insert(
                            old(self).config.node_id,
                            BrokerView {
                                addr: Some(addr),
                                roles: if old(self)@.brokers.contains_key(
                                    old(self).config.node_id,
                                ) {
                                    old(self)@.brokers[old(self).config.node_id].roles
                                } else {
                                    None
                                },
                            },
                        )
                        &&& match rec {
                            Some(x) => old(self).role.is_leader && x@
                                == (RecordView::BrokerRegister {
                                node_id: old(self).config.node_id,
                                bind_addr: addr,
                                roles: old(self).config.roles@,
                            }),
                            None => !old(self).role.is_leader,
                        }
                    },
                }
            }),
    {
        let addr: String = match &self.config.advertised_addr {
            Some(a) => owned(a.as_str()),
            None => owned(bound_addr),
        };
        match validate_advertised_addr(addr.as_str()) {
            Ok(()) => {},
            Err(reason) => {
                return Err(
                    concat5(
                        "refusing to advertise '",
                        addr.as_str(),
                        "' as this node's identity: ",
                        reason.as_str(),
                        ". Set `advertised.listeners` (EngineConfig::advertised_addr) to this node's real, externally-reachable address, or bind `listeners` (bind_addr) to a concrete host so the real bound address can be used instead.",
                    ),
                );
            },
        }
        self.role.advertised_addr = owned(addr.as_str());
        let node_id: u32 = self.config.node_id;
        self.brokers.register_broker_address(node_id, owned(addr.as_str()));
        if self.role.is_leader {
            let roles: Vec<ProcessRole> = vstd::slice::slice_to_vec(self.config.roles.as_slice());
            return Ok(Some(MetadataRecord::BrokerRegister { node_id, bind_addr: addr, roles }));
        }
        Ok(None)
    }

    /// The mechanisms that clients are offered. The channel-binding ones are added if the node
    /// has a certificate to bind to.
    pub fn advertised_sasl_mechanisms(&self, has_channel_binding: bool) -> (r: Vec<String>)
        ensures
            text_views(r@) == ({
                let mechs = text_views(self.config.sasl_mechanisms@);
                if has_channel_binding {
                    with_plus(with_plus(mechs, "SCRAM-SHA-256"@), "SCRAM-SHA-512"@)
                } else {
                    mechs
                }
            }),
    {
        let mut out: Vec<String> = Vec::new();
        let ghost all = text_views(self.config.sasl_mechanisms@);
        let mut i: usize = 0;
        assert(text_views(out@) =~= all.take(0));
        while i < self.config.sasl_mechanisms.len()
            invariant
                i <= self.config.sasl_mechanisms.len(),
                all == text_views(self.config.sasl_mechanisms@),
                text_views(out@) == all.take(i as int),
            decreases self.config.sasl_mechanisms.len() - i,
        {
            let ghost before = text_views(out@);
            let name: String = owned(self.config.sasl_mechanisms[i].as_str());
            out.push(name);
            proof {
                assert(text_views(out@) =~= before.push(name@));
                assert(all.take(i + 1) =~= all.take(i as int).push(name@));
            }
            i = i + 1;
        }
        assert(all.take(i as int) =~= all);
        if has_channel_binding {
            add_plus(&mut out, "SCRAM-SHA-256");
            add_plus(&mut out, "SCRAM-SHA-512");
        }
        out
    }

    /// A topic's settings.
    pub fn describe_configs(&self, topic: &str) -> (r: Vec<(String, String)>)
        requires
            self.wf(),
        ensures
            configs_listed(*self, topic@, r),
    {
        match self.topic_registry.get(topic) {
            Some(t) => {
                let n: usize = t.configs.len();
                let r = list_configs(&t.configs);
                assert(r@.len() == pair_views(r@).len());
                assert forall|i: int, j: int| 0 <= i < j < r@.len() implies r@[i].0@
                    != r@[j].0@ by {
                    assert(t.configs.names()[i] != t.configs.names()[j]);
                }
                r
            },
            None => {
                let r: Vec<(String, String)> = Vec::new();
                assert(pair_views(r@) =~= Seq::empty());
                r
            },
        }
    }

    /// The record that replaces a topic's settings.
    pub fn alter_configs(&self, topic: &str, configs: Vec<(String, String)>, ratio_ok: &[bool]) -> (r:
        Result<MetadataRecord, String>)
        requires
            self.wf(),
            configs@.len() == ratio_ok@.len(),
        ensures
            altered_by(*self, topic@, pair_views(configs@), ratio_ok@, r),
    {
        if !self.topic_registry.contains(topic) {
            return Err(concat3("Unknown topic '", topic, "'"));
        }
        match check_configs(configs.as_slice(), ratio_ok) {
            Ok(()) => {},
            Err(e) => {
                return Err(e);
            },
        }
        if !self.role.is_leader {
            return Err(owned("NOT_CONTROLLER: this node is not the cluster leader"));
        }
        Ok(MetadataRecord::TopicConfigChanged { topic: owned(topic), configs })
    }

    /// The record that changes some of a topic's settings and leaves the others. Only what is
    /// put in is checked.
    pub fn incremental_alter_configs(
        &self,
        topic: &str,
        upserts: Vec<(String, String)>,
        deletes: Vec<String>,
        ratio_ok: &[bool],
    ) -> (r: Result<MetadataRecord, String>)
        requires
            self.wf(),
            upserts@.len() == ratio_ok@.len(),
        ensures
            merged_by(
                *self,
                topic@,
                pair_views(upserts@),
                name_views(deletes@),
                ratio_ok@,
                r,
            ),
    {
        match self.topic_registry.get(topic) {
            None => Err(concat3("Unknown topic '", topic, "'")),
            Some(t) => {
                match check_configs(upserts.as_slice(), ratio_ok) {
                    Ok(()) => {},
                    Err(e) => {
                        return Err(e);
                    },
                }
                if !self.role.is_leader {
                    return Err(owned("NOT_CONTROLLER: this node is not the cluster leader"));
                }
                let merged: AssocMap<String> = merge_configs(
                    &t.configs,
                    upserts.as_slice(),
                    deletes.as_slice(),
                );
                Ok(
                    MetadataRecord::TopicConfigChanged {
                        topic: owned(topic),
                        configs: list_configs(&merged),
                    },
                )
            },
        }
    }
}

/// How often the removal of a directory is tried.
pub const MAX_REMOVAL_ATTEMPTS: u32 = 5;

/// How many milliseconds to wait before the removal of a directory is tried again, after the
/// attempts `0..=attempt` have failed. None if it is given up.
pub fn removal_backoff_ms(attempt: u32) -> (r: Option<u64>)
    ensures
        r == (if attempt + 1 < MAX_REMOVAL_ATTEMPTS {
            Some((50 * (attempt + 1)) as u64)
        } else {
            None
        }),
{
    if attempt < MAX_REMOVAL_ATTEMPTS - 1 {
        Some(50 * (attempt as u64 + 1))
    } else {
        None
    }
}

/// Texts with a comma and a space between them.
pub open spec fn listed_texts(s: Seq<Seq<char>>) -> Seq<char>
    decreases s.len(),
{
    if s.len() == 0 {
        Seq::empty()
    } else if s.len() == 1 {
        s[0]
    } else {
        listed_texts(s.drop_last()) + ", "@ + s.last()
    }
}

/// The message about directories of a deleted topic that are still there.
pub open spec fn leftover(topic: Seq<char>, dirs: Seq<Seq<char>>) -> Seq<char> {
    "Topic '"@ + topic + "' metadata was deleted, but "@ + decimal(dirs.len())
        + " partition director"@ + (if dirs.len() == 1 {
        "y"@
    } else {
        "ies"@
    }) + " could not be removed from disk (still in use?): "@ + listed_texts(dirs)
}

/// What the deleter of a topic is told if directories of it are still there.
pub fn leftover_message(topic: &str, dirs: &[String]) -> (r: String)
    ensures
        r@ == leftover(topic@, text_views(dirs@)),
{
    let ghost views = text_views(dirs@);
    let mut names = String::new();
    let mut i: usize = 0;
    assert(names@ =~= listed_texts(views.take(0)));
    while i < dirs.len()
        invariant
            i <= dirs.len(),
            views == text_views(dirs@),
            names@ == listed_texts(views.take(i as int)),
        decreases dirs.len() - i,
    {
        proof {
            assert(views.take(i + 1).drop_last() =~= views.take(i as int));
            assert(views.take(i + 1).last() == dirs@[i as int]@);
            assert(views.take(i + 1)[0] == views[0]);
        }
        if i > 0 {
            names.append(", ");
        }
        names.append(dirs[i].as_str());
        proof {
            if i == 0 {
                assert(names@ =~= dirs@[0]@);
            }
        }
        i = i + 1;
    }
    assert(views.take(i as int) =~= views);
    let count: String = decimal_text(dirs.len() as u64);
    let head: String = concat5(
        "Topic '",
        topic,
        "' metadata was deleted, but ",
        count.as_str(),
        " partition director",
    );
    let ending: &str = if dirs.len() == 1 {
        "y"
    } else {
        "ies"
    };
    let mut message: String = concat3(
        head.as_str(),
        ending,
        " could not be removed from disk (still in use?): ",
    );
    message.append(names.as_str());
    message
}

impl StorageEngine {
    /// Which of the users that were configured have no credential yet.
    pub fn users_to_bootstrap(&self, users: &[(String, String)]) -> (r: Vec<usize>)
        requires
            self.wf(),
        ensures
            forall|i: int, j: int| 0 <= i < j < r@.len() ==> r@[i] < r@[j],
            forall|k: usize| #[trigger]
                r@.contains(k) <==> k < users@.len() && !known_user(
                    self@.credentials,
                    users@[k as int].0@,
                ),
    {
        let mut out: Vec<usize> = Vec::new();
        let mut i: usize = 0;
        while i < users.len()
            invariant
                self.wf(),
                i <= users.len(),
                forall|a: int, b: int| 0 <= a < b < out@.len() ==> out@[a] < out@[b],
                forall|a: int| 0 <= a < out@.len() ==> #[trigger] out@[a] < i,
                forall|k: usize| #[trigger]
                    out@.contains(k) <==> k < i && !known_user(
                        self@.credentials,
                        users@[k as int].0@,
                    ),
            decreases users.len() - i,
        {
            let ghost before = out@;
            if !self.scram_credentials.has_scram_user(users[i].0.as_str()) {
                out.push(i);
                proof {
                    assert forall|k: usize| #[trigger] out@.contains(k) <==> before.contains(k) || k
                        == i by {
                        if before.contains(k) {
                            let a = choose|a: int| 0 <= a < before.len() && before[a] == k;
                            assert(out@[a] == k);
                        }
                        if k == i {
                            assert(out@[before.len() as int] == k);
                        }
                    }
                }
            }
            i = i + 1;
        }
        out
    }
}

/// A record that changes the metadata, if this node may change it.
pub open spec fn proposed(e: StorageEngine, want: RecordView, r: Result<MetadataRecord, String>) -> bool {
    match r {
        Ok(rec) => e.role.is_leader && rec@ == want,
        Err(m) => !e.role.is_leader && m@ == not_controller(),
    }
}

impl StorageEngine {
    fn propose(&self, record: MetadataRecord) -> (r: Result<MetadataRecord, String>)
        ensures
            proposed(*self, record@, r),
    {
        if self.role.is_leader {
            Ok(record)
        } else {
            Err(owned("NOT_CONTROLLER: this node is not the cluster leader"))
        }
    }

    /// The record that adds a rule, and whether the rule is new.
    pub fn create_acl(&self, binding: AclBinding) -> (r: (Result<MetadataRecord, String>, bool))
        requires
            self.wf(),
        ensures
            proposed(*self, (RecordView::AclCreated { binding: binding@ }), r.0),
            r.1 == !self@.acls.contains(binding@),
    {
        let is_new: bool = !self.acl.contains(&binding);
        (self.propose(MetadataRecord::AclCreated { binding }), is_new)
    }

    /// The record that takes a rule out, and whether there is such a rule.
    pub fn delete_acl(&self, binding: AclBinding) -> (r: (Result<MetadataRecord, String>, bool))
        requires
            self.wf(),
        ensures
            proposed(*self, (RecordView::AclDeleted { binding: binding@ }), r.0),
            r.1 == self@.acls.contains(binding@),
    {
        let existed: bool = self.acl.contains(&binding);
        (self.propose(MetadataRecord::AclDeleted { binding }), existed)
    }

    /// The record that makes a node known. Its roles are not known.
    pub fn register_broker(&self, node_id: u32, bind_addr: String) -> (r: Result<
        MetadataRecord,
        String,
    >)
        ensures
            proposed(
                *self,
                (RecordView::BrokerRegister {
                    node_id,
                    bind_addr: bind_addr@,
                    roles: Seq::<ProcessRole>::empty(),
                }),
                r,
            ),
    {
        let roles: Vec<ProcessRole> = Vec::new();
        assert(roles@ =~= Seq::<ProcessRole>::empty());
        self.propose(MetadataRecord::BrokerRegister { node_id, bind_addr, roles })
    }

    /// The record that makes a node unknown.
    pub fn unregister_broker(&self, node_id: u32) -> (r: Result<MetadataRecord, String>)
        ensures
            proposed(*self, (RecordView::BrokerUnregister { node_id }), r),
    {
        self.propose(MetadataRecord::BrokerUnregister { node_id })
    }

    /// The record that gives a user a credential.
    pub fn upsert_scram_credential(&self, credential: ScramCredential) -> (r: Result<
        MetadataRecord,
        String,
    >)
        ensures
            proposed(
                *self,
                (RecordView::ScramCredentialUpsert { credential: credential@ }),
                r,
            ),
    {
        self.propose(MetadataRecord::ScramCredentialUpsert { credential })
    }

    /// The record that takes all credentials of a user out, and whether there are any.
    pub fn delete_scram_user(&self, username: &str) -> (r: (Result<MetadataRecord, String>, bool))
        requires
            self.wf(),
        ensures
            proposed(*self, (RecordView::ScramCredentialDelete { username: username@ }), r.0),
            r.1 == known_user(self@.credentials, username@),
    {
        let existed: bool = self.scram_credentials.has_scram_user(username);
        (
            self.propose(MetadataRecord::ScramCredentialDelete { username: owned(username) }),
            existed,
        )
    }

    /// The record that deletes a topic.
    pub fn delete_topic(&self, topic: &str) -> (r: Result<MetadataRecord, String>)
        ensures
            proposed(*self, (RecordView::TopicDeleted { topic: topic@ }), r),
    {
        self.propose(MetadataRecord::TopicDeleted { topic: owned(topic) })
    }
}

} // verus!
