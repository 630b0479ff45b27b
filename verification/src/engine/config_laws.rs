//! What settings do, and how they are changed.
use crate::engine::admin::{
    all_accepted, altered_by, configs_listed, merged_by, offers, refused_with, resolved_addr,
    same_letters, with_plus,
};
use crate::engine::configs::{
    collected, configured, min_insync, pair_views, wanted, with_all, without,
};
use crate::engine::metadata::{MetadataRecord, RecordView};
use crate::engine::state::{EngineConfig, StorageEngine};
use crate::partition::PartitionView;
use crate::text::decimal;
use vstd::prelude::*;

verus! {

/// Of a name that is given more than once the last value counts.
pub proof fn the_last_value_counts(s: Seq<(Seq<char>, Seq<char>)>, i: int)
    requires
        0 <= i < s.len(),
        forall|j: int| i < j < s.len() ==> (#[trigger] s[j]).0 != s[i].0,
    ensures
        collected(s).contains_key(s[i].0),
        collected(s)[s[i].0] == s[i].1,
    decreases s.len(),
{
    if i < s.len() - 1 {
        let n = s.len() - 1;
        assert(s[n].0 != s[i].0);
        assert(s.drop_last()[i] == s[i]);
        the_last_value_counts(s.drop_last(), i);
    }
}

/// A list sets no name that is not in it.
pub proof fn only_what_is_listed_is_set(s: Seq<(Seq<char>, Seq<char>)>, k: Seq<char>)
    requires
        forall|j: int| 0 <= j < s.len() ==> (#[trigger] s[j]).0 != k,
    ensures
        !collected(s).contains_key(k),
    decreases s.len(),
{
    if s.len() > 0 {
        assert(s[s.len() - 1].0 != k);
        assert forall|j: int| 0 <= j < s.drop_last().len() implies (
        #[trigger] s.drop_last()[j]).0 != k by {
            assert(s[j].0 != k);
        }
        only_what_is_listed_is_set(s.drop_last(), k);
    }
}

/// What is put into settings is in them, the last value of a name counts, and names that are not
/// put in keep their values.
pub proof fn what_is_put_in_counts(
    m: Map<Seq<char>, Seq<char>>,
    s: Seq<(Seq<char>, Seq<char>)>,
    k: Seq<char>,
    i: int,
)
    ensures
        0 <= i < s.len() && (forall|j: int| i < j < s.len() ==> (#[trigger] s[j]).0 != s[i].0)
            ==> with_all(m, s).contains_key(s[i].0) && with_all(m, s)[s[i].0] == s[i].1,
        (forall|j: int| 0 <= j < s.len() ==> (#[trigger] s[j]).0 != k) ==> with_all(
            m,
            s,
        ).contains_key(k) == m.contains_key(k) && with_all(m, s)[k] == m[k],
    decreases s.len(),
{
    if s.len() > 0 {
        let n = s.len() - 1;
        let less = s.drop_last();
        what_is_put_in_counts(m, less, k, i);
        if 0 <= i < n && (forall|j: int| i < j < s.len() ==> (#[trigger] s[j]).0 != s[i].0) {
            assert(s[n].0 != s[i].0);
            assert(less[i] == s[i]);
            assert forall|j: int| i < j < less.len() implies (#[trigger] less[j]).0
                != less[i].0 by {
                assert(s[j].0 != s[i].0);
            }
        }
        if forall|j: int| 0 <= j < s.len() ==> (#[trigger] s[j]).0 != k {
            assert(s[n].0 != k);
            assert forall|j: int| 0 <= j < less.len() implies (#[trigger] less[j]).0 != k by {
                assert(s[j].0 != k);
            }
        }
    }
}

/// What is taken out of settings is not in them any more, and nothing else changes.
pub proof fn what_is_taken_out_is_gone(
    m: Map<Seq<char>, Seq<char>>,
    keys: Seq<Seq<char>>,
    k: Seq<char>,
)
    ensures
        without(m, keys).contains_key(k) <==> m.contains_key(k) && !keys.contains(k),
        without(m, keys).contains_key(k) ==> without(m, keys)[k] == m[k],
{
    assert(keys.to_set().contains(k) <==> keys.contains(k));
}

/// A change of some settings sets what it names, takes out what it names, and keeps the rest.
pub proof fn a_change_keeps_other_settings(
    e: StorageEngine,
    topic: Seq<char>,
    upserts: Seq<(Seq<char>, Seq<char>)>,
    deletes: Seq<Seq<char>>,
    ratio_ok: Seq<bool>,
    r: Result<MetadataRecord, String>,
    k: Seq<char>,
    i: int,
)
    requires
        merged_by(e, topic, upserts, deletes, ratio_ok, r),
        r is Ok,
    ensures
        e@.topics.contains_key(topic),
        e.role.is_leader,
        r->Ok_0@ matches RecordView::TopicConfigChanged { topic: t, configs } && {
            let before = e@.topics[topic].configs;
            &&& t == topic
            &&& 0 <= i < upserts.len() && (forall|j: int|
                i < j < upserts.len() ==> (#[trigger] upserts[j]).0 != upserts[i].0) ==> collected(
                configs,
            ).contains_key(upserts[i].0) && collected(configs)[upserts[i].0] == upserts[i].1
            &&& (forall|j: int| 0 <= j < upserts.len() ==> (#[trigger] upserts[j]).0 != k) ==> (
            collected(configs).contains_key(k) <==> before.contains_key(k) && !deletes.contains(k))
            &&& (forall|j: int| 0 <= j < upserts.len() ==> (#[trigger] upserts[j]).0 != k)
                && before.contains_key(k) && !deletes.contains(k) ==> collected(configs)[k]
                == before[k]
        },
{
    let before = e@.topics[topic].configs;
    what_is_taken_out_is_gone(before, deletes, k);
    what_is_put_in_counts(without(before, deletes), upserts, k, i);
}

/// Settings are changed on the cluster's leader alone, of a topic that there is, and only if every
/// value is accepted; and then they are.
pub proof fn settings_change_if_all_are_accepted(
    e: StorageEngine,
    topic: Seq<char>,
    configs: Seq<(Seq<char>, Seq<char>)>,
    ratio_ok: Seq<bool>,
    r: Result<MetadataRecord, String>,
)
    requires
        altered_by(e, topic, configs, ratio_ok, r),
    ensures
        r is Ok <==> e@.topics.contains_key(topic) && e.role.is_leader && (forall|i: int|
            0 <= i < configs.len() ==> wanted(
                (#[trigger] configs[i]).0,
                configs[i].1,
                ratio_ok[i],
            ) is None),
        r is Ok ==> r->Ok_0@ == (RecordView::TopicConfigChanged { topic, configs }),
{
    if r is Err && e@.topics.contains_key(topic) && !all_accepted(configs, ratio_ok) {
        assert(refused_with(configs, ratio_ok, r->Err_0@));
    }
}

/// A partition follows the settings that are given readably, and keeps the rest as it is.
pub proof fn a_partition_follows_its_settings(
    p: PartitionView,
    configs: Map<Seq<char>, Seq<char>>,
)
    ensures
        ({
            let q = configured(p, configs);
            &&& q.log_end_offset == p.log_end_offset && q.committed_hw == p.committed_hw
            &&& q.leader_id == p.leader_id && q.leader_epoch == p.leader_epoch
            &&& q.replicas == p.replicas && q.isr == p.isr && q.producers == p.producers
            &&& q.topic == p.topic && q.partition == p.partition
            &&& !configs.contains_key("retention.ms"@) ==> q.retention_millis == p.retention_millis
            &&& !configs.contains_key("retention.bytes"@) ==> q.retention_bytes
                == p.retention_bytes
            &&& !configs.contains_key("delete.retention.ms"@) ==> q.delete_retention_millis
                == p.delete_retention_millis
            &&& !configs.contains_key("cleanup.policy"@) ==> q.cleanup_policy == p.cleanup_policy
            &&& !configs.contains_key("compression.type"@) ==> q.compression_codec
                == p.compression_codec
            &&& configs.contains_key("cleanup.policy"@) && configs["cleanup.policy"@]
                == "compact"@ ==> q.cleanup_policy is Compact
            &&& configs.contains_key("cleanup.policy"@) && configs["cleanup.policy"@]
                == "delete"@ ==> q.cleanup_policy is Delete
            &&& configs.contains_key("cleanup.policy"@) && configs["cleanup.policy"@]
                == "compact,delete"@ ==> q.cleanup_policy is CompactDelete
            &&& configs.contains_key("compression.type"@) && configs["compression.type"@]
                == "lz4"@ ==> q.compression_codec is Lz4
            &&& configs.contains_key("compression.type"@) && configs["compression.type"@]
                == "zstd"@ ==> q.compression_codec is Zstd
            &&& configs.contains_key("compression.type"@) && configs["compression.type"@]
                == "none"@ ==> q.compression_codec is Uncompressed
        }),
{
    reveal_strlit("compact");
    reveal_strlit("delete");
    reveal_strlit("compact,delete");
    reveal_strlit("lz4");
    reveal_strlit("zstd");
    reveal_strlit("none");
    assert("compact"@.len() == 7 && "delete"@.len() == 6 && "compact,delete"@.len() == 14);
    assert("lz4"@.len() == 3 && "zstd"@.len() == 4 && "none"@.len() == 4);
    assert("zstd"@[0] == 'z' && "none"@[0] == 'n');
}

/// A number that is written down as a setting is the setting, and an empty text clears it.
pub proof fn a_number_sets_a_limit(
    p: PartitionView,
    configs: Map<Seq<char>, Seq<char>>,
    n: u64,
)
    ensures
        configs.contains_key("retention.ms"@) && configs["retention.ms"@] == decimal(n as nat)
            ==> configured(p, configs).retention_millis == Some(n),
        configs.contains_key("retention.bytes"@) && configs["retention.bytes"@] == decimal(n as nat)
            ==> configured(p, configs).retention_bytes == Some(n),
        configs.contains_key("delete.retention.ms"@) && configs["delete.retention.ms"@] == decimal(
            n as nat,
        ) ==> configured(p, configs).delete_retention_millis == Some(n),
        configs.contains_key("retention.ms"@) && configs["retention.ms"@].len() == 0 ==> configured(
            p,
            configs,
        ).retention_millis is None,
        configs.contains_key("retention.bytes"@) && configs["retention.bytes"@].len() == 0
            ==> configured(p, configs).retention_bytes is None,
        configs.contains_key("delete.retention.ms"@) && configs["delete.retention.ms"@].len() == 0
            ==> configured(p, configs).delete_retention_millis is None,
{
    crate::text_laws::a_number_is_not_trimmed(n as nat);
    crate::text_laws::a_number_reads_as_itself(n as nat, u64::MAX as int);
    crate::text_laws::nothing_to_trim(Seq::empty());
    assert forall|s: Seq<char>| #[trigger] s.len() == 0 implies s =~= Seq::empty() by {}
}

/// A topic's own number of nodes in sync beats the broker's, if it reads as a number.
pub proof fn a_topic_sets_its_nodes_in_sync(
    configs: Map<Seq<char>, Seq<char>>,
    default: usize,
    n: usize,
)
    ensures
        !configs.contains_key("min.insync.replicas"@) ==> min_insync(configs, default) == default,
        configs.contains_key("min.insync.replicas"@) && configs["min.insync.replicas"@] == decimal(
            n as nat,
        ) ==> min_insync(configs, default) == n,
{
    crate::text_laws::a_number_reads_as_itself(n as nat, usize::MAX as int);
}

/// A node is known by the address that it was told to use, or else by the one it listens at.
pub proof fn a_node_is_known_where_it_was_told(c: EngineConfig, bound: Seq<char>)
    ensures
        c.advertised_addr is Some ==> resolved_addr(c, bound) == c.advertised_addr->0@,
        c.advertised_addr is None ==> resolved_addr(c, bound) == bound,
{
}

/// A mechanism with channel binding is offered with its plain one, and only with it, and once; no
/// other mechanism comes or goes.
pub proof fn binding_is_offered_with_its_mechanism(
    mechs: Seq<Seq<char>>,
    base: Seq<char>,
    i: int,
)
    ensures
        0 <= i < mechs.len() ==> i < with_plus(mechs, base).len() && with_plus(mechs, base)[i]
            == mechs[i],
        0 <= i < mechs.len() && mechs[i] == base ==> offers(
            with_plus(mechs, base),
            base + "-PLUS"@,
        ),
        !offers(mechs, base) ==> with_plus(mechs, base) == mechs,
        offers(mechs, base + "-PLUS"@) ==> with_plus(mechs, base) == mechs,
        with_plus(mechs, base).len() <= mechs.len() + 1,
{
    let w = with_plus(mechs, base);
    if 0 <= i < mechs.len() && mechs[i] == base {
        assert(same_letters(mechs[i], base));
        assert(offers(mechs, base));
        if !offers(mechs, base + "-PLUS"@) {
            let n = mechs.len() as int;
            assert(same_letters(w[n], base + "-PLUS"@));
        }
    }
}

/// Every setting of a topic is listed with its value, once, and nothing else is.
pub proof fn every_setting_is_listed(
    e: StorageEngine,
    topic: Seq<char>,
    r: Vec<(String, String)>,
    i: int,
    k: Seq<char>,
)
    requires
        configs_listed(e, topic, r),
        e@.topics.contains_key(topic),
    ensures
        0 <= i < r@.len() ==> e@.topics[topic].configs.contains_key(r@[i].0@)
            && e@.topics[topic].configs[r@[i].0@] == r@[i].1@,
        e@.topics[topic].configs.contains_key(k) ==> exists|j: int|
            0 <= j < r@.len() && (#[trigger] r@[j]).0@ == k,
{
    let s = pair_views(r@);
    if 0 <= i < r@.len() {
        assert(s[i] == (r@[i].0@, r@[i].1@));
        assert forall|j: int| i < j < s.len() implies (#[trigger] s[j]).0 != s[i].0 by {
            assert(r@[i].0@ != r@[j].0@);
        }
        the_last_value_counts(s, i);
    }
    if e@.topics[topic].configs.contains_key(k) {
        if forall|j: int| 0 <= j < s.len() ==> (#[trigger] s[j]).0 != k {
            only_what_is_listed_is_set(s, k);
        }
        let j = choose|j: int| 0 <= j < s.len() && (#[trigger] s[j]).0 == k;
        assert(r@[j].0@ == k);
    }
}

} // verus!
