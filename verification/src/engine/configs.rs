//! The settings of a topic, as texts under names.
use crate::assoc::AssocMap;
use crate::partition::{CleanupPolicy, CompressionCodec, PartitionManager, PartitionView};
use crate::text::{
    chars_of, concat5, owned, parse_unsigned, same_text, text_of, trimmed, trimmed_chars,
    unsigned_value,
};
use vstd::prelude::*;
use vstd::string::*;

verus! {

/// What a numeric setting says: `Some(None)` clears it, `Some(Some(n))` sets it, and `None` is
/// no number and leaves it alone.
pub open spec fn optional_u64(value: Seq<char>) -> Option<Option<u64>> {
    let t = trimmed(value);
    if t.len() == 0 {
        Some(None)
    } else {
        match unsigned_value(t, u64::MAX as int) {
            Some(n) => Some(Some(n as u64)),
            None => None,
        }
    }
}

/// Reads a numeric setting.
pub fn parse_optional_u64_config(value: &str) -> (r: Option<Option<u64>>)
    ensures
        r == optional_u64(value@),
{
    let t: Vec<char> = trimmed_chars(value);
    if t.len() == 0 {
        return Some(None);
    }
    match parse_unsigned(t.as_slice(), u64::MAX) {
        Some(n) => Some(Some(n)),
        None => None,
    }
}

/// The clean-up policy of this name.
pub open spec fn cleanup_named(s: Seq<char>) -> Option<CleanupPolicy> {
    if s == "delete"@ {
        Some(CleanupPolicy::Delete)
    } else if s == "compact"@ {
        Some(CleanupPolicy::Compact)
    } else if s == "compact,delete"@ {
        Some(CleanupPolicy::CompactDelete)
    } else {
        None
    }
}

pub fn parse_cleanup_policy(s: &str) -> (r: Option<CleanupPolicy>)
    ensures
        r == cleanup_named(s@),
{
    if same_text(s, "delete") {
        Some(CleanupPolicy::Delete)
    } else if same_text(s, "compact") {
        Some(CleanupPolicy::Compact)
    } else if same_text(s, "compact,delete") {
        Some(CleanupPolicy::CompactDelete)
    } else {
        None
    }
}

/// The codec of this name.
pub open spec fn codec_named(s: Seq<char>) -> Option<CompressionCodec> {
    if s == "none"@ {
        Some(CompressionCodec::Uncompressed)
    } else if s == "lz4"@ {
        Some(CompressionCodec::Lz4)
    } else if s == "zstd"@ {
        Some(CompressionCodec::Zstd)
    } else {
        None
    }
}

pub fn parse_compression_codec(s: &str) -> (r: Option<CompressionCodec>)
    ensures
        r == codec_named(s@),
{
    if same_text(s, "none") {
        Some(CompressionCodec::Uncompressed)
    } else if same_text(s, "lz4") {
        Some(CompressionCodec::Lz4)
    } else if same_text(s, "zstd") {
        Some(CompressionCodec::Zstd)
    } else {
        None
    }
}

/// What a setting of this name would have to be.
pub enum Expected {
    Whole,
    Positive,
    Ratio,
    Cleanup,
    Codec,
    Anything,
}

/// What a setting of this name has to be.
pub open spec fn expected(key: Seq<char>) -> Expected {
    if key == "retention.ms"@ || key == "retention.bytes"@ || key == "delete.retention.ms"@ || key
        == "segment.ms"@ || key == "segment.bytes"@ || key == "max.message.bytes"@ {
        Expected::Whole
    } else if key == "min.insync.replicas"@ {
        Expected::Positive
    } else if key == "min.cleanable.dirty.ratio"@ {
        Expected::Ratio
    } else if key == "cleanup.policy"@ {
        Expected::Cleanup
    } else if key == "compression.type"@ {
        Expected::Codec
    } else {
        Expected::Anything
    }
}

fn expected_of(key: &str) -> (r: Expected)
    ensures
        r == expected(key@),
{
    if same_text(key, "retention.ms") || same_text(key, "retention.bytes") || same_text(
        key,
        "delete.retention.ms",
    ) || same_text(key, "segment.ms") || same_text(key, "segment.bytes") || same_text(
        key,
        "max.message.bytes",
    ) {
        Expected::Whole
    } else if same_text(key, "min.insync.replicas") {
        Expected::Positive
    } else if same_text(key, "min.cleanable.dirty.ratio") {
        Expected::Ratio
    } else if same_text(key, "cleanup.policy") {
        Expected::Cleanup
    } else if same_text(key, "compression.type") {
        Expected::Codec
    } else {
        Expected::Anything
    }
}

/// What was expected in place of this value, in words, if it is not accepted. `ratio_ok` says
/// whether the value reads as a number from 0 to 1.
pub open spec fn wanted(key: Seq<char>, value: Seq<char>, ratio_ok: bool) -> Option<Seq<char>> {
    let t = trimmed(value);
    if t.len() == 0 {
        None
    } else {
        match expected(key) {
            Expected::Whole => if unsigned_value(t, u64::MAX as int) is None {
                Some("a non-negative integer"@)
            } else {
                None
            },
            Expected::Positive => match unsigned_value(t, usize::MAX as int) {
                Some(n) if n > 0 => None,
                _ => Some("an integer >= 1"@),
            },
            Expected::Ratio => if ratio_ok {
                None
            } else {
                Some("a number between 0.0 and 1.0"@)
            },
            Expected::Cleanup => if cleanup_named(t) is None {
                Some("'delete', 'compact', or 'compact,delete'"@)
            } else {
                None
            },
            Expected::Codec => if codec_named(t) is None {
                Some("'none', 'lz4', or 'zstd'"@)
            } else {
                None
            },
            Expected::Anything => None,
        }
    }
}

/// The message about a value that is not accepted.
pub open spec fn invalid_value(key: Seq<char>, value: Seq<char>, wanted: Seq<char>) -> Seq<char> {
    "Invalid value '"@ + value + "' for '"@ + key + "': expected "@ + wanted
}

fn check_value(key: &str, value: &str, ratio_ok: bool) -> (r: Option<&'static str>)
    ensures
        match r {
            Some(w) => wanted(key@, value@, ratio_ok) == Some(w@),
            None => wanted(key@, value@, ratio_ok) is None,
        },
{
    let t: Vec<char> = trimmed_chars(value);
    if t.len() == 0 {
        return None;
    }
    let text: String = text_of(t.as_slice());
    match expected_of(key) {
        Expected::Whole => if parse_unsigned(t.as_slice(), u64::MAX).is_none() {
            Some("a non-negative integer")
        } else {
            None
        },
        Expected::Positive => match parse_unsigned(t.as_slice(), usize::MAX as u64) {
            Some(n) => if n > 0 {
                None
            } else {
                Some("an integer >= 1")
            },
            None => Some("an integer >= 1"),
        },
        Expected::Ratio => if ratio_ok {
            None
        } else {
            Some("a number between 0.0 and 1.0")
        },
        Expected::Cleanup => if parse_cleanup_policy(text.as_str()).is_none() {
            Some("'delete', 'compact', or 'compact,delete'")
        } else {
            None
        },
        Expected::Codec => if parse_compression_codec(text.as_str()).is_none() {
            Some("'none', 'lz4', or 'zstd'")
        } else {
            None
        },
        Expected::Anything => None,
    }
}

/// Refuses the first value that is not accepted. `ratio_ok[i]` says whether the value of
/// `configs[i]` reads as a number from 0 to 1.
pub fn validate_topic_configs(configs: &[(String, String)], ratio_ok: &[bool]) -> (r: Result<
    (),
    String,
>)
    requires
        configs@.len() == ratio_ok@.len(),
    ensures
        match r {
            Ok(()) => forall|i: int|
                0 <= i < configs@.len() ==> wanted(
                    (#[trigger] configs@[i]).0@,
                    configs@[i].1@,
                    ratio_ok@[i],
                ) is None,
            Err(e) => exists|i: int|
                {
                    &&& 0 <= i < configs@.len()
                    &&& (#[trigger] wanted(configs@[i].0@, configs@[i].1@, ratio_ok@[i])) is Some
                    &&& e@ == invalid_value(
                        configs@[i].0@,
                        configs@[i].1@,
                        wanted(configs@[i].0@, configs@[i].1@, ratio_ok@[i])->0,
                    )
                    &&& forall|j: int|
                        0 <= j < i ==> wanted(
                            (#[trigger] configs@[j]).0@,
                            configs@[j].1@,
                            ratio_ok@[j],
                        ) is None
                },
        },
{
    let mut i: usize = 0;
    while i < configs.len()
        invariant
            i <= configs.len() == ratio_ok.len(),
            forall|j: int|
                0 <= j < i ==> wanted(
                    (#[trigger] configs@[j]).0@,
                    configs@[j].1@,
                    ratio_ok@[j],
                ) is None,
        decreases configs.len() - i,
    {
        let key: &str = configs[i].0.as_str();
        let value: &str = configs[i].1.as_str();
        match check_value(key, value, ratio_ok[i]) {
            Some(w) => {
                let mut message: String = concat5("Invalid value '", value, "' for '", key, "': expected ");
                message.append(w);
                assert(wanted(configs@[i as int].0@, configs@[i as int].1@, ratio_ok@[i as int])
                    is Some);
                return Err(message);
            },
            None => {},
        }
        i = i + 1;
    }
    Ok(())
}

/// Settings by name, as texts.
pub open spec fn settings(m: Map<Seq<char>, String>) -> Map<Seq<char>, Seq<char>> {
    m.map_values(|s: String| s@)
}

/// Pairs of a name and a value, as texts.
pub open spec fn pair_views(s: Seq<(String, String)>) -> Seq<(Seq<char>, Seq<char>)> {
    s.map_values(|p: (String, String)| (p.0@, p.1@))
}

/// The settings that a list gives. Where a name occurs twice the later value counts.
pub open spec fn collected(s: Seq<(Seq<char>, Seq<char>)>) -> Map<Seq<char>, Seq<char>>
    decreases s.len(),
{
    if s.len() == 0 {
        Map::empty()
    } else {
        collected(s.drop_last()).insert(s.last().0, s.last().1)
    }
}

/// Puts a list of settings in a map.
pub fn collect_configs(configs: &[(String, String)]) -> (r: AssocMap<String>)
    ensures
        settings(r@) == collected(pair_views(configs@)),
{
    let mut out: AssocMap<String> = AssocMap::new();
    assert(settings(out@) =~= Map::<Seq<char>, Seq<char>>::empty());
    let ghost all = pair_views(configs@);
    let mut i: usize = 0;
    while i < configs.len()
        invariant
            i <= configs.len(),
            all == pair_views(configs@),
            settings(out@) == collected(all.take(i as int)),
        decreases configs.len() - i,
    {
        let ghost before = out@;
        let value: String = owned(configs[i].1.as_str());
        out.insert(owned(configs[i].0.as_str()), value);
        proof {
            let next = all.take(i + 1);
            assert(next.drop_last() =~= all.take(i as int));
            assert(next.last() == (configs@[i as int].0@, configs@[i as int].1@));
            assert(settings(out@) =~= settings(before).insert(configs@[i as int].0@, value@));
        }
        i = i + 1;
    }
    assert(all.take(i as int) =~= all);
    out
}

/// Settings as a list.
pub fn list_configs(configs: &AssocMap<String>) -> (r: Vec<(String, String)>)
    ensures
        pair_views(r@).len() == configs.names().len(),
        forall|i: int|
            0 <= i < r@.len() ==> (#[trigger] r@[i]).0@ == configs.names()[i] && settings(
                configs@,
            ).contains_key(r@[i].0@) && r@[i].1@ == settings(configs@)[r@[i].0@],
        collected(pair_views(r@)) == settings(configs@),
{
    let mut out: Vec<(String, String)> = Vec::new();
    let n: usize = configs.len();
    let mut i: usize = 0;
    assert(pair_views(out@) =~= Seq::empty());
    while i < n
        invariant
            i <= n == configs.names().len(),
            n == configs.values().len(),
            configs.names().no_duplicates(),
            forall|i: int|
                0 <= i < n ==> configs@.contains_key(#[trigger] configs.names()[i])
                    && configs@[configs.names()[i]] == configs.values()[i],
            out@.len() == i,
            forall|k: int|
                0 <= k < i ==> (#[trigger] out@[k]).0@ == configs.names()[k] && settings(
                    configs@,
                ).contains_key(out@[k].0@) && out@[k].1@ == settings(configs@)[out@[k].0@],
            forall|k: Seq<char>| #[trigger]
                collected(pair_views(out@)).contains_key(k) <==> configs.names().take(
                    i as int,
                ).contains(k),
            forall|k: Seq<char>| #[trigger]
                collected(pair_views(out@)).contains_key(k) ==> configs@.contains_key(k)
                    && collected(pair_views(out@))[k] == configs@[k]@,
        decreases n - i,
    {
        let key: String = owned(configs.name_at(i).as_str());
        let value: String = owned(configs.value_at(i).as_str());
        let ghost before = pair_views(out@);
        out.push((key, value));
        proof {
            assert(pair_views(out@) =~= before.push((key@, value@)));
            let after = pair_views(out@);
            assert(after.drop_last() =~= before);
            assert(after.last() == (key@, value@));
            assert(collected(after) == collected(before).insert(key@, value@));
            assert(configs@[key@]@ == value@);
            let taken = configs.names().take(i as int);
            let next = configs.names().take(i + 1);
            assert(next =~= taken.push(key@));
            assert forall|k: Seq<char>| next.contains(k) <==> taken.contains(k) || k == key@ by {
                if taken.contains(k) {
                    let j = choose|j: int| 0 <= j < taken.len() && taken[j] == k;
                    assert(next[j] == k);
                }
                if k == key@ {
                    assert(next[i as int] == k);
                }
            }
        }
        i = i + 1;
    }
    proof {
        assert(configs.names().take(n as int) =~= configs.names());
        assert(collected(pair_views(out@)) =~= settings(configs@));
    }
    out
}

/// The settings with some names taken out.
pub open spec fn without(m: Map<Seq<char>, Seq<char>>, keys: Seq<Seq<char>>) -> Map<
    Seq<char>,
    Seq<char>,
> {
    m.remove_keys(keys.to_set())
}

/// The settings with some put in.
pub open spec fn with_all(
    m: Map<Seq<char>, Seq<char>>,
    s: Seq<(Seq<char>, Seq<char>)>,
) -> Map<Seq<char>, Seq<char>>
    decreases s.len(),
{
    if s.len() == 0 {
        m
    } else {
        with_all(m, s.drop_last()).insert(s.last().0, s.last().1)
    }
}

/// Names, as texts.
pub open spec fn name_views(s: Seq<String>) -> Seq<Seq<char>> {
    s.map_values(|x: String| x@)
}

/// Takes settings out, and then puts settings in. What is both taken out and put in is in.
pub fn merge_configs(
    current: &AssocMap<String>,
    upserts: &[(String, String)],
    deletes: &[String],
) -> (r: AssocMap<String>)
    ensures
        settings(r@) == with_all(
            without(settings(current@), name_views(deletes@)),
            pair_views(upserts@),
        ),
{
    let all: Vec<(String, String)> = list_configs(current);
    let mut out: AssocMap<String> = collect_configs(all.as_slice());
    let ghost start = settings(current@);
    let ghost names = name_views(deletes@);
    let mut i: usize = 0;
    assert(without(start, names.take(0)) =~= start);
    while i < deletes.len()
        invariant
            i <= deletes.len(),
            names == name_views(deletes@),
            settings(out@) == without(start, names.take(i as int)),
        decreases deletes.len() - i,
    {
        let ghost before = out@;
        let _ = out.remove(deletes[i].as_str());
        proof {
            let key = deletes@[i as int]@;
            assert(settings(out@) =~= settings(before).remove(key));
            let taken = names.take(i as int);
            let next = names.take(i + 1);
            assert(next =~= taken.push(key));
            assert forall|k: Seq<char>| next.to_set().contains(k) <==> taken.to_set().contains(k)
                || k == key by {
                if taken.contains(k) {
                    let j = choose|j: int| 0 <= j < taken.len() && taken[j] == k;
                    assert(next[j] == k);
                }
                if k == key {
                    assert(next[i as int] == k);
                }
            }
            assert(without(start, next) =~= without(start, taken).remove(key));
        }
        i = i + 1;
    }
    assert(names.take(i as int) =~= names);
    let ghost mid = settings(out@);
    let ghost adds = pair_views(upserts@);
    let mut j: usize = 0;
    assert(with_all(mid, adds.take(0)) =~= mid);
    while j < upserts.len()
        invariant
            j <= upserts.len(),
            adds == pair_views(upserts@),
            settings(out@) == with_all(mid, adds.take(j as int)),
        decreases upserts.len() - j,
    {
        let ghost before = out@;
        let value: String = owned(upserts[j].1.as_str());
        out.insert(owned(upserts[j].0.as_str()), value);
        proof {
            let next = adds.take(j + 1);
            assert(next.drop_last() =~= adds.take(j as int));
            assert(next.last() == (upserts@[j as int].0@, upserts@[j as int].1@));
            assert(settings(out@) =~= settings(before).insert(upserts@[j as int].0@, value@));
        }
        j = j + 1;
    }
    assert(adds.take(j as int) =~= adds);
    out
}

/// What a numeric setting becomes under these settings.
pub open spec fn numeric_setting(
    configs: Map<Seq<char>, Seq<char>>,
    key: Seq<char>,
    current: Option<u64>,
) -> Option<u64> {
    if configs.contains_key(key) {
        match optional_u64(configs[key]) {
            Some(x) => x,
            None => current,
        }
    } else {
        current
    }
}

/// A partition under these settings. What does not read as it should leaves things as they are.
pub open spec fn configured(p: PartitionView, configs: Map<Seq<char>, Seq<char>>) -> PartitionView {
    PartitionView {
        cleanup_policy: if configs.contains_key("cleanup.policy"@) {
            match cleanup_named(configs["cleanup.policy"@]) {
                Some(x) => x,
                None => p.cleanup_policy,
            }
        } else {
            p.cleanup_policy
        },
        compression_codec: if configs.contains_key("compression.type"@) {
            match codec_named(configs["compression.type"@]) {
                Some(x) => x,
                None => p.compression_codec,
            }
        } else {
            p.compression_codec
        },
        retention_millis: numeric_setting(configs, "retention.ms"@, p.retention_millis),
        retention_bytes: numeric_setting(configs, "retention.bytes"@, p.retention_bytes),
        delete_retention_millis: numeric_setting(
            configs,
            "delete.retention.ms"@,
            p.delete_retention_millis,
        ),
        ..p
    }
}

fn numeric(configs: &AssocMap<String>, key: &str, current: Option<u64>) -> (r: Option<u64>)
    ensures
        r == numeric_setting(settings(configs@), key@, current),
{
    match configs.get(key) {
        Some(v) => match parse_optional_u64_config(v.as_str()) {
            Some(x) => x,
            None => current,
        },
        None => current,
    }
}

/// Puts a partition under these settings.
pub fn apply_configs(p: &mut PartitionManager, configs: &AssocMap<String>)
    ensures
        final(p)@ == configured(old(p)@, settings(configs@)),
{
    match configs.get("cleanup.policy") {
        Some(v) => match parse_cleanup_policy(v.as_str()) {
            Some(policy) => p.set_cleanup_policy(policy),
            None => {},
        },
        None => {},
    }
    match configs.get("compression.type") {
        Some(v) => match parse_compression_codec(v.as_str()) {
            Some(codec) => p.set_compression_codec(codec),
            None => {},
        },
        None => {},
    }
    let millis: Option<u64> = numeric(configs, "retention.ms", p.retention_millis);
    p.set_retention_millis(millis);
    let bytes: Option<u64> = numeric(configs, "retention.bytes", p.retention_bytes);
    p.set_retention_bytes(bytes);
    let tombstones: Option<u64> = numeric(
        configs,
        "delete.retention.ms",
        p.delete_retention_millis,
    );
    p.set_delete_retention_millis(tombstones);
}

/// How many replicas have to be in sync: what the topic's settings say, if they say it
/// readably, else the broker's default.
pub open spec fn min_insync(configs: Map<Seq<char>, Seq<char>>, default: usize) -> usize {
    if configs.contains_key("min.insync.replicas"@) {
        match unsigned_value(configs["min.insync.replicas"@], usize::MAX as int) {
            Some(n) => n as usize,
            None => default,
        }
    } else {
        default
    }
}

pub fn min_insync_setting(configs: &AssocMap<String>, default: usize) -> (r: usize)
    ensures
        r == min_insync(settings(configs@), default),
{
    match configs.get("min.insync.replicas") {
        Some(v) => {
            let chars: Vec<char> = chars_of(v.as_str());
            match parse_unsigned(chars.as_slice(), usize::MAX as u64) {
                Some(n) => n as usize,
                None => default,
            }
        },
        None => default,
    }
}

/// A value that does not read as a number never clears a numeric setting.
pub proof fn a_typo_changes_nothing(
    configs: Map<Seq<char>, Seq<char>>,
    key: Seq<char>,
    current: Option<u64>,
)
    requires
        configs.contains_key(key),
        optional_u64(configs[key]) is None,
    ensures
        numeric_setting(configs, key, current) == current,
{
}

/// A numeric setting that is accepted takes effect: it is cleared or set, never ignored.
pub proof fn what_is_accepted_takes_effect(key: Seq<char>, value: Seq<char>, ratio_ok: bool)
    requires
        expected(key) is Whole,
        wanted(key, value, ratio_ok) is None,
    ensures
        optional_u64(value) is Some,
{
}

} // verus!
