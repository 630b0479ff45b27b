//! Where the replicas of a partition go, and what a topic may be called.
use crate::text::{chars_of, concat3, find_char, find_text, has_text, same_text};
use vstd::arithmetic::div_mod::{lemma_fundamental_div_mod, lemma_mod_bound, lemma_small_mod};
use vstd::prelude::*;
use vstd::string::*;
use vstd::utf8::*;

verus! {

/// `acc` with the elements of `s` that are not in it yet, in their order, as long as there are
/// fewer than `cap`.
pub open spec fn gathered(acc: Seq<u32>, s: Seq<u32>, cap: int) -> Seq<u32>
    decreases s.len(),
{
    if s.len() == 0 {
        acc
    } else {
        gathered(
            if acc.len() < cap && !acc.contains(s[0]) {
                acc.push(s[0])
            } else {
                acc
            },
            s.skip(1),
            cap,
        )
    }
}

/// Where the first replica goes: to the pinned leader, if it is among the brokers, else to the
/// partition's turn.
pub open spec fn first_place(brokers: Seq<u32>, partition: int, seed: int, pinned: Option<u32>) -> int {
    match pinned {
        Some(l) if brokers.contains(l) => brokers.index_of_first(l)->0,
        _ => (partition + seed % (brokers.len() as int)) % (brokers.len() as int),
    }
}

/// How far behind the leader the follower `j` stands. It shifts on by one each time that the
/// partitions have gone round the brokers.
pub open spec fn stride(n: int, partition: int, seed: int, j: int) -> int {
    1 + (partition / n + seed / n + j) % (n - 1)
}

/// Leader and followers by their strides.
pub open spec fn striped(
    brokers: Seq<u32>,
    partition: int,
    rf: int,
    seed: int,
    pinned: Option<u32>,
) -> Seq<u32> {
    let n = brokers.len() as int;
    let first = first_place(brokers, partition, seed, pinned);
    Seq::new(
        rf as nat,
        |k: int|
            if k == 0 {
                brokers[first]
            } else {
                brokers[(first + stride(n, partition, seed, k - 1)) % n]
            },
    )
}

/// The replicas of a partition: no more than there are brokers; the striped ones, each once, and
/// then, where a broker was listed twice, others in the order of the list.
pub open spec fn placed(
    brokers: Seq<u32>,
    partition: int,
    rf: int,
    seed: int,
    pinned: Option<u32>,
) -> Seq<u32> {
    if brokers.len() == 0 || rf == 0 {
        Seq::empty()
    } else {
        let rf = if rf < brokers.len() {
            rf
        } else {
            brokers.len() as int
        };
        gathered(
            gathered(Seq::empty(), striped(brokers, partition, rf, seed, pinned), rf),
            brokers,
            rf,
        )
    }
}

/// Whether `x` is in `v`.
pub fn holds_u32(v: &[u32], x: u32) -> (r: bool)
    ensures
        r == v@.contains(x),
{
    let mut i: usize = 0;
    while i < v.len()
        invariant
            i <= v.len(),
            forall|j: int| 0 <= j < i ==> v@[j] != x,
        decreases v.len() - i,
    {
        if v[i] == x {
            return true;
        }
        i = i + 1;
    }
    false
}

proof fn lemma_gathered_push(acc: Seq<u32>, s: Seq<u32>, x: u32, cap: int)
    ensures
        gathered(acc, s.push(x), cap) == ({
            let g = gathered(acc, s, cap);
            if g.len() < cap && !g.contains(x) {
                g.push(x)
            } else {
                g
            }
        }),
    decreases s.len(),
{
    if s.len() == 0 {
        assert(s.push(x).skip(1) =~= Seq::empty());
        assert(gathered(acc, s, cap) == acc);
        reveal_with_fuel(gathered, 2);
    } else {
        assert(s.push(x).skip(1) =~= s.skip(1).push(x));
        lemma_gathered_push(
            if acc.len() < cap && !acc.contains(s[0]) {
                acc.push(s[0])
            } else {
                acc
            },
            s.skip(1),
            x,
            cap,
        );
    }
}

/// Where `x` stands in `v` first.
fn place_of(v: &[u32], x: u32) -> (r: Option<usize>)
    ensures
        match r {
            Some(i) => v@.contains(x) && v@.index_of_first(x) == Some(i as int) && i < v@.len(),
            None => !v@.contains(x),
        },
{
    proof {
        v@.index_of_first_ensures(x);
    }
    let mut i: usize = 0;
    while i < v.len()
        invariant
            i <= v.len(),
            forall|j: int| 0 <= j < i ==> v@[j] != x,
            match v@.index_of_first(x) {
                Some(k) => 0 <= k < v.len() && v@[k] == x && forall|j: int|
                    0 <= j < k ==> v@[j] != x,
                None => !v@.contains(x),
            },
        decreases v.len() - i,
    {
        if v[i] == x {
            assert(v@.contains(x));
            return Some(i);
        }
        i = i + 1;
    }
    None
}

fn gather(acc: &mut Vec<u32>, x: u32, cap: usize)
    ensures
        final(acc)@ == (if old(acc)@.len() < cap && !old(acc)@.contains(x) {
            old(acc)@.push(x)
        } else {
            old(acc)@
        }),
{
    if acc.len() < cap && !holds_u32(acc.as_slice(), x) {
        acc.push(x);
    }
}

/// Chooses the brokers for the replicas of a partition, the leader first.
pub fn striped_replicas(
    brokers: &[u32],
    partition: u32,
    replication_factor: usize,
    seed: u64,
    pinned_leader: Option<u32>,
) -> (r: Vec<u32>)
    ensures
        r@ == placed(
            brokers@,
            partition as int,
            replication_factor as int,
            seed as int,
            pinned_leader,
        ),
{
    let n: usize = brokers.len();
    if n == 0 || replication_factor == 0 {
        let none: Vec<u32> = Vec::new();
        assert(none@ =~= Seq::empty());
        return none;
    }
    let rf: usize = if replication_factor < n {
        replication_factor
    } else {
        n
    };
    let wide: u128 = n as u128;
    let pinned: Option<usize> = match pinned_leader {
        Some(l) => place_of(brokers, l),
        None => None,
    };
    let first: usize = match pinned {
        Some(i) => i,
        None => ((partition as u128 + seed as u128 % wide) % wide) as usize,
    };
    let ghost all = striped(brokers@, partition as int, rf as int, seed as int, pinned_leader);
    assert(first == first_place(brokers@, partition as int, seed as int, pinned_leader));
    let mut replicas: Vec<u32> = Vec::new();
    assert(all.take(0) =~= Seq::empty());
    let round: u128 = partition as u128 / wide + seed as u128 / wide;
    assert(round <= partition as u128 + seed as u128) by (nonlinear_arith)
        requires
            round == partition as u128 / wide + seed as u128 / wide,
            wide >= 1,
    ;
    let mut k: usize = 0;
    while k < rf
        invariant
            k <= rf <= n == brokers.len(),
            n >= 1,
            wide == n,
            first < n,
            round == partition as int / n as int + seed as int / n as int,
            round <= 0x1_0000_0000_0000_0000_0000_0000_0000,
            first == first_place(brokers@, partition as int, seed as int, pinned_leader),
            all == striped(brokers@, partition as int, rf as int, seed as int, pinned_leader),
            replicas@ == gathered(Seq::empty(), all.take(k as int), rf as int),
        decreases rf - k,
    {
        let x: u32 = if k == 0 {
            brokers[first]
        } else {
            let shift: u128 = 1 + (round + (k as u128 - 1)) % (wide - 1);
            assert(shift < wide);
            brokers[((first as u128 + shift) % wide) as usize]
        };
        gather(&mut replicas, x, rf);
        proof {
            assert(x == all[k as int]);
            assert(all.take(k + 1) =~= all.take(k as int).push(x));
            lemma_gathered_push(Seq::empty(), all.take(k as int), x, rf as int);
        }
        k = k + 1;
    }
    assert(all.take(rf as int) =~= all);
    let ghost mid = replicas@;
    assert(brokers@.take(0) =~= Seq::empty());
    let mut i: usize = 0;
    while i < brokers.len()
        invariant
            i <= brokers.len(),
            replicas@ == gathered(mid, brokers@.take(i as int), rf as int),
        decreases brokers.len() - i,
    {
        let x: u32 = brokers[i];
        gather(&mut replicas, x, rf);
        proof {
            assert(brokers@.take(i + 1) =~= brokers@.take(i as int).push(x));
            lemma_gathered_push(mid, brokers@.take(i as int), x, rf as int);
        }
        i = i + 1;
    }
    assert(brokers@.take(i as int) =~= brokers@);
    replicas
}

proof fn lemma_gathered(acc: Seq<u32>, s: Seq<u32>, cap: int)
    requires
        acc.no_duplicates(),
        acc.len() <= cap,
    ensures
        gathered(acc, s, cap).no_duplicates(),
        acc.len() <= gathered(acc, s, cap).len() <= cap,
        gathered(acc, s, cap).take(acc.len() as int) == acc,
        gathered(acc, s, cap).len() < cap ==> forall|x: u32|
            s.contains(x) ==> gathered(acc, s, cap).contains(x),
        forall|x: u32|
            gathered(acc, s, cap).contains(x) ==> acc.contains(x) || s.contains(x),
    decreases s.len(),
{
    if s.len() == 0 {
        assert(acc.take(acc.len() as int) =~= acc);
    } else {
        let next = if acc.len() < cap && !acc.contains(s[0]) {
            acc.push(s[0])
        } else {
            acc
        };
        assert(next.no_duplicates());
        lemma_gathered(next, s.skip(1), cap);
        let g = gathered(acc, s, cap);
        assert(g.take(acc.len() as int) =~= g.take(next.len() as int).take(acc.len() as int));
        assert(next.take(acc.len() as int) =~= acc);
        assert forall|x: u32| g.contains(x) implies acc.contains(x) || s.contains(x) by {
            if next.contains(x) {
                if !acc.contains(x) {
                    assert(s[0] == x);
                }
            } else {
                let j = choose|j: int| 0 <= j < s.skip(1).len() && s.skip(1)[j] == x;
                assert(s[j + 1] == x);
            }
        }
        if g.len() < cap {
            assert forall|x: u32| s.contains(x) implies g.contains(x) by {
                let j = choose|j: int| 0 <= j < s.len() && s[j] == x;
                if j == 0 {
                    assert(acc.len() < cap);
                    assert(next.contains(x)) by {
                        if !acc.contains(x) {
                            assert(next[acc.len() as int] == x);
                        }
                    }
                    let i = choose|i: int| 0 <= i < next.len() && next[i] == x;
                    assert(g.take(next.len() as int)[i] == x);
                    assert(g[i] == x);
                } else {
                    assert(s.skip(1)[j - 1] == x);
                    assert(s.skip(1).contains(x));
                    assert(gathered(next, s.skip(1), cap).contains(x));
                }
            }
        }
    }
}

proof fn lemma_all_new(acc: Seq<u32>, s: Seq<u32>, cap: int)
    requires
        (acc + s).no_duplicates(),
        acc.len() + s.len() <= cap,
    ensures
        gathered(acc, s, cap) == acc + s,
    decreases s.len(),
{
    if s.len() == 0 {
        assert(acc + s =~= acc);
    } else {
        assert(!acc.contains(s[0])) by {
            if acc.contains(s[0]) {
                let i = choose|i: int| 0 <= i < acc.len() && acc[i] == s[0];
                assert((acc + s)[i] == (acc + s)[acc.len() as int]);
            }
        }
        assert(acc.push(s[0]) + s.skip(1) =~= acc + s);
        lemma_all_new(acc.push(s[0]), s.skip(1), cap);
    }
}

proof fn lemma_near_mod(a: int, b: int, m: int)
    requires
        m > 0,
        a % m == b % m,
        a <= b < a + m,
    ensures
        a == b,
{
    lemma_fundamental_div_mod(a, m);
    lemma_fundamental_div_mod(b, m);
    let qa = a / m;
    let qb = b / m;
    assert(b - a == m * (qb - qa)) by (nonlinear_arith)
        requires
            a == m * qa + a % m,
            b == m * qb + b % m,
            a % m == b % m,
    ;
    assert(qb - qa == 0) by (nonlinear_arith)
        requires
            0 <= m * (qb - qa) < m,
    ;
    assert(m * (qb - qa) == 0) by (nonlinear_arith)
        requires
            qb - qa == 0,
    ;
}

/// Leader and followers that the strides choose are all different, if the brokers are.
pub proof fn strides_do_not_collide(
    brokers: Seq<u32>,
    partition: int,
    rf: int,
    seed: int,
    pinned: Option<u32>,
)
    requires
        brokers.no_duplicates(),
        0 < rf <= brokers.len(),
        partition >= 0,
        seed >= 0,
    ensures
        striped(brokers, partition, rf, seed, pinned).no_duplicates(),
        forall|x: u32|
            striped(brokers, partition, rf, seed, pinned).contains(x) ==> brokers.contains(x),
{
    let n = brokers.len() as int;
    let first = first_place(brokers, partition, seed, pinned);
    brokers.index_of_first_ensures(pinned->0);
    lemma_mod_bound(partition + seed % n, n);
    let s = striped(brokers, partition, rf, seed, pinned);
    let place = |k: int|
        if k == 0 {
            first
        } else {
            (first + stride(n, partition, seed, k - 1)) % n
        };
    let off = |k: int|
        if k == 0 {
            0
        } else {
            stride(n, partition, seed, k - 1)
        };
    assert forall|k: int| 0 <= k < rf implies 0 <= #[trigger] place(k) < n && 0 <= off(k) < n
        && s[k] == brokers[place(k)] && place(k) == (first + off(k)) % n by {
        lemma_small_mod(first as nat, n as nat);
        if k > 0 {
            lemma_mod_bound(partition / n + seed / n + k - 1, n - 1);
            lemma_mod_bound(first + stride(n, partition, seed, k - 1), n);
        }
    }
    assert forall|j: int, k: int| 0 <= j < k < rf implies s[j] != s[k] by {
        assert(0 <= place(j) < n && 0 <= place(k) < n);
        if place(j) == place(k) {
            let a = off(j);
            let b = off(k);
            if a <= b {
                lemma_near_mod(first + a, first + b, n);
            } else {
                lemma_near_mod(first + b, first + a, n);
            }
            assert(a == b);
            if j > 0 {
                let r = partition / n + seed / n;
                lemma_near_mod(r + (j - 1), r + (k - 1), n - 1);
            } else {
                lemma_mod_bound(partition / n + seed / n + k - 1, n - 1);
            }
        }
    }
    assert forall|x: u32| s.contains(x) implies brokers.contains(x) by {
        let k = choose|k: int| 0 <= k < s.len() && s[k] == x;
        assert(0 <= place(k) < n);
        assert(brokers[place(k)] == x);
    }
}

/// Among different brokers a partition gets as many replicas as were asked for, or all brokers
/// if there are fewer. They are different, and they are the striped ones.
pub proof fn placement_is_full(
    brokers: Seq<u32>,
    partition: int,
    rf: int,
    seed: int,
    pinned: Option<u32>,
)
    requires
        brokers.no_duplicates(),
        rf >= 0,
        partition >= 0,
        seed >= 0,
    ensures
        placed(brokers, partition, rf, seed, pinned).len() == (if rf < brokers.len() {
            rf
        } else {
            brokers.len() as int
        }),
        placed(brokers, partition, rf, seed, pinned).no_duplicates(),
        forall|x: u32|
            placed(brokers, partition, rf, seed, pinned).contains(x) ==> brokers.contains(x),
        brokers.len() > 0 && rf > 0 ==> placed(brokers, partition, rf, seed, pinned) == striped(
            brokers,
            partition,
            if rf < brokers.len() {
                rf
            } else {
                brokers.len() as int
            },
            seed,
            pinned,
        ),
{
    if brokers.len() > 0 && rf > 0 {
        let cap = if rf < brokers.len() {
            rf
        } else {
            brokers.len() as int
        };
        let s = striped(brokers, partition, cap, seed, pinned);
        strides_do_not_collide(brokers, partition, cap, seed, pinned);
        assert(Seq::<u32>::empty() + s =~= s);
        lemma_all_new(Seq::empty(), s, cap);
        lemma_gathered(s, brokers, cap);
        assert(gathered(s, brokers, cap) =~= s) by {
            assert(gathered(s, brokers, cap).take(s.len() as int) =~= gathered(s, brokers, cap));
        }
    }
}

/// A placement never names a broker twice or one that is not there, whatever the list is.
pub proof fn placement_is_sound(
    brokers: Seq<u32>,
    partition: int,
    rf: int,
    seed: int,
    pinned: Option<u32>,
)
    requires
        rf >= 0,
        partition >= 0,
        seed >= 0,
    ensures
        placed(brokers, partition, rf, seed, pinned).no_duplicates(),
        placed(brokers, partition, rf, seed, pinned).len() <= rf,
        forall|x: u32|
            placed(brokers, partition, rf, seed, pinned).contains(x) ==> brokers.contains(x),
{
    if brokers.len() > 0 && rf > 0 {
        let n = brokers.len() as int;
        let cap = if rf < n {
            rf
        } else {
            n
        };
        let s = striped(brokers, partition, cap, seed, pinned);
        let first = first_place(brokers, partition, seed, pinned);
        brokers.index_of_first_ensures(pinned->0);
        lemma_mod_bound(partition + seed % n, n);
        let mid = gathered(Seq::empty(), s, cap);
        lemma_gathered(Seq::empty(), s, cap);
        lemma_gathered(mid, brokers, cap);
        assert forall|x: u32| s.contains(x) implies brokers.contains(x) by {
            let k = choose|k: int| 0 <= k < s.len() && s[k] == x;
            if k == 0 {
                assert(brokers[first] == x);
            } else {
                lemma_mod_bound(first + stride(n, partition, seed, k - 1), n);
                assert(brokers[(first + stride(n, partition, seed, k - 1)) % n] == x);
            }
        }
    }
}

/// A pinned leader that is among the brokers leads.
pub proof fn pinned_leader_leads(
    brokers: Seq<u32>,
    partition: int,
    rf: int,
    seed: int,
    leader: u32,
)
    requires
        brokers.contains(leader),
        rf > 0,
        partition >= 0,
        seed >= 0,
    ensures
        placed(brokers, partition, rf, seed, Some(leader)).len() > 0,
        placed(brokers, partition, rf, seed, Some(leader))[0] == leader,
{
    let n = brokers.len() as int;
    let cap = if rf < n {
        rf
    } else {
        n
    };
    brokers.index_of_first_ensures(leader);
    let s = striped(brokers, partition, cap, seed, Some(leader));
    assert(s[0] == leader);
    let one = Seq::<u32>::empty().push(leader);
    lemma_gathered(one, s.skip(1), cap);
    let mid = gathered(Seq::empty(), s, cap);
    assert(mid == gathered(one, s.skip(1), cap));
    assert(mid.take(1)[0] == leader);
    lemma_gathered(Seq::empty(), s, cap);
    lemma_gathered(mid, brokers, cap);
    let g = gathered(mid, brokers, cap);
    assert(g.take(mid.len() as int)[0] == leader);
}

/// Leadership goes round: of as many partitions in a row as there are brokers, no two are led
/// by the same broker.
pub proof fn leadership_goes_round(brokers: Seq<u32>, p: int, q: int, rf: int, seed: int)
    requires
        brokers.no_duplicates(),
        rf > 0,
        seed >= 0,
        0 <= p < q < p + brokers.len(),
    ensures
        placed(brokers, p, rf, seed, None)[0] != placed(brokers, q, rf, seed, None)[0],
{
    let n = brokers.len() as int;
    placement_is_full(brokers, p, rf, seed, None);
    placement_is_full(brokers, q, rf, seed, None);
    let a = p + seed % n;
    let b = q + seed % n;
    lemma_mod_bound(a, n);
    lemma_mod_bound(b, n);
    if a % n == b % n {
        lemma_near_mod(a, b, n);
    }
}

/// One step of 64-bit FNV-1a.
pub open spec fn fnv_step(h: u64, b: u8) -> u64 {
    (((h ^ (b as u64)) as int * 0x100_0000_01b3) % 0x1_0000_0000_0000_0000) as u64
}

/// 64-bit FNV-1a.
pub open spec fn fnv(bytes: Seq<u8>) -> u64
    decreases bytes.len(),
{
    if bytes.len() == 0 {
        0xcbf2_9ce4_8422_2325
    } else {
        fnv_step(fnv(bytes.drop_last()), bytes.last())
    }
}

/// The seed by which a topic's partitions are placed. It depends on the topic's name alone.
pub fn topic_placement_seed(topic: &str) -> (r: u64)
    ensures
        r == fnv(encode_utf8(topic@)),
{
    let bytes: &[u8] = topic.as_bytes();
    let mut hash: u64 = 0xcbf2_9ce4_8422_2325;
    let mut i: usize = 0;
    while i < bytes.len()
        invariant
            i <= bytes.len(),
            hash == fnv(bytes@.take(i as int)),
        decreases bytes.len() - i,
    {
        proof {
            assert(bytes@.take(i + 1).drop_last() =~= bytes@.take(i as int));
            assert(bytes@.take(i + 1).last() == bytes@[i as int]);
        }
        hash = (hash ^ (bytes[i] as u64)).wrapping_mul(0x100_0000_01b3);
        i = i + 1;
    }
    assert(bytes@.take(i as int) =~= bytes@);
    hash
}

/// Whether `char::is_alphanumeric` holds of the character.
pub uninterp spec fn alphanumeric(c: char) -> bool;

/// `char::is_alphanumeric` is a function of the character alone. Which characters are letters
/// or numbers is left to Unicode's tables.
#[verifier::external_body]
fn is_alphanumeric(c: char) -> (r: bool)
    ensures
        r == alphanumeric(c),
{
    c.is_alphanumeric()
}

/// Whether a topic's name could lead out of the data directory, or be no directory name.
pub open spec fn bad_path(s: Seq<char>) -> bool {
    ||| s.len() == 0
    ||| encode_utf8(s).len() > 249
    ||| s == "."@
    ||| s.contains('/')
    ||| s.contains('\\')
    ||| has_text(s, ".."@)
}

/// Whether a character may stand in a topic's name.
pub open spec fn topic_char(c: char) -> bool {
    alphanumeric(c) || c == '.' || c == '_' || c == '-'
}

/// What is wrong with a topic's name, if anything is.
pub open spec fn topic_fault(s: Seq<char>) -> Option<Seq<char>> {
    if bad_path(s) {
        Some("Invalid topic name: '"@ + s + "'"@)
    } else if exists|i: int| 0 <= i < s.len() && !topic_char(#[trigger] s[i]) {
        Some("Topic name contains illegal characters: '"@ + s + "'"@)
    } else {
        None
    }
}

/// Refuses a name that is no name for a topic.
pub fn validate_topic_name(topic: &str) -> (r: Result<(), String>)
    ensures
        match r {
            Ok(()) => topic_fault(topic@) is None,
            Err(e) => topic_fault(topic@) == Some(e@),
        },
{
    let chars: Vec<char> = chars_of(topic);
    let dots: Vec<char> = chars_of("..");
    let slash: Option<usize> = find_char(chars.as_slice(), '/');
    let back: Option<usize> = find_char(chars.as_slice(), '\\');
    assert(slash is Some <==> topic@.contains('/'));
    assert(back is Some <==> topic@.contains('\\'));
    let double: Option<usize> = find_text(chars.as_slice(), dots.as_slice());
    if chars.len() == 0 || topic.as_bytes().len() > 249 || same_text(topic, ".") || slash.is_some()
        || back.is_some() || double.is_some() {
        return Err(concat3("Invalid topic name: '", topic, "'"));
    }
    let mut i: usize = 0;
    while i < chars.len()
        invariant
            i <= chars.len(),
            chars@ == topic@,
            !bad_path(topic@),
            forall|j: int| 0 <= j < i ==> topic_char(#[trigger] topic@[j]),
        decreases chars.len() - i,
    {
        let c: char = chars[i];
        if !(is_alphanumeric(c) || c == '.' || c == '_' || c == '-') {
            assert(!topic_char(topic@[i as int]));
            return Err(concat3("Topic name contains illegal characters: '", topic, "'"));
        }
        i = i + 1;
    }
    Ok(())
}

} // verus!
