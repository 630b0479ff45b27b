//! IP addresses and ranges of them, as text.
use crate::codec::range;
use crate::text::{
    all_digits, char_views, chars_of, digits_value, find_char, find_text, has_text, is_digit, owned,
    parse_unsigned, part_chars, pieces, same_text, split_chars, stands_at, text_of, trimmed,
    trimmed_chars, unsigned_value,
};
use vstd::arithmetic::power2::{lemma2_to64, lemma_pow2_pos, lemma_pow2_unfold, pow2};
use vstd::prelude::*;
use vstd::string::*;

verus! {

/// An IP address.
#[derive(Debug, Clone, Copy, PartialEq, Eq, Structural)]
pub enum IpAddress {
    V4(u32),
    V6(u128),
}

/// The number from 0 to 255 that a piece of an IPv4 address reads as: up to three digits,
/// without leading zeros.
pub open spec fn octet(s: Seq<char>) -> Option<int> {
    if 1 <= s.len() <= 3 && all_digits(s) && (s.len() > 1 ==> s[0] != '0') && digits_value(s)
        <= 255 {
        Some(digits_value(s))
    } else {
        None
    }
}

/// The IPv4 address that `s` reads as: four numbers with dots between them.
pub open spec fn ipv4(s: Seq<char>) -> Option<int> {
    let p = pieces(s, '.');
    if p.len() == 4 && octet(p[0]) is Some && octet(p[1]) is Some && octet(p[2]) is Some && octet(
        p[3],
    ) is Some {
        Some(
            octet(p[0])->0 * 0x100_0000 + octet(p[1])->0 * 0x1_0000 + octet(p[2])->0 * 0x100
                + octet(p[3])->0,
        )
    } else {
        None
    }
}

pub open spec fn hex_digit(c: char) -> Option<int> {
    if '0' <= c <= '9' {
        Some(c as int - 48)
    } else if 'a' <= c <= 'f' {
        Some(c as int - 87)
    } else if 'A' <= c <= 'F' {
        Some(c as int - 55)
    } else {
        None
    }
}

pub open spec fn hex_value(s: Seq<char>) -> int
    decreases s.len(),
{
    if s.len() == 0 {
        0
    } else {
        hex_value(s.drop_last()) * 16 + hex_digit(s.last())->0
    }
}

/// The group of an IPv6 address that a piece reads as: up to four hexadecimal digits.
pub open spec fn hex_group(s: Seq<char>) -> Option<int> {
    if 1 <= s.len() <= 4 && forall|i: int| 0 <= i < s.len() ==> hex_digit(#[trigger] s[i]) is Some {
        Some(hex_value(s))
    } else {
        None
    }
}

/// The groups that pieces of an IPv6 address read as. The last piece may be an IPv4 address,
/// which is two groups, where `v4` says so.
pub open spec fn groups(ps: Seq<Seq<char>>, v4: bool) -> Option<Seq<int>>
    decreases ps.len(),
{
    if ps.len() == 0 {
        Some(Seq::empty())
    } else {
        match groups(ps.drop_last(), false) {
            None => None,
            Some(before) => match hex_group(ps.last()) {
                Some(g) => Some(before.push(g)),
                None => match ipv4(ps.last()) {
                    Some(a) => if v4 {
                        Some(before.push(a / 0x1_0000).push(a % 0x1_0000))
                    } else {
                        None
                    },
                    None => None,
                },
            },
        }
    }
}

/// The groups that a part of an IPv6 address reads as.
pub open spec fn part_groups(s: Seq<char>, v4: bool) -> Option<Seq<int>> {
    if s.len() == 0 {
        Some(Seq::empty())
    } else {
        groups(pieces(s, ':'), v4)
    }
}

/// Where the first `::` stands.
pub open spec fn gap(s: Seq<char>) -> int {
    choose|i: int| stands_at(s, seq![':', ':'], i) && forall|j: int|
        0 <= j < i ==> !stands_at(s, seq![':', ':'], j)
}

pub open spec fn zeros(n: int) -> Seq<int> {
    Seq::new(n as nat, |i: int| 0)
}

/// The eight groups of the IPv6 address that `s` reads as. One `::` stands for one or more
/// groups of zero.
pub open spec fn ipv6_groups(s: Seq<char>) -> Option<Seq<int>> {
    if has_text(s, seq![':', ':']) {
        let i = gap(s);
        match (part_groups(s.take(i), false), part_groups(s.skip(i + 2), true)) {
            (Some(head), Some(tail)) => if head.len() + tail.len() <= 7 {
                Some(head + zeros(8 - head.len() - tail.len()) + tail)
            } else {
                None
            },
            _ => None,
        }
    } else {
        match groups(pieces(s, ':'), true) {
            Some(gs) => if gs.len() == 8 {
                Some(gs)
            } else {
                None
            },
            None => None,
        }
    }
}

/// The number that groups of 16 bits stand for.
pub open spec fn joined_groups(gs: Seq<int>) -> int
    decreases gs.len(),
{
    if gs.len() == 0 {
        0
    } else {
        joined_groups(gs.drop_last()) * 0x1_0000 + gs.last()
    }
}

/// The IP address that `s` reads as.
pub open spec fn ip_address(s: Seq<char>) -> Option<IpAddress> {
    match ipv4(s) {
        Some(a) => Some(IpAddress::V4(a as u32)),
        None => match ipv6_groups(s) {
            Some(gs) => Some(IpAddress::V6(joined_groups(gs) as u128)),
            None => None,
        },
    }
}

/// Whether two numbers of `bits` bits agree in the first `prefix` of them.
pub open spec fn same_prefix(a: int, b: int, bits: int, prefix: int) -> bool {
    prefix <= bits && a / (pow2((bits - prefix) as nat) as int) == b / (pow2(
        (bits - prefix) as nat,
    ) as int)
}

/// Whether `peer` lies in the range that `cidr` reads as: an address, a slash, and how many of
/// its first bits count.
pub open spec fn in_cidr(cidr: Seq<char>, peer: IpAddress) -> bool {
    exists|i: int|
        0 <= i < cidr.len() && #[trigger] cidr[i] == '/' && (forall|j: int| 0 <= j < i ==> cidr[j] != '/')
            && in_network(cidr.take(i), cidr.skip(i + 1), peer)
}

pub open spec fn in_network(network: Seq<char>, prefix: Seq<char>, peer: IpAddress) -> bool {
    match (ip_address(network), unsigned_value(prefix, 255), peer) {
        (Some(IpAddress::V4(net)), Some(n), IpAddress::V4(p)) => same_prefix(
            net as int,
            p as int,
            32,
            n,
        ),
        (Some(IpAddress::V6(net)), Some(n), IpAddress::V6(p)) => same_prefix(
            net as int,
            p as int,
            128,
            n,
        ),
        _ => false,
    }
}

fn parse_octet(s: &[char]) -> (r: Option<u32>)
    ensures
        match r {
            Some(v) => octet(s@) == Some(v as int) && v <= 255,
            None => octet(s@) is None,
        },
{
    if s.len() == 0 || s.len() > 3 || (s.len() > 1 && s[0] == '0') || s[0] == '+' {
        assert(s@.len() > 0 && s@[0] == '+' ==> !is_digit(s@[0]));
        return None;
    }
    match parse_unsigned(s, 255) {
        Some(v) => Some(v as u32),
        None => None,
    }
}

fn parse_ipv4(s: &[char]) -> (r: Option<u32>)
    ensures
        match r {
            Some(v) => ipv4(s@) == Some(v as int),
            None => ipv4(s@) is None,
        },
{
    let ps: Vec<Vec<char>> = split_chars(s, '.');
    let ghost p = pieces(s@, '.');
    assert(char_views(ps@).len() == ps@.len());
    if ps.len() != 4 {
        return None;
    }
    assert(char_views(ps@)[0] == ps@[0]@ && char_views(ps@)[1] == ps@[1]@ && char_views(ps@)[2]
        == ps@[2]@ && char_views(ps@)[3] == ps@[3]@);
    match (
        parse_octet(ps[0].as_slice()),
        parse_octet(ps[1].as_slice()),
        parse_octet(ps[2].as_slice()),
        parse_octet(ps[3].as_slice()),
    ) {
        (Some(a), Some(b), Some(c), Some(d)) => Some(
            a * 0x100_0000 + b * 0x1_0000 + c * 0x100 + d,
        ),
        _ => None,
    }
}

fn parse_hex_digit(c: char) -> (r: Option<u32>)
    ensures
        match r {
            Some(v) => hex_digit(c) == Some(v as int) && v < 16,
            None => hex_digit(c) is None,
        },
{
    if '0' <= c && c <= '9' {
        Some((c as u8 - 48) as u32)
    } else if 'a' <= c && c <= 'f' {
        Some((c as u8 - 87) as u32)
    } else if 'A' <= c && c <= 'F' {
        Some((c as u8 - 55) as u32)
    } else {
        None
    }
}

fn parse_hex_group(s: &[char]) -> (r: Option<u16>)
    ensures
        match r {
            Some(v) => hex_group(s@) == Some(v as int),
            None => hex_group(s@) is None,
        },
{
    if s.len() == 0 || s.len() > 4 {
        return None;
    }
    let mut v: u32 = 0;
    let mut i: usize = 0;
    let ghost mut bound: int = 1;
    assert(s@.take(0) =~= Seq::empty());
    while i < s.len()
        invariant
            i <= s.len() <= 4,
            forall|j: int| 0 <= j < i ==> hex_digit(#[trigger] s@[j]) is Some,
            v == hex_value(s@.take(i as int)),
            v < bound,
            i == 0 ==> bound == 1,
            i == 1 ==> bound == 0x10,
            i == 2 ==> bound == 0x100,
            i == 3 ==> bound == 0x1000,
            i == 4 ==> bound == 0x1_0000,
        decreases s.len() - i,
    {
        match parse_hex_digit(s[i]) {
            Some(d) => {
                proof {
                    assert(s@.take(i + 1).drop_last() =~= s@.take(i as int));
                    bound = bound * 16;
                }
                v = v * 16 + d;
            },
            None => {
                assert(hex_digit(s@[i as int]) is None);
                return None;
            },
        }
        i = i + 1;
    }
    assert(s@.take(i as int) =~= s@);
    Some(v as u16)
}

pub open spec fn ints(s: Seq<u16>) -> Seq<int> {
    s.map_values(|x: u16| x as int)
}

fn parse_groups(ps: &Vec<Vec<char>>, v4: bool) -> (r: Option<Vec<u16>>)
    ensures
        match r {
            Some(gs) => groups(char_views(ps@), v4) == Some(ints(gs@)),
            None => groups(char_views(ps@), v4) is None,
        },
{
    let mut out: Vec<u16> = Vec::new();
    let n: usize = ps.len();
    let ghost all = char_views(ps@);
    let mut i: usize = 0;
    proof {
        assert(ints(out@) =~= Seq::empty());
        assert(all.take(0) =~= Seq::empty());
    }
    while i < n
        invariant
            i <= n,
            n == ps@.len(),
            all == char_views(ps@),
            i < n ==> groups(all.take(i as int), false) == Some(ints(out@)),
            i == n ==> groups(all, v4) == Some(ints(out@)),
        decreases n - i,
    {
        let ghost before = ints(out@);
        proof {
            assert(all.take(i + 1).drop_last() =~= all.take(i as int));
            assert(all.take(i + 1).last() == ps@[i as int]@);
            if i + 1 == n {
                assert(all.take(i + 1) =~= all);
            }
        }
        match parse_hex_group(ps[i].as_slice()) {
            Some(g) => {
                out.push(g);
                assert(ints(out@) =~= before.push(g as int));
            },
            None => {
                if !(v4 && i + 1 == n) {
                    proof {
                        if i + 1 < n {
                            lemma_groups_fail(all, i + 1, v4);
                        }
                    }
                    return None;
                }
                match parse_ipv4(ps[i].as_slice()) {
                    Some(a) => {
                        let hi: u16 = (a / 0x1_0000) as u16;
                        let lo: u16 = (a % 0x1_0000) as u16;
                        out.push(hi);
                        out.push(lo);
                        assert(ints(out@) =~= before.push(hi as int).push(lo as int));
                    },
                    None => {
                        return None;
                    },
                }
            },
        }
        i = i + 1;
    }
    proof {
        if n == 0 {
            assert(all =~= Seq::empty());
        }
    }
    Some(out)
}

/// Pieces that begin with pieces that are no groups are no groups.
proof fn lemma_groups_fail(ps: Seq<Seq<char>>, n: int, v4: bool)
    requires
        0 <= n < ps.len(),
        groups(ps.take(n), false) is None,
    ensures
        groups(ps, v4) is None,
    decreases ps.len(),
{
    let front = ps.drop_last();
    if n < front.len() {
        assert(front.take(n) =~= ps.take(n));
        lemma_groups_fail(front, n, false);
    } else {
        assert(front =~= ps.take(n));
    }
}

fn parse_part(s: &[char], v4: bool) -> (r: Option<Vec<u16>>)
    ensures
        match r {
            Some(gs) => part_groups(s@, v4) == Some(ints(gs@)),
            None => part_groups(s@, v4) is None,
        },
{
    if s.len() == 0 {
        let out: Vec<u16> = Vec::new();
        assert(ints(out@) =~= Seq::empty());
        Some(out)
    } else {
        let ps: Vec<Vec<char>> = split_chars(s, ':');
        parse_groups(&ps, v4)
    }
}

fn parse_ipv6(s: &[char]) -> (r: Option<Vec<u16>>)
    ensures
        match r {
            Some(gs) => ipv6_groups(s@) == Some(ints(gs@)) && gs@.len() == 8,
            None => ipv6_groups(s@) is None,
        },
{
    let mut colons: Vec<char> = Vec::new();
    colons.push(':');
    colons.push(':');
    assert(colons@ =~= seq![':', ':']);
    match find_text(s, colons.as_slice()) {
        Some(i) => {
            proof {
                let g = gap(s@);
                assert(stands_at(s@, seq![':', ':'], g));
                assert(g == i);
                assert(s@.subrange(0, i as int) =~= s@.take(i as int));
                assert(s@.subrange(i + 2, s@.len() as int) =~= s@.skip(i + 2));
            }
            assert(i + 2 <= s.len());
            let head: Vec<char> = part_chars(s, 0, i);
            let tail: Vec<char> = part_chars(s, i + 2, s.len());
            match (parse_part(head.as_slice(), false), parse_part(tail.as_slice(), true)) {
                (Some(hg), Some(tg)) => {
                    if hg.len() > 7 || tg.len() > 7 - hg.len() {
                        return None;
                    }
                    let mut out: Vec<u16> = hg;
                    let fill: usize = 8 - out.len() - tg.len();
                    let ghost h = ints(out@);
                    let ghost t = ints(tg@);
                    let mut k: usize = 0;
                    assert(ints(out@) =~= h + zeros(0));
                    while k < fill
                        invariant
                            k <= fill <= 8,
                            ints(out@) == h + zeros(k as int),
                        decreases fill - k,
                    {
                        let ghost prev = ints(out@);
                        out.push(0);
                        k = k + 1;
                        assert(ints(out@) =~= prev.push(0));
                        assert(ints(out@) =~= h + zeros(k as int));
                    }
                    let mut j: usize = 0;
                    assert(ints(out@) =~= h + zeros(fill as int) + t.take(0));
                    while j < tg.len()
                        invariant
                            j <= tg@.len(),
                            t == ints(tg@),
                            ints(out@) == h + zeros(fill as int) + t.take(j as int),
                        decreases tg@.len() - j,
                    {
                        let ghost prev = ints(out@);
                        out.push(tg[j]);
                        j = j + 1;
                        assert(ints(out@) =~= prev.push(t[j - 1]));
                        assert(ints(out@) =~= h + zeros(fill as int) + t.take(j as int));
                    }
                    assert(t.take(j as int) =~= t);
                    assert(out@.len() == ints(out@).len());
                    Some(out)
                },
                _ => None,
            }
        },
        None => {
            let ps: Vec<Vec<char>> = split_chars(s, ':');
            match parse_groups(&ps, true) {
                Some(gs) => {
                    assert(gs@.len() == ints(gs@).len());
                    if gs.len() == 8 {
                        Some(gs)
                    } else {
                        None
                    }
                },
                None => None,
            }
        },
    }
}

proof fn lemma_joined_range(gs: Seq<int>)
    requires
        forall|i: int| 0 <= i < gs.len() ==> 0 <= #[trigger] gs[i] < 0x1_0000,
    ensures
        0 <= joined_groups(gs) < range(2 * gs.len()),
    decreases gs.len(),
{
    if gs.len() > 0 {
        let front = gs.drop_last();
        lemma_joined_range(front);
        assert(0 <= gs[gs.len() - 1] < 0x1_0000);
        let n = front.len();
        assert(range((2 * n + 2) as nat) == range((2 * n + 1) as nat) * 256);
        assert(range((2 * n + 1) as nat) == range((2 * n) as nat) * 256);
    }
}

fn join_groups(gs: &Vec<u16>) -> (r: u128)
    requires
        gs@.len() == 8,
    ensures
        r == joined_groups(ints(gs@)),
{
    let ghost all = ints(gs@);
    let mut v: u128 = 0;
    let mut i: usize = 0;
    assert(all.take(0) =~= Seq::empty());
    while i < gs.len()
        invariant
            i <= gs@.len() == 8,
            all == ints(gs@),
            v == joined_groups(all.take(i as int)),
        decreases gs@.len() - i,
    {
        proof {
            let front = all.take(i as int);
            assert(all.take(i + 1).drop_last() =~= front);
            lemma_joined_range(front);
            reveal_with_fuel(range, 17);
            assert(range((2 * i) as nat) <= range(14)) by {
                lemma_range_grows((2 * i) as nat, 14);
            }
        }
        v = v * 0x1_0000 + gs[i] as u128;
        i = i + 1;
    }
    assert(all.take(i as int) =~= all);
    v
}

proof fn lemma_range_grows(a: nat, b: nat)
    requires
        a <= b,
    ensures
        0 < range(a) <= range(b),
    decreases b,
{
    if a < b {
        lemma_range_grows(a, (b - 1) as nat);
    } else if a > 0 {
        lemma_range_grows((a - 1) as nat, (a - 1) as nat);
    }
}

/// Reads an IP address.
pub fn parse_ip(s: &[char]) -> (r: Option<IpAddress>)
    ensures
        r == ip_address(s@),
{
    match parse_ipv4(s) {
        Some(a) => Some(IpAddress::V4(a)),
        None => match parse_ipv6(s) {
            Some(gs) => Some(IpAddress::V6(join_groups(&gs))),
            None => None,
        },
    }
}

/// Whether two numbers of `bits` bits agree in the first `prefix` of them.
fn prefix_matches(a: u128, b: u128, bits: u64, prefix: u64) -> (r: bool)
    requires
        bits <= 128,
        a < pow2(bits as nat),
        b < pow2(bits as nat),
    ensures
        r == same_prefix(a as int, b as int, bits as int, prefix as int),
{
    if prefix > bits {
        return false;
    }
    if prefix == 0 {
        proof {
            lemma_pow2_pos(bits as nat);
            vstd::arithmetic::div_mod::lemma_basic_div(a as int, pow2(bits as nat) as int);
            vstd::arithmetic::div_mod::lemma_basic_div(b as int, pow2(bits as nat) as int);
        }
        return true;
    }
    let shift: u64 = bits - prefix;
    let mut d: u128 = 1;
    let mut i: u64 = 0;
    proof {
        lemma2_to64();
    }
    while i < shift
        invariant
            i <= shift < 128,
            d == pow2(i as nat),
        decreases shift - i,
    {
        proof {
            lemma_pow2_unfold((i + 1) as nat);
            vstd::arithmetic::power2::lemma_pow2_strictly_increases((i + 1) as nat, 128);
            lemma_pow2_128();
        }
        d = d * 2;
        i = i + 1;
    }
    proof {
        lemma_pow2_pos(shift as nat);
    }
    a / d == b / d
}

proof fn lemma_pow2_128()
    ensures
        pow2(128) == 0x1_0000_0000_0000_0000_0000_0000_0000_0000,
        pow2(32) == 0x1_0000_0000,
{
    lemma2_to64();
    vstd::arithmetic::power2::lemma_pow2_adds(64, 64);
}

/// Whether `peer` lies in the range `cidr`.
pub fn cidr_contains(cidr: &str, peer: IpAddress) -> (r: bool)
    ensures
        r == in_cidr(cidr@, peer),
{
    let chars: Vec<char> = chars_of(cidr);
    match find_char(chars.as_slice(), '/') {
        Some(i) => {
            assert(i < chars.len());
            let net: Vec<char> = part_chars(chars.as_slice(), 0, i);
            let tail: Vec<char> = part_chars(chars.as_slice(), i + 1, chars.len());
            proof {
                assert(net@ =~= cidr@.take(i as int));
                assert(tail@ =~= cidr@.skip(i + 1));
                assert(cidr@[i as int] == '/');
                lemma_pow2_128();
            }
            let r: bool = match (parse_ip(net.as_slice()), parse_unsigned(tail.as_slice(), 255), peer) {
                (Some(IpAddress::V4(n)), Some(prefix), IpAddress::V4(p)) => prefix_matches(
                    n as u128,
                    p as u128,
                    32,
                    prefix,
                ),
                (Some(IpAddress::V6(n)), Some(prefix), IpAddress::V6(p)) => prefix_matches(
                    n,
                    p,
                    128,
                    prefix,
                ),
                _ => false,
            };
            proof {
                assert(r == in_network(cidr@.take(i as int), cidr@.skip(i + 1), peer));
                assert forall|k: int|
                    0 <= k < cidr@.len() && #[trigger] cidr@[k] == '/' && (forall|j: int|
                        0 <= j < k ==> cidr@[j] != '/') implies k == i by {
                    if k < i {
                        assert(chars@[k] != '/');
                    }
                    if i < k {
                        assert(cidr@[i as int] != '/');
                    }
                }
            }
            r
        },
        None => false,
    }
}

/// Whether a rule of an allowlist lets a peer in: `*`, one address, or a range.
pub open spec fn rule_allows(rule: Seq<char>, peer: IpAddress) -> bool {
    let rule = trimmed(rule);
    if rule == "*"@ {
        true
    } else {
        match ip_address(rule) {
            Some(ip) => ip == peer,
            None => in_cidr(rule, peer),
        }
    }
}

fn check_rule(rule: &str, peer: IpAddress) -> (r: bool)
    ensures
        r == rule_allows(rule@, peer),
{
    let chars: Vec<char> = trimmed_chars(rule);
    let text: String = text_of(chars.as_slice());
    if same_text(text.as_str(), "*") {
        return true;
    }
    match parse_ip(chars.as_slice()) {
        Some(ip) => ip == peer,
        None => cidr_contains(text.as_str(), peer),
    }
}

/// Whether a peer may read the metrics: the allowlist is empty, or one of its rules lets the
/// peer in.
pub fn is_allowed_metrics_peer(allowed_ips: &[String], peer_ip: IpAddress) -> (r: bool)
    ensures
        r == (allowed_ips@.len() == 0 || exists|i: int|
            0 <= i < allowed_ips@.len() && rule_allows(#[trigger] allowed_ips@[i]@, peer_ip)),
{
    if allowed_ips.len() == 0 {
        return true;
    }
    let mut i: usize = 0;
    while i < allowed_ips.len()
        invariant
            i <= allowed_ips.len(),
            forall|j: int| 0 <= j < i ==> !rule_allows(#[trigger] allowed_ips@[j]@, peer_ip),
        decreases allowed_ips.len() - i,
    {
        if check_rule(allowed_ips[i].as_str(), peer_ip) {
            return true;
        }
        i = i + 1;
    }
    false
}

/// The number that digits read as, if there are any and it is at most `max`.
pub open spec fn plain_number(s: Seq<char>, max: int) -> Option<int> {
    if s.len() > 0 && all_digits(s) && digits_value(s) <= max {
        Some(digits_value(s))
    } else {
        None
    }
}

fn parse_plain(s: &[char], max: u64) -> (r: Option<u64>)
    ensures
        match r {
            Some(v) => plain_number(s@, max as int) == Some(v as int),
            None => plain_number(s@, max as int) is None,
        },
{
    if s.len() == 0 || s[0] == '+' {
        proof {
            if s.len() > 0 {
                assert(!is_digit(s@[0]));
            }
        }
        return None;
    }
    parse_unsigned(s, max)
}

/// Whether `s` stands in the brackets of a socket address: an IPv6 address, with or without a
/// scope number behind a `%`. The address is the result.
pub open spec fn bracketed(s: Seq<char>) -> Option<IpAddress> {
    if s.contains('%') {
        let i = s.index_of_first('%')->0;
        match (ip_address(s.take(i)), plain_number(s.skip(i + 1), u32::MAX as int)) {
            (Some(IpAddress::V6(a)), Some(_)) => Some(IpAddress::V6(a)),
            _ => None,
        }
    } else {
        match ip_address(s) {
            Some(IpAddress::V6(a)) => Some(IpAddress::V6(a)),
            _ => None,
        }
    }
}

/// The address in front of the last `:` of a socket address.
pub open spec fn host_part(s: Seq<char>) -> Option<IpAddress> {
    if s.len() >= 2 && s[0] == '[' && s.last() == ']' {
        bracketed(s.subrange(1, s.len() - 1))
    } else {
        match ip_address(s) {
            Some(IpAddress::V4(a)) => Some(IpAddress::V4(a)),
            _ => None,
        }
    }
}

/// The address and the port of a socket address: `a.b.c.d:port` or `[ipv6]:port`.
pub open spec fn socket_address(s: Seq<char>) -> Option<(IpAddress, int)> {
    if s.contains(':') {
        let i = s.index_of_last(':')->0;
        match (host_part(s.take(i)), plain_number(s.skip(i + 1), 0xffff)) {
            (Some(a), Some(p)) => Some((a, p)),
            _ => None,
        }
    } else {
        None
    }
}

fn parse_bracketed(s: &[char]) -> (r: Option<IpAddress>)
    ensures
        r == bracketed(s@),
{
    match find_char(s, '%') {
        Some(i) => {
            proof {
                assert(s@.contains('%'));
                s@.index_of_first_ensures('%');
            }
            assert(i < s.len());
            let ip: Vec<char> = part_chars(s, 0, i);
            let scope: Vec<char> = part_chars(s, i + 1, s.len());
            assert(ip@ =~= s@.take(i as int));
            assert(scope@ =~= s@.skip(i + 1));
            match (parse_ip(ip.as_slice()), parse_plain(scope.as_slice(), u32::MAX as u64)) {
                (Some(IpAddress::V6(a)), Some(_)) => Some(IpAddress::V6(a)),
                _ => None,
            }
        },
        None => {
            assert(!s@.contains('%'));
            match parse_ip(s) {
                Some(IpAddress::V6(a)) => Some(IpAddress::V6(a)),
                _ => None,
            }
        },
    }
}

fn parse_host(s: &[char]) -> (r: Option<IpAddress>)
    ensures
        r == host_part(s@),
{
    if s.len() >= 2 && s[0] == '[' && s[s.len() - 1] == ']' {
        let inner: Vec<char> = part_chars(s, 1, s.len() - 1);
        return parse_bracketed(inner.as_slice());
    }
    match parse_ip(s) {
        Some(IpAddress::V4(a)) => Some(IpAddress::V4(a)),
        _ => None,
    }
}

/// Reads a socket address.
pub fn parse_socket_address(s: &[char]) -> (r: Option<(IpAddress, u16)>)
    ensures
        match r {
            Some((a, p)) => socket_address(s@) == Some((a, p as int)),
            None => socket_address(s@) is None,
        },
{
    proof {
        s@.index_of_last_ensures(':');
    }
    let mut i: usize = s.len();
    while i > 0
        invariant
            i <= s.len(),
            forall|j: int| i <= j < s.len() ==> s@[j] != ':',
            match s@.index_of_last(':') {
                Some(k) => 0 <= k < s.len() && s@[k] == ':' && forall|j: int|
                    k < j < s.len() ==> s@[j] != ':',
                None => !s@.contains(':'),
            },
        decreases i,
    {
        i = i - 1;
        if s[i] == ':' {
            assert(s@.contains(':'));
            assert(s@.index_of_last(':') == Some(i as int));
            let host: Vec<char> = part_chars(s, 0, i);
            let port: Vec<char> = part_chars(s, i + 1, s.len());
            assert(host@ =~= s@.take(i as int));
            assert(port@ =~= s@.skip(i + 1));
            return match (parse_host(host.as_slice()), parse_plain(port.as_slice(), 0xffff)) {
                (Some(a), Some(p)) => Some((a, p as u16)),
                _ => None,
            };
        }
    }
    None
}

/// Why an address cannot be what a node is known by, if it cannot.
pub open spec fn address_fault(s: Seq<char>) -> Option<Seq<char>> {
    match socket_address(s) {
        None => Some("not a valid host:port address"@),
        Some((a, p)) => if a == IpAddress::V4(0) || a == IpAddress::V6(0) {
            Some("its IP is unspecified (a wildcard bind address, not a dialable identity)"@)
        } else if p == 0 {
            Some("its port is 0 (an unbound ephemeral placeholder, not a real port)"@)
        } else {
            None
        },
    }
}

/// Refuses an address that no peer could dial.
pub fn validate_advertised_addr(addr: &str) -> (r: Result<(), String>)
    ensures
        match r {
            Ok(()) => address_fault(addr@) is None,
            Err(e) => address_fault(addr@) == Some(e@),
        },
{
    let chars: Vec<char> = chars_of(addr);
    match parse_socket_address(chars.as_slice()) {
        None => Err(owned("not a valid host:port address")),
        Some((a, p)) => {
            if a == IpAddress::V4(0) || a == IpAddress::V6(0) {
                return Err(
                    owned(
                        "its IP is unspecified (a wildcard bind address, not a dialable identity)",
                    ),
                );
            }
            if p == 0 {
                return Err(
                    owned("its port is 0 (an unbound ephemeral placeholder, not a real port)"),
                );
            }
            Ok(())
        },
    }
}

} // verus!
