//! How addresses and ranges of addresses read.
use crate::ip::{
    address_fault, bracketed, in_cidr, in_network, ip_address, octet, plain_number, rule_allows,
    socket_address, IpAddress,
};
use crate::listener::{asks_certificate, default_metrics_port};
use crate::text::{all_digits, decimal, is_digit, lemma_decimal_digits, lowered, pieces, trimmed};
use crate::text_laws::a_number_reads_as_itself;
use vstd::arithmetic::power2::pow2;
use vstd::prelude::*;

verus! {

/// Four numbers with dots between them.
pub open spec fn dotted(a: u8, b: u8, c: u8, d: u8) -> Seq<char> {
    decimal(a as nat) + seq!['.'] + decimal(b as nat) + seq!['.'] + decimal(c as nat) + seq!['.']
        + decimal(d as nat)
}

pub proof fn lemma_whole(s: Seq<char>, sep: char)
    requires
        !s.contains(sep),
    ensures
        pieces(s, sep) == seq![s],
    decreases s.len(),
{
    if s.len() == 0 {
        assert(s =~= Seq::empty());
        assert(pieces(s, sep) =~= seq![s]);
    } else {
        let less = s.drop_last();
        assert(!less.contains(sep)) by {
            if less.contains(sep) {
                let k = choose|k: int| 0 <= k < less.len() && less[k] == sep;
                assert(s[k] == sep);
            }
        }
        assert(s[s.len() - 1] != sep) by {
            assert(s.contains(s[s.len() - 1]));
        }
        lemma_whole(less, sep);
        assert(less.push(s.last()) =~= s);
        assert(pieces(s, sep) =~= seq![s]);
    }
}

pub proof fn lemma_one_more(s: Seq<char>, t: Seq<char>, sep: char)
    requires
        !t.contains(sep),
    ensures
        pieces(s + seq![sep] + t, sep) == pieces(s, sep).push(t),
    decreases t.len(),
{
    let all = s + seq![sep] + t;
    if t.len() == 0 {
        assert(all.drop_last() =~= s);
        assert(all.last() == sep);
        assert(t =~= Seq::empty());
        assert(pieces(all, sep) =~= pieces(s, sep).push(t));
    } else {
        let less = t.drop_last();
        assert(!less.contains(sep)) by {
            if less.contains(sep) {
                let k = choose|k: int| 0 <= k < less.len() && less[k] == sep;
                assert(t[k] == sep);
            }
        }
        assert(t[t.len() - 1] != sep) by {
            assert(t.contains(t[t.len() - 1]));
        }
        lemma_one_more(s, less, sep);
        assert(all.drop_last() =~= s + seq![sep] + less);
        assert(all.last() == t.last());
        assert(less.push(t.last()) =~= t);
        assert(pieces(all, sep) =~= pieces(s, sep).push(t));
    }
}

proof fn lemma_no_sign(n: nat, c: char)
    requires
        !('0' <= c <= '9'),
    ensures
        !decimal(n).contains(c),
{
    lemma_decimal_digits(n);
    if decimal(n).contains(c) {
        let k = choose|k: int| 0 <= k < decimal(n).len() && decimal(n)[k] == c;
        assert('0' <= decimal(n)[k] <= '9');
    }
}

proof fn lemma_octet(n: u8)
    ensures
        octet(decimal(n as nat)) == Some(n as int),
{
    let s = decimal(n as nat);
    lemma_decimal_digits(n as nat);
    a_number_reads_as_itself(n as nat, 255);
    assert('0' <= s[0] <= '9');
    assert(all_digits(s)) by {
        assert forall|i: int| 0 <= i < s.len() implies is_digit(#[trigger] s[i]) by {}
    }
    reveal_with_fuel(decimal, 4);
    if n >= 100 {
        assert(s.len() == 3);
        assert(s[0] == crate::text::digit((n / 100) as nat)) by {
            assert((n as nat / 10) / 10 == n / 100);
        }
    } else if n >= 10 {
        assert(s.len() == 2);
        assert(s[0] == crate::text::digit((n / 10) as nat));
    } else {
        assert(s.len() == 1);
    }
}

/// Four numbers with dots between them read as the address that they are, most significant first.
pub proof fn a_dotted_address_reads_as_itself(a: u8, b: u8, c: u8, d: u8)
    ensures
        ip_address(dotted(a, b, c, d)) == Some(
            IpAddress::V4((a * 0x100_0000 + b * 0x1_0000 + c * 0x100 + d) as u32),
        ),
{
    let s = dotted(a, b, c, d);
    let x = decimal(a as nat);
    let y = decimal(b as nat);
    let z = decimal(c as nat);
    let w = decimal(d as nat);
    lemma_no_sign(a as nat, '.');
    lemma_no_sign(b as nat, '.');
    lemma_no_sign(c as nat, '.');
    lemma_no_sign(d as nat, '.');
    lemma_whole(x, '.');
    lemma_one_more(x, y, '.');
    lemma_one_more(x + seq!['.'] + y, z, '.');
    lemma_one_more(x + seq!['.'] + y + seq!['.'] + z, w, '.');
    assert(pieces(s, '.') =~= seq![x, y, z, w]);
    lemma_octet(a);
    lemma_octet(b);
    lemma_octet(c);
    lemma_octet(d);
}

/// A range holds the addresses that agree with it in as many leading bits as it says, and no
/// others.
pub proof fn a_range_holds_what_begins_alike(network: Seq<char>, net: u32, n: nat, peer: u32)
    requires
        ip_address(network) == Some(IpAddress::V4(net)),
        !network.contains('/'),
    ensures
        in_cidr(network + seq!['/'] + decimal(n), IpAddress::V4(peer)) <==> n <= 32 && net as int / (
        pow2((32 - n) as nat) as int) == peer as int / (pow2((32 - n) as nat) as int),
{
    lemma_range_reads(network, n, IpAddress::V4(peer));
    a_number_reads_as_itself(n, 255);
}

/// The same holds of longer addresses.
pub proof fn a_long_range_holds_what_begins_alike(network: Seq<char>, net: u128, n: nat, peer: u128)
    requires
        ip_address(network) == Some(IpAddress::V6(net)),
        !network.contains('/'),
    ensures
        in_cidr(network + seq!['/'] + decimal(n), IpAddress::V6(peer)) <==> n <= 128 && net as int
            / (pow2((128 - n) as nat) as int) == peer as int / (pow2((128 - n) as nat) as int),
{
    lemma_range_reads(network, n, IpAddress::V6(peer));
    a_number_reads_as_itself(n, 255);
}

/// A range of addresses of one length holds none of the other.
pub proof fn ranges_hold_addresses_of_their_length(
    network: Seq<char>,
    n: nat,
    net: u32,
    long: u128,
)
    requires
        !network.contains('/'),
    ensures
        ip_address(network) == Some(IpAddress::V4(net)) ==> !in_cidr(
            network + seq!['/'] + decimal(n),
            IpAddress::V6(long),
        ),
        ip_address(network) == Some(IpAddress::V6(long)) ==> !in_cidr(
            network + seq!['/'] + decimal(n),
            IpAddress::V4(net),
        ),
{
    lemma_range_reads(network, n, IpAddress::V6(long));
    lemma_range_reads(network, n, IpAddress::V4(net));
}

proof fn lemma_range_reads(network: Seq<char>, n: nat, peer: IpAddress)
    requires
        !network.contains('/'),
    ensures
        in_cidr(network + seq!['/'] + decimal(n), peer) == in_network(network, decimal(n), peer),
{
    let s = network + seq!['/'] + decimal(n);
    let k = network.len() as int;
    lemma_no_sign(n, '/');
    assert(s[k] == '/');
    assert(s.take(k) =~= network);
    assert(s.skip(k + 1) =~= decimal(n));
    assert forall|j: int| 0 <= j < k implies s[j] != '/' by {
        assert(network.contains(network[j]));
    }
    if in_cidr(s, peer) {
        let i = choose|i: int|
            0 <= i < s.len() && #[trigger] s[i] == '/' && (forall|j: int| 0 <= j < i ==> s[j]
                != '/') && in_network(s.take(i), s.skip(i + 1), peer);
        if i > k {
            assert(s[k] != '/');
        }
        assert(i == k);
    }
}

/// A rule lets in everybody if it is a star, and the one address that it names; a range lets in
/// what it holds. White space about it does not count.
pub proof fn rules_let_in_whom_they_name(rule: Seq<char>, ip: IpAddress, peer: IpAddress)
    ensures
        trimmed(rule) == "*"@ ==> rule_allows(rule, peer),
        trimmed(rule) != "*"@ && ip_address(trimmed(rule)) == Some(ip) ==> (rule_allows(rule, peer)
            <==> ip == peer),
        trimmed(rule) != "*"@ && ip_address(trimmed(rule)) is None ==> (rule_allows(rule, peer)
            <==> in_cidr(trimmed(rule), peer)),
{
}

proof fn lemma_plain(n: nat, max: int)
    ensures
        n <= max ==> plain_number(decimal(n), max) == Some(n as int),
        n > max ==> plain_number(decimal(n), max) is None,
{
    let s = decimal(n);
    a_number_reads_as_itself(n, max);
    a_number_reads_as_itself(n, n as int);
    lemma_decimal_digits(n);
    assert('0' <= s[0] <= '9');
    assert(all_digits(s)) by {
        assert forall|i: int| 0 <= i < s.len() implies is_digit(#[trigger] s[i]) by {}
    }
}

/// An address and a port with a colon between them read as what they are, up to the highest port.
pub proof fn an_address_and_a_port_read_as_themselves(a: u8, b: u8, c: u8, d: u8, port: nat)
    ensures
        port <= 65535 ==> socket_address(dotted(a, b, c, d) + seq![':'] + decimal(port)) == Some(
            (
                IpAddress::V4((a * 0x100_0000 + b * 0x1_0000 + c * 0x100 + d) as u32),
                port as int,
            ),
        ),
        port > 65535 ==> socket_address(dotted(a, b, c, d) + seq![':'] + decimal(port)) is None,
{
    let host = dotted(a, b, c, d);
    let s = host + seq![':'] + decimal(port);
    let k = host.len() as int;
    a_dotted_address_reads_as_itself(a, b, c, d);
    lemma_plain(port, 0xffff);
    lemma_no_sign(port, ':');
    assert(s[k] == ':');
    assert(s.contains(':'));
    assert(s.take(k) =~= host);
    assert(s.skip(k + 1) =~= decimal(port));
    s.index_of_last_ensures(':');
    let i = s.index_of_last(':')->0;
    if i > k {
        assert(s[i] == decimal(port)[i - k - 1]);
        assert(decimal(port).contains(s[i]));
    }
    assert(i == k);
    lemma_decimal_digits(a as nat);
    assert(host[0] == decimal(a as nat)[0]);
    assert('0' <= decimal(a as nat)[0] <= '9');
    assert(host[0] != '[');
}

/// A node can be known by an address that has an IP address and a port, and neither is left open.
pub proof fn what_a_node_can_be_known_by(s: Seq<char>)
    ensures
        address_fault(s) is None <==> (socket_address(s) matches Some(x) && x.0 != IpAddress::V4(0)
            && x.0 != IpAddress::V6(0) && x.1 != 0),
{
}

/// Metrics are served a thousand ports above the broker's own, where there is such a port.
pub proof fn metrics_have_their_own_port(port: u16)
    ensures
        port <= 64535 ==> default_metrics_port(port) == port + 1000,
        port > 64535 ==> default_metrics_port(port) == 9090,
{
}

/// Clients have to show a certificate where the setting says `required`, `requested` or `true`, in
/// whatever letters, and nowhere else.
pub proof fn certificates_are_asked_for_by_word(setting: Seq<char>)
    ensures
        lowered(setting) == "required"@ ==> asks_certificate(setting),
        lowered(setting) == "requested"@ ==> asks_certificate(setting),
        lowered(setting) == "true"@ ==> asks_certificate(setting),
        asks_certificate(setting) ==> lowered(setting) == "required"@ || lowered(setting)
            == "requested"@ || lowered(setting) == "true"@,
{
}

/// A long address stands in brackets before its port.
pub proof fn a_long_address_stands_in_brackets(t: Seq<char>, ip: u128, port: nat)
    requires
        ip_address(t) == Some(IpAddress::V6(ip)),
        !t.contains('%'),
        port <= 65535,
    ensures
        socket_address(seq!['['] + t + seq![']', ':'] + decimal(port)) == Some(
            (IpAddress::V6(ip), port as int),
        ),
{
    let host = seq!['['] + t + seq![']'];
    let s = seq!['['] + t + seq![']', ':'] + decimal(port);
    let k = host.len() as int;
    lemma_plain(port, 0xffff);
    lemma_no_sign(port, ':');
    assert(s[k] == ':');
    assert(s.contains(':'));
    assert(s.take(k) =~= host);
    assert(s.skip(k + 1) =~= decimal(port));
    s.index_of_last_ensures(':');
    let i = s.index_of_last(':')->0;
    if i > k {
        assert(s[i] == decimal(port)[i - k - 1]);
        assert(decimal(port).contains(s[i]));
    }
    assert(i == k);
    assert(host[0] == '[');
    assert(host.last() == ']');
    assert(host.subrange(1, host.len() - 1) =~= t);
}

/// The number of a scope behind a long address in brackets does not change the address.
pub proof fn a_scope_does_not_change_the_address(t: Seq<char>, ip: u128, n: nat)
    requires
        ip_address(t) == Some(IpAddress::V6(ip)),
        !t.contains('%'),
        n <= u32::MAX,
    ensures
        bracketed(t + seq!['%'] + decimal(n)) == Some(IpAddress::V6(ip)),
        bracketed(t) == Some(IpAddress::V6(ip)),
{
    let s = t + seq!['%'] + decimal(n);
    let k = t.len() as int;
    lemma_plain(n, u32::MAX as int);
    assert(s[k] == '%');
    assert(s.contains('%'));
    s.index_of_first_ensures('%');
    let i = s.index_of_first('%')->0;
    if i < k {
        assert(t[i] == '%');
        assert(t.contains('%'));
    }
    assert(i == k);
    assert(s.take(k) =~= t);
    assert(s.skip(k + 1) =~= decimal(n));
}

/// A short address does not stand in brackets.
pub proof fn a_short_address_stands_without_brackets(t: Seq<char>, ip: u32)
    requires
        ip_address(t) == Some(IpAddress::V4(ip)),
        !t.contains('%'),
    ensures
        bracketed(t) is None,
{
}

} // verus!
