//! How a broker listens.
use crate::ip::{parse_socket_address, socket_address};
use crate::text::{chars_of, decimal, decimal_text, lower_chars, lowered, matches_at, owned};
use vstd::prelude::*;
use vstd::string::*;

verus! {

/// The port at which metrics are served by default: a thousand above the broker's own, or 9090
/// if there is no such port.
pub open spec fn default_metrics_port(port: u16) -> u16 {
    if port + 1000 <= u16::MAX {
        (port + 1000) as u16
    } else {
        9090
    }
}

pub fn metrics_port(port: u16) -> (r: u16)
    ensures
        r == default_metrics_port(port),
{
    if port <= 64535 {
        port + 1000
    } else {
        9090
    }
}

/// The address at which metrics are served: the one that was configured, if it is one, else the
/// default port on this machine alone.
pub fn metrics_bind_addr(configured: Option<&str>, port: u16) -> (r: String)
    ensures
        r@ == (match configured {
            Some(a) if socket_address(a@) is Some => a@,
            _ => "127.0.0.1:"@ + decimal(default_metrics_port(port) as nat),
        }),
{
    match configured {
        Some(a) => {
            let chars: Vec<char> = chars_of(a);
            if parse_socket_address(chars.as_slice()).is_some() {
                return owned(a);
            }
        },
        None => {},
    }
    let number: String = decimal_text(metrics_port(port) as u64);
    let mut s: String = owned("127.0.0.1:");
    s.append(number.as_str());
    s
}

/// Whether clients have to show a certificate, by the words of the setting.
pub open spec fn asks_certificate(setting: Seq<char>) -> bool {
    let s = lowered(setting);
    s == "required"@ || s == "requested"@ || s == "true"@
}

fn is_word(s: &Vec<char>, word: &str) -> (r: bool)
    ensures
        r == (s@ == word@),
{
    let w: Vec<char> = chars_of(word);
    if s.len() != w.len() {
        return false;
    }
    assert(s@.subrange(0, w@.len() as int) =~= s@);
    matches_at(s.as_slice(), w.as_slice(), 0)
}

/// Whether clients have to show a certificate.
pub fn client_auth_enabled(setting: &str) -> (r: bool)
    ensures
        r == asks_certificate(setting@),
{
    let s: Vec<char> = lower_chars(setting);
    is_word(&s, "required") || is_word(&s, "requested") || is_word(&s, "true")
}

} // verus!
