//! How a client says who it is.
use crate::codec::{be, pascal, put_bytes, put_pascal, put_u16, put_u32, put_u64};
use crate::engine::admin::{offers, same_letters};
use crate::engine::credentials::{
    credential_for, CredentialMap, CredentialStore, ScramCredential, ScramMechanism,
};
use crate::text::{
    char_views, chars_of, concat3, concat5, decimal, decimal_text, find_char, find_text, has_text,
    lower_chars, lowered, matches_at, owned, part_chars, pieces, same_text, split_chars, stands_at,
    text_from_utf8, text_of, text_views,
};
use crate::wire::{list_bytes, put_texts, short_texts, ResponseView, WireResponse};
use base64::Engine;
use ring::rand::SecureRandom;
use vstd::prelude::*;
use vstd::string::*;
use vstd::utf8::*;

verus! {

/// How many random bytes the server adds to a client's nonce.
pub const SCRAM_SERVER_NONCE_LEN: usize = 18;

/// The longest name that a client may give itself, in bytes.
pub const MAX_CLIENT_ID_LEN: usize = 256;

/// The code of a refused authentication.
pub const AUTHENTICATION_FAILED: u16 = 58;

/// The code of a mechanism that is not offered.
pub const UNSUPPORTED_MECHANISM: u16 = 33;

/// The Base64 text of bytes, as the standard engine of the `base64` crate writes it.
pub uninterp spec fn base64_text(bytes: Seq<u8>) -> Seq<char>;

/// How long the Base64 text of `n` bytes is: four characters for every three bytes.
pub open spec fn base64_len(n: int) -> int {
    (n + 2) / 3 * 4
}

/// `Engine::encode` of the standard engine is a function of the bytes. Which text it is, is left
/// unsaid. It fails where the text would be longer than a value can be.
#[verifier::external_body]
fn base64_encode(bytes: &[u8]) -> (r: String)
    requires
        base64_len(bytes@.len() as int) <= isize::MAX,
    ensures
        r@ == base64_text(bytes@),
{
    base64::engine::general_purpose::STANDARD.encode(bytes)
}

/// The bytes that a Base64 text stands for, if the standard engine of the `base64` crate takes
/// it.
pub uninterp spec fn base64_bytes(text: Seq<char>) -> Option<Seq<u8>>;

/// `Engine::decode` of the standard engine is a function of the text. Which texts it takes, and
/// what it makes of them, is left unsaid.
#[verifier::external_body]
fn base64_decode(text: &str) -> (r: Option<Vec<u8>>)
    ensures
        match r {
            Some(b) => base64_bytes(text@) == Some(b@),
            None => base64_bytes(text@) is None,
        },
{
    base64::engine::general_purpose::STANDARD.decode(text).ok()
}

/// `SecureRandom::fill` of `SystemRandom` fills a buffer with random bytes, or fails. Nothing is
/// said of the bytes but how many they are.
#[verifier::external_body]
fn random_bytes(n: usize) -> (r: Option<Vec<u8>>)
    requires
        n < 0x4000_0000,
    ensures
        r matches Some(b) ==> b@.len() == n,
{
    let mut bytes = vec![0u8; n];
    ring::rand::SystemRandom::new().fill(&mut bytes).ok()?;
    Some(bytes)
}

/// One hexadecimal digit.
pub open spec fn hex_digit(d: int) -> char {
    if d < 10 {
        (48 + d) as char
    } else {
        (87 + d) as char
    }
}

/// Bytes in hexadecimal, in small letters.
pub open spec fn hex(bytes: Seq<u8>) -> Seq<char>
    decreases bytes.len(),
{
    if bytes.len() == 0 {
        Seq::empty()
    } else {
        hex(bytes.drop_last()).push(hex_digit(bytes.last() as int / 16)).push(
            hex_digit(bytes.last() as int % 16),
        )
    }
}

fn digit_of(d: u8) -> (r: char)
    requires
        d < 16,
    ensures
        r == hex_digit(d as int),
{
    if d < 10 {
        (48 + d) as char
    } else {
        (87 + d) as char
    }
}

/// Writes bytes in hexadecimal.
pub fn hex_encode(bytes: &[u8]) -> (r: String)
    ensures
        r@ == hex(bytes@),
{
    let mut out = String::new();
    let mut i: usize = 0;
    assert(out@ =~= hex(bytes@.take(0)));
    while i < bytes.len()
        invariant
            i <= bytes.len(),
            out@ == hex(bytes@.take(i as int)),
        decreases bytes.len() - i,
    {
        proof {
            assert(bytes@.take(i + 1).drop_last() =~= bytes@.take(i as int));
            assert(bytes@.take(i + 1).last() == bytes@[i as int]);
        }
        out.push(digit_of(bytes[i] / 16));
        out.push(digit_of(bytes[i] % 16));
        i = i + 1;
    }
    assert(bytes@.take(i as int) =~= bytes@);
    out
}

/// A fresh nonce: random bytes in hexadecimal. None if there is no randomness to be had.
pub fn generate_scram_server_nonce() -> (r: Option<String>)
    ensures
        r matches Some(s) ==> exists|b: Seq<u8>|
            b.len() == SCRAM_SERVER_NONCE_LEN && s@ == #[trigger] hex(b),
{
    match random_bytes(SCRAM_SERVER_NONCE_LEN) {
        Some(b) => Some(hex_encode(b.as_slice())),
        None => None,
    }
}

/// The texts that are not empty.
pub open spec fn nonempty(s: Seq<Seq<char>>) -> Seq<Seq<char>>
    decreases s.len(),
{
    if s.len() == 0 {
        Seq::empty()
    } else if s.last().len() > 0 {
        nonempty(s.drop_last()).push(s.last())
    } else {
        nonempty(s.drop_last())
    }
}

/// The user and the password in a text: the first two parts between NULs that are not empty, or
/// else what stands before and behind the first colon, or else nothing.
pub open spec fn plain_auth(s: Seq<char>) -> (Seq<char>, Seq<char>) {
    let parts = nonempty(pieces(s, '\0'));
    if parts.len() >= 2 {
        (parts[0], parts[1])
    } else if s.contains(':') {
        let i = s.index_of_first(':')->0;
        (s.take(i), s.skip(i + 1))
    } else {
        (Seq::empty(), Seq::empty())
    }
}

fn nonempty_parts(parts: &Vec<Vec<char>>) -> (r: Vec<Vec<char>>)
    ensures
        char_views(r@) == nonempty(char_views(parts@)),
{
    let mut out: Vec<Vec<char>> = Vec::new();
    let ghost all = char_views(parts@);
    let mut i: usize = 0;
    assert(char_views(out@) =~= nonempty(all.take(0)));
    while i < parts.len()
        invariant
            i <= parts.len(),
            all == char_views(parts@),
            char_views(out@) == nonempty(all.take(i as int)),
        decreases parts.len() - i,
    {
        proof {
            assert(all.take(i + 1).drop_last() =~= all.take(i as int));
            assert(all.take(i + 1).last() == parts@[i as int]@);
        }
        if parts[i].len() > 0 {
            let ghost before = char_views(out@);
            let copy: Vec<char> = part_chars(parts[i].as_slice(), 0, parts[i].len());
            assert(copy@ =~= parts@[i as int]@);
            out.push(copy);
            assert(char_views(out@) =~= before.push(parts@[i as int]@));
        }
        i = i + 1;
    }
    assert(all.take(i as int) =~= all);
    out
}

/// Reads a user and a password.
pub fn parse_plain_auth(auth_text: &str) -> (r: (String, String))
    ensures
        (r.0@, r.1@) == plain_auth(auth_text@),
{
    let chars: Vec<char> = chars_of(auth_text);
    let all: Vec<Vec<char>> = split_chars(chars.as_slice(), '\0');
    let parts: Vec<Vec<char>> = nonempty_parts(&all);
    let ghost views = char_views(parts@);
    if parts.len() >= 2 {
        assert(views[0] == parts@[0]@ && views[1] == parts@[1]@);
        return (text_of(parts[0].as_slice()), text_of(parts[1].as_slice()));
    }
    proof {
        chars@.index_of_first_ensures(':');
    }
    match find_char(chars.as_slice(), ':') {
        Some(i) => {
            assert(chars@.contains(':'));
            assert(i < chars.len());
            let head: Vec<char> = part_chars(chars.as_slice(), 0, i);
            let tail: Vec<char> = part_chars(chars.as_slice(), i + 1, chars.len());
            assert(head@ =~= chars@.take(i as int));
            assert(tail@ =~= chars@.skip(i + 1));
            (text_of(head.as_slice()), text_of(tail.as_slice()))
        },
        None => {
            let a = String::new();
            let b = String::new();
            assert(a@ =~= Seq::empty() && b@ =~= Seq::empty());
            (a, b)
        },
    }
}

/// Whether a text is a client's first SCRAM message.
pub open spec fn client_first(s: Seq<char>) -> bool {
    has_text(s, "n="@) && has_text(s, "r="@) && !has_text(s, "p="@)
}

/// Whether a text is a client's last SCRAM message.
pub open spec fn client_final(s: Seq<char>) -> bool {
    has_text(s, "c="@) && has_text(s, "r="@) && has_text(s, "p="@)
}

fn holds_text(s: &[char], t: &str) -> (r: bool)
    ensures
        r == has_text(s@, t@),
{
    let chars: Vec<char> = chars_of(t);
    find_text(s, chars.as_slice()).is_some()
}

pub fn is_scram_client_first(auth_text: &str) -> (r: bool)
    ensures
        r == client_first(auth_text@),
{
    let s: Vec<char> = chars_of(auth_text);
    holds_text(s.as_slice(), "n=") && holds_text(s.as_slice(), "r=") && !holds_text(s.as_slice(), "p=")
}

pub fn is_scram_client_final(auth_text: &str) -> (r: bool)
    ensures
        r == client_final(auth_text@),
{
    let s: Vec<char> = chars_of(auth_text);
    holds_text(s.as_slice(), "c=") && holds_text(s.as_slice(), "r=") && holds_text(s.as_slice(), "p=")
}

/// What stands behind a prefix in the last part that has it.
pub open spec fn last_with(parts: Seq<Seq<char>>, prefix: Seq<char>) -> Option<Seq<char>>
    decreases parts.len(),
{
    if parts.len() == 0 {
        None
    } else if stands_at(parts.last(), prefix, 0) {
        Some(parts.last().skip(prefix.len() as int))
    } else {
        last_with(parts.drop_last(), prefix)
    }
}

fn find_last(parts: &Vec<Vec<char>>, prefix: &str) -> (r: Option<String>)
    ensures
        match r {
            Some(s) => last_with(char_views(parts@), prefix@) == Some(s@),
            None => last_with(char_views(parts@), prefix@) is None,
        },
{
    let want: Vec<char> = chars_of(prefix);
    let ghost all = char_views(parts@);
    let mut i: usize = parts.len();
    assert(all.take(i as int) =~= all);
    while i > 0
        invariant
            i <= parts.len(),
            want@ == prefix@,
            all == char_views(parts@),
            last_with(all, prefix@) == last_with(all.take(i as int), prefix@),
        decreases i,
    {
        i = i - 1;
        proof {
            assert(all.take(i + 1).drop_last() =~= all.take(i as int));
            assert(all.take(i + 1).last() == parts@[i as int]@);
        }
        if matches_at(parts[i].as_slice(), want.as_slice(), 0) {
            let value: Vec<char> = part_chars(parts[i].as_slice(), want.len(), parts[i].len());
            assert(value@ =~= parts@[i as int]@.skip(prefix@.len() as int));
            return Some(text_of(value.as_slice()));
        }
    }
    None
}

/// A client's first message: the user, the nonce, and the part of the message that both sides
/// sign.
pub open spec fn first_message(s: Seq<char>, user: Seq<char>, nonce: Seq<char>, bare: Seq<char>) -> bool {
    exists|i: int|
        {
            &&& #[trigger] stands_at(s, "n="@, i)
            &&& forall|j: int| 0 <= j < i ==> !stands_at(s, "n="@, j)
            &&& bare == s.skip(i)
            &&& last_with(pieces(bare, ','), "n="@) == Some(user)
            &&& last_with(pieces(bare, ','), "r="@) == Some(nonce)
        }
}

/// Reads a client's first message.
pub fn parse_scram_client_first(auth_text: &str) -> (r: Option<(String, String, String)>)
    ensures
        match r {
            Some((user, nonce, bare)) => first_message(auth_text@, user@, nonce@, bare@),
            None => forall|user: Seq<char>, nonce: Seq<char>, bare: Seq<char>|
                !#[trigger] first_message(auth_text@, user, nonce, bare),
        },
{
    let chars: Vec<char> = chars_of(auth_text);
    let mark: Vec<char> = chars_of("n=");
    match find_text(chars.as_slice(), mark.as_slice()) {
        None => {
            proof {
                assert forall|user: Seq<char>, nonce: Seq<char>, bare: Seq<char>|
                    !#[trigger] first_message(auth_text@, user, nonce, bare) by {
                    if first_message(auth_text@, user, nonce, bare) {
                        let i = choose|i: int|
                            {
                                &&& #[trigger] stands_at(auth_text@, "n="@, i)
                                &&& forall|j: int| 0 <= j < i ==> !stands_at(auth_text@, "n="@, j)
                                &&& bare == auth_text@.skip(i)
                                &&& last_with(pieces(bare, ','), "n="@) == Some(user)
                                &&& last_with(pieces(bare, ','), "r="@) == Some(nonce)
                            };
                        assert(has_text(auth_text@, "n="@));
                    }
                }
            }
            None
        },
        Some(start) => {
            let bare: Vec<char> = part_chars(chars.as_slice(), start, chars.len());
            assert(bare@ =~= auth_text@.skip(start as int));
            let parts: Vec<Vec<char>> = split_chars(bare.as_slice(), ',');
            let user: Option<String> = find_last(&parts, "n=");
            let nonce: Option<String> = find_last(&parts, "r=");
            proof {
                let s = auth_text@;
                assert forall|u: Seq<char>, n: Seq<char>, b: Seq<char>| #[trigger]
                    first_message(s, u, n, b) implies b == bare@ && last_with(
                    pieces(bare@, ','),
                    "n="@,
                ) == Some(u) && last_with(pieces(bare@, ','), "r="@) == Some(n) by {
                    let i = choose|i: int|
                        {
                            &&& #[trigger] stands_at(s, "n="@, i)
                            &&& forall|j: int| 0 <= j < i ==> !stands_at(s, "n="@, j)
                            &&& b == s.skip(i)
                            &&& last_with(pieces(b, ','), "n="@) == Some(u)
                            &&& last_with(pieces(b, ','), "r="@) == Some(n)
                        };
                    assert(i == start);
                }
            }
            match (user, nonce) {
                (Some(u), Some(n)) => {
                    assert(stands_at(auth_text@, "n="@, start as int));
                    Some((u, n, text_of(bare.as_slice())))
                },
                _ => None,
            }
        },
    }
}

/// The parts that the proof does not cover itself: the channel binding and the nonce.
pub open spec fn unproved(parts: Seq<Seq<char>>) -> Seq<Seq<char>>
    decreases parts.len(),
{
    if parts.len() == 0 {
        Seq::empty()
    } else {
        let before = unproved(parts.drop_last());
        if stands_at(parts.last(), "c="@, 0) || stands_at(parts.last(), "r="@, 0) {
            before.push(parts.last())
        } else {
            before
        }
    }
}

/// Parts with commas between them.
pub open spec fn joined(parts: Seq<Seq<char>>) -> Seq<char>
    decreases parts.len(),
{
    if parts.len() == 0 {
        Seq::empty()
    } else if parts.len() == 1 {
        parts[0]
    } else {
        joined(parts.drop_last()) + ","@ + parts.last()
    }
}

fn join_unproved(parts: &Vec<Vec<char>>) -> (r: String)
    ensures
        r@ == joined(unproved(char_views(parts@))),
{
    let c: Vec<char> = chars_of("c=");
    let n: Vec<char> = chars_of("r=");
    let ghost all = char_views(parts@);
    let mut out = String::new();
    let mut count: usize = 0;
    let mut i: usize = 0;
    assert(out@ =~= joined(unproved(all.take(0))));
    while i < parts.len()
        invariant
            i <= parts.len(),
            count <= i,
            c@ == "c="@,
            n@ == "r="@,
            all == char_views(parts@),
            count == unproved(all.take(i as int)).len(),
            out@ == joined(unproved(all.take(i as int))),
        decreases parts.len() - i,
    {
        let ghost before = unproved(all.take(i as int));
        proof {
            assert(all.take(i + 1).drop_last() =~= all.take(i as int));
            assert(all.take(i + 1).last() == parts@[i as int]@);
        }
        if matches_at(parts[i].as_slice(), c.as_slice(), 0) || matches_at(
            parts[i].as_slice(),
            n.as_slice(),
            0,
        ) {
            let text: String = text_of(parts[i].as_slice());
            let ghost after = before.push(text@);
            assert(after.drop_last() =~= before);
            if count > 0 {
                out.append(",");
            }
            out.append(text.as_str());
            proof {
                if count == 0 {
                    assert(out@ =~= text@);
                    assert(after[0] == text@);
                }
            }
            count = count + 1;
        }
        i = i + 1;
    }
    assert(all.take(i as int) =~= all);
    out
}

/// A client's last message.
pub struct ScramClientFinal {
    pub nonce: String,
    pub proof: Vec<u8>,
    pub without_proof: String,
    pub channel_binding: String,
}

/// A client's last message, as values.
pub struct FinalView {
    pub nonce: Seq<char>,
    pub proof: Seq<u8>,
    pub without_proof: Seq<char>,
    pub channel_binding: Seq<char>,
}

impl ScramClientFinal {
    pub open spec fn view(self) -> FinalView {
        FinalView {
            nonce: self.nonce@,
            proof: self.proof@,
            without_proof: self.without_proof@,
            channel_binding: self.channel_binding@,
        }
    }
}

/// The last message that a text is, where `decoded` is what its proof decodes to.
pub open spec fn final_with(s: Seq<char>, decoded: Option<Seq<u8>>) -> Option<FinalView> {
    let parts = pieces(s, ',');
    match (last_with(parts, "c="@), decoded, last_with(parts, "r="@)) {
        (Some(channel_binding), Some(proof), Some(nonce)) => Some(
            FinalView { nonce, proof, without_proof: joined(unproved(parts)), channel_binding },
        ),
        _ => None,
    }
}

/// The last message that a text is.
pub open spec fn final_message(s: Seq<char>) -> Option<FinalView> {
    final_with(
        s,
        match last_with(pieces(s, ','), "p="@) {
            Some(p) => base64_bytes(p),
            None => None,
        },
    )
}

/// Reads a client's last message, where `decoded` is what its proof decodes to.
pub fn assemble_client_final(auth_text: &str, decoded: Option<Vec<u8>>) -> (r: Option<
    ScramClientFinal,
>)
    ensures
        ({
            let d = match decoded {
                Some(b) => Some(b@),
                None => None,
            };
            match r {
                Some(m) => final_with(auth_text@, d) == Some(m@),
                None => final_with(auth_text@, d) is None,
            }
        }),
{
    let chars: Vec<char> = chars_of(auth_text);
    let parts: Vec<Vec<char>> = split_chars(chars.as_slice(), ',');
    match (find_last(&parts, "c="), decoded, find_last(&parts, "r=")) {
        (Some(channel_binding), Some(proof), Some(nonce)) => Some(
            ScramClientFinal {
                nonce,
                proof,
                without_proof: join_unproved(&parts),
                channel_binding,
            },
        ),
        _ => None,
    }
}

/// Reads a client's last message.
pub fn parse_scram_client_final(auth_text: &str) -> (r: Option<ScramClientFinal>)
    ensures
        match r {
            Some(m) => final_message(auth_text@) == Some(m@),
            None => final_message(auth_text@) is None,
        },
{
    let chars: Vec<char> = chars_of(auth_text);
    let parts: Vec<Vec<char>> = split_chars(chars.as_slice(), ',');
    let decoded: Option<Vec<u8>> = match find_last(&parts, "p=") {
        Some(p) => base64_decode(p.as_str()),
        None => None,
    };
    assemble_client_final(auth_text, decoded)
}

/// A SCRAM exchange under way.
pub struct ScramSession {
    /// Whether the client has to prove that it sees this server's certificate.
    pub channel_bound: bool,
    pub username: String,
    pub mechanism: ScramMechanism,
    pub client_first_bare: String,
    pub server_first_message: String,
    pub combined_nonce: String,
}

/// An exchange, as values.
pub struct SessionView {
    pub channel_bound: bool,
    pub username: Seq<char>,
    pub mechanism: ScramMechanism,
    pub client_first_bare: Seq<char>,
    pub server_first_message: Seq<char>,
    pub combined_nonce: Seq<char>,
}

impl ScramSession {
    pub open spec fn view(self) -> SessionView {
        SessionView {
            channel_bound: self.channel_bound,
            username: self.username@,
            mechanism: self.mechanism,
            client_first_bare: self.client_first_bare@,
            server_first_message: self.server_first_message@,
            combined_nonce: self.combined_nonce@,
        }
    }
}

/// Who is at the other end of a connection.
pub struct ClientIdentity {
    pub principal: String,
    pub logical_client_id: Option<String>,
    pub scram_session: Option<ScramSession>,
    pub negotiated_mechanism: Option<ScramMechanism>,
    pub negotiated_is_plus: bool,
}

/// An identity, as values.
pub struct IdentityView {
    pub principal: Seq<char>,
    pub logical_client_id: Option<Seq<char>>,
    pub session: Option<SessionView>,
    pub mechanism: Option<ScramMechanism>,
    pub is_plus: bool,
}

impl ClientIdentity {
    pub open spec fn view(self) -> IdentityView {
        IdentityView {
            principal: self.principal@,
            logical_client_id: match self.logical_client_id {
                Some(c) => Some(c@),
                None => None,
            },
            session: match self.scram_session {
                Some(s) => Some(s@),
                None => None,
            },
            mechanism: self.negotiated_mechanism,
            is_plus: self.negotiated_is_plus,
        }
    }
}

/// The principal of a client that has not said who it is.
pub open spec fn anonymous() -> Seq<char> {
    "User:ANONYMOUS"@
}

/// The key under which a client's traffic is limited.
pub open spec fn quota_key(principal: Seq<char>, client_id: Option<Seq<char>>, fallback: Seq<char>) -> Seq<
    char,
> {
    match client_id {
        Some(c) => if principal != anonymous() {
            principal + "|client:"@ + c
        } else {
            "client:"@ + c
        },
        None => if principal != anonymous() {
            principal
        } else {
            fallback
        },
    }
}

/// The key under which a client's traffic is limited: its principal and the name that it gave
/// itself, as far as it has them, else its address.
pub fn resolve_quota_key(
    principal: &str,
    logical_client_id: Option<&str>,
    fallback_client_key: &str,
) -> (r: String)
    ensures
        r@ == quota_key(
            principal@,
            match logical_client_id {
                Some(c) => Some(c@),
                None => None,
            },
            fallback_client_key@,
        ),
{
    let known: bool = !same_text(principal, "User:ANONYMOUS");
    match logical_client_id {
        Some(c) => if known {
            concat3(principal, "|client:", c)
        } else {
            let mut s: String = owned("client:");
            s.append(c);
            s
        },
        None => if known {
            owned(principal)
        } else {
            owned(fallback_client_key)
        },
    }
}

/// The reply to an authentication.
pub open spec fn auth_reply(code: u16, message: Seq<char>, data: Seq<u8>) -> ResponseView {
    ResponseView::Success {
        payload: be(code as int, 2) + pascal(message) + be(data.len() as int, 4) + data + be(0, 8),
    }
}

/// The reply to an authentication that failed.
pub open spec fn auth_failed() -> ResponseView {
    auth_reply(AUTHENTICATION_FAILED, "SASL Authentication Failed"@, Seq::empty())
}

/// Builds the reply to an authentication.
pub fn build_sasl_auth_response(error_code: u16, error_message: &str, auth_bytes: &[u8]) -> (r:
    WireResponse)
    requires
        encode_utf8(error_message@).len() < 0x1_0000,
        auth_bytes@.len() < 0x1_0000_0000,
    ensures
        r@ == auth_reply(error_code, error_message@, auth_bytes@),
{
    let mut out: Vec<u8> = Vec::new();
    put_u16(&mut out, error_code);
    put_pascal(&mut out, error_message);
    put_u32(&mut out, auth_bytes.len() as u32);
    put_bytes(&mut out, auth_bytes);
    put_u64(&mut out, 0);
    assert(out@ =~= be(error_code as int, 2) + pascal(error_message@) + be(
        auth_bytes@.len() as int,
        4,
    ) + auth_bytes@ + be(0, 8));
    WireResponse::Success { payload: out }
}

fn failed_reply() -> (r: WireResponse)
    ensures
        r@ == auth_failed(),
{
    let none: Vec<u8> = Vec::new();
    proof {
        reveal_strlit("SASL Authentication Failed");
        is_ascii_chars_encode_utf8("SASL Authentication Failed"@);
        assert(none@ =~= Seq::empty());
    }
    build_sasl_auth_response(AUTHENTICATION_FAILED, "SASL Authentication Failed", none.as_slice())
}

/// Whether a mechanism is one that binds to the channel.
pub open spec fn is_plus(name: Seq<char>) -> bool {
    let s = lowered(name);
    s == lowered("SCRAM-SHA-256-PLUS"@) || s == lowered("SCRAM-SHA-512-PLUS"@)
}

/// The hash of a mechanism.
pub open spec fn mechanism_named(name: Seq<char>) -> Option<ScramMechanism> {
    let s = lowered(name);
    if s == lowered("SCRAM-SHA-256"@) || s == lowered("SCRAM-SHA-256-PLUS"@) {
        Some(ScramMechanism::Sha256)
    } else if s == lowered("SCRAM-SHA-512"@) || s == lowered("SCRAM-SHA-512-PLUS"@) {
        Some(ScramMechanism::Sha512)
    } else {
        None
    }
}

fn same_lowered(a: &str, b: &str) -> (r: bool)
    ensures
        r == same_letters(a@, b@),
{
    let x: Vec<char> = lower_chars(a);
    let y: Vec<char> = lower_chars(b);
    if x.len() != y.len() {
        return false;
    }
    let r: bool = matches_at(x.as_slice(), y.as_slice(), 0);
    assert(x@.subrange(0, y@.len() as int) =~= x@);
    r
}

fn parse_mechanism(name: &str) -> (r: (Option<ScramMechanism>, bool))
    ensures
        r.0 == mechanism_named(name@),
        r.1 == is_plus(name@),
{
    let a: bool = same_lowered(name, "SCRAM-SHA-256-PLUS");
    let b: bool = same_lowered(name, "SCRAM-SHA-512-PLUS");
    if same_lowered(name, "SCRAM-SHA-256") || a {
        (Some(ScramMechanism::Sha256), a || b)
    } else if same_lowered(name, "SCRAM-SHA-512") || b {
        (Some(ScramMechanism::Sha512), a || b)
    } else {
        (None, a || b)
    }
}

/// A text, if there is one, as a value.
pub open spec fn text_view(s: Option<String>) -> Option<Seq<char>> {
    match s {
        Some(x) => Some(x@),
        None => None,
    }
}

/// The server's first message.
pub open spec fn server_first(combined: Seq<char>, salt: Seq<u8>, iterations: u32) -> Seq<char> {
    "r="@ + combined + ",s="@ + base64_text(salt) + ",i="@ + decimal(iterations as nat)
}

/// What both sides sign.
pub open spec fn auth_message(s: SessionView, without_proof: Seq<char>) -> Seq<char> {
    s.client_first_bare + ","@ + s.server_first_message + ","@ + without_proof
}

/// What comes next in an authentication.
pub enum AuthStep {
    /// This is the reply.
    Reply { response: WireResponse },
    /// The channel binding and the proof have to be checked against the credential.
    CheckProof {
        credential: ScramCredential,
        auth_message: String,
        proof: Vec<u8>,
        channel_binding: String,
        channel_bound: bool,
    },
    /// The password has to be checked against the credential.
    CheckPassword { credential: ScramCredential, username: String, password: String },
}

/// An identity without an exchange under way.
pub open spec fn settled(v: IdentityView) -> IdentityView {
    IdentityView { session: None, ..v }
}

/// An identity of a user, without an exchange under way.
pub open spec fn logged_in(v: IdentityView, username: Seq<char>) -> IdentityView {
    IdentityView { session: None, principal: "User:"@ + username, ..v }
}

/// Whether a first message is answered: it names a user with a credential, there is a nonce, and
/// the answer can be written down. Those of the parts are the user, the nonce and the signed
/// part of the message.
pub open spec fn first_answered(
    m: CredentialMap,
    v: IdentityView,
    user: Seq<char>,
    client_nonce: Seq<char>,
    server_nonce: Option<Seq<char>>,
) -> bool {
    let c = credential_for(m, user, v.mechanism);
    &&& c is Some
    &&& server_nonce is Some
    &&& base64_len(c->0.salt.len() as int) <= isize::MAX
    &&& encode_utf8(
        server_first(client_nonce + server_nonce->0, c->0.salt, c->0.iterations),
    ).len() < 0x1_0000_0000
}

/// What a first message comes to.
pub open spec fn first_step(
    m: CredentialMap,
    v: IdentityView,
    text: Seq<char>,
    server_nonce: Option<Seq<char>>,
    w: IdentityView,
    step: AuthStep,
) -> bool {
    if exists|u: Seq<char>, n: Seq<char>, b: Seq<char>| #[trigger]
        first_message(text, u, n, b) && first_answered(m, v, u, n, server_nonce) {
        exists|u: Seq<char>, n: Seq<char>, b: Seq<char>|
            {
                let c = credential_for(m, u, v.mechanism)->0;
                let combined = n + server_nonce->0;
                let message = server_first(combined, c.salt, c.iterations);
                &&& #[trigger] first_message(text, u, n, b)
                &&& first_answered(m, v, u, n, server_nonce)
                &&& w == (IdentityView {
                    session: Some(
                        SessionView {
                            channel_bound: v.is_plus,
                            username: u,
                            mechanism: c.mechanism,
                            client_first_bare: b,
                            server_first_message: message,
                            combined_nonce: combined,
                        },
                    ),
                    ..v
                })
                &&& step matches AuthStep::Reply { response } && response@ == auth_reply(
                    0,
                    Seq::empty(),
                    encode_utf8(message),
                )
            }
    } else {
        &&& w == settled(v)
        &&& step matches AuthStep::Reply { response } && response@ == auth_failed()
    }
}

/// What a last message comes to.
pub open spec fn final_step(
    m: CredentialMap,
    v: IdentityView,
    text: Seq<char>,
    w: IdentityView,
    step: AuthStep,
) -> bool {
    match v.session {
        None => {
            &&& w == v
            &&& step matches AuthStep::Reply { response } && response@ == auth_failed()
        },
        Some(s) => {
            let c = credential_for(m, s.username, Some(s.mechanism));
            let f = final_message(text);
            if c is Some && f is Some && (f->0).nonce == s.combined_nonce {
                &&& w == v
                &&& step matches AuthStep::CheckProof {
                    credential,
                    auth_message: message,
                    proof: p,
                    channel_binding,
                    channel_bound,
                } && {
                    &&& credential@ == c->0
                    &&& message@ == auth_message(s, (f->0).without_proof)
                    &&& p@ == (f->0).proof
                    &&& channel_binding@ == (f->0).channel_binding
                    &&& channel_bound == s.channel_bound
                }
            } else {
                &&& w == settled(v)
                &&& step matches AuthStep::Reply { response } && response@ == auth_failed()
            }
        },
    }
}

/// What a user and a password come to.
pub open spec fn plain_step(
    m: CredentialMap,
    v: IdentityView,
    text: Seq<char>,
    token: Option<Seq<char>>,
    w: IdentityView,
    step: AuthStep,
) -> bool {
    let (user, password) = plain_auth(text);
    match credential_for(m, user, v.mechanism) {
        Some(c) => {
            &&& w == v
            &&& step matches AuthStep::CheckPassword {
                credential,
                username,
                password: p,
            } && credential@ == c && username@ == user && p@ == password
        },
        None => if token == Some(password) || token == Some(user) {
            &&& w == logged_in(v, user)
            &&& step matches AuthStep::Reply { response } && response@ == auth_reply(
                0,
                Seq::empty(),
                Seq::empty(),
            )
        } else {
            &&& w == settled(v)
            &&& step matches AuthStep::Reply { response } && response@ == auth_failed()
        },
    }
}

/// Whether a nonce is as the server makes them, if it made one.
pub open spec fn fresh_nonce(nonce: Option<Seq<char>>) -> bool {
    nonce is Some ==> exists|b: Seq<u8>|
        b.len() == SCRAM_SERVER_NONCE_LEN && nonce->0 == #[trigger] hex(b)
}

/// What one message of an authentication comes to. A first message of SCRAM is answered with
/// some fresh nonce.
pub open spec fn auth_taken(
    m: CredentialMap,
    v: IdentityView,
    bytes: Seq<u8>,
    token: Option<Seq<char>>,
    w: IdentityView,
    step: AuthStep,
) -> bool {
    let text = decode_utf8(bytes);
    if !valid_utf8(bytes) {
        &&& w == settled(v)
        &&& step matches AuthStep::Reply { response } && response@ == auth_failed()
    } else if client_first(text) {
        exists|nonce: Option<Seq<char>>|
            fresh_nonce(nonce) && #[trigger] first_step(m, v, text, nonce, w, step)
    } else if client_final(text) {
        final_step(m, v, text, w, step)
    } else {
        plain_step(m, v, text, token, w, step)
    }
}

impl ClientIdentity {
    /// A client that has not said who it is. One that brought the broker's token counts as a
    /// user of its own.
    pub fn new(has_token: bool) -> (r: Self)
        ensures
            r@ == (IdentityView {
                principal: if has_token {
                    "User:token_user"@
                } else {
                    anonymous()
                },
                logical_client_id: None,
                session: None,
                mechanism: None,
                is_plus: false,
            }),
    {
        ClientIdentity {
            principal: if has_token {
                owned("User:token_user")
            } else {
                owned("User:ANONYMOUS")
            },
            logical_client_id: None,
            scram_session: None,
            negotiated_mechanism: None,
            negotiated_is_plus: false,
        }
    }

    /// Chooses a mechanism. The reply lists those that are offered; there is none if their
    /// names cannot be written down.
    pub fn handshake(&mut self, offered: &Vec<String>, mechanism: &str) -> (r: Option<WireResponse>)
        ensures
            ({
                let names = text_views(offered@);
                let supported = offers(names, mechanism@);
                &&& final(self)@ == (if supported {
                    IdentityView {
                        mechanism: mechanism_named(mechanism@),
                        is_plus: is_plus(mechanism@),
                        ..old(self)@
                    }
                } else {
                    old(self)@
                })
                &&& match r {
                    Some(response) => short_texts(names) && response@ == (ResponseView::Success {
                        payload: be(
                            if supported {
                                0
                            } else {
                                UNSUPPORTED_MECHANISM as int
                            },
                            2,
                        ) + list_bytes(names),
                    }),
                    None => !short_texts(names),
                }
            }),
    {
        let ghost names = text_views(offered@);
        let mut supported: bool = false;
        let mut i: usize = 0;
        while i < offered.len()
            invariant
                i <= offered.len(),
                names == text_views(offered@),
                supported == (exists|j: int|
                    0 <= j < i && same_letters(#[trigger] names[j], mechanism@)),
            decreases offered.len() - i,
        {
            assert(names[i as int] == offered@[i as int]@);
            if same_lowered(offered[i].as_str(), mechanism) {
                supported = true;
            }
            i = i + 1;
        }
        assert(supported == offers(names, mechanism@));
        if supported {
            let (m, plus): (Option<ScramMechanism>, bool) = parse_mechanism(mechanism);
            self.negotiated_mechanism = m;
            self.negotiated_is_plus = plus;
        }
        let mut out: Vec<u8> = Vec::new();
        put_u16(
            &mut out,
            if supported {
                0
            } else {
                UNSUPPORTED_MECHANISM
            },
        );
        let ghost head = out@;
        if !put_texts(&mut out, offered.as_slice()) {
            return None;
        }
        assert(out@ =~= be(
            if supported {
                0
            } else {
                UNSUPPORTED_MECHANISM as int
            },
            2,
        ) + list_bytes(names));
        Some(WireResponse::Success { payload: out })
    }

    fn fail(&mut self) -> (r: AuthStep)
        ensures
            final(self)@ == settled(old(self)@),
            r matches AuthStep::Reply { response } && response@ == auth_failed(),
    {
        self.scram_session = None;
        AuthStep::Reply { response: failed_reply() }
    }

    /// Answers a first message, with the nonce that was made for it.
    pub fn scram_first(
        &mut self,
        store: &CredentialStore,
        text: &str,
        server_nonce: Option<String>,
    ) -> (r: AuthStep)
        requires
            store.wf(),
        ensures
            first_step(
                store@,
                old(self)@,
                text@,
                text_view(server_nonce),
                final(self)@,
                r,
            ),
    {
        let ghost v = self@;
        let ghost nonce_view = text_view(server_nonce);
        let (user, client_nonce, bare): (String, String, String) = match parse_scram_client_first(
            text,
        ) {
            Some(x) => x,
            None => {
                return self.fail();
            },
        };
        proof {
            assert(first_message(text@, user@, client_nonce@, bare@));
            assert forall|u: Seq<char>, n: Seq<char>, b: Seq<char>| #[trigger]
                first_message(text@, u, n, b) implies u == user@ && n == client_nonce@ && b
                == bare@ by {
                lemma_first_unique(text@, u, n, b, user@, client_nonce@, bare@);
            }
        }
        let credential: ScramCredential = match store.lookup_scram_credential(
            user.as_str(),
            self.negotiated_mechanism,
        ) {
            Some(c) => c,
            None => {
                return self.fail();
            },
        };
        let nonce: String = match server_nonce {
            Some(n) => n,
            None => {
                return self.fail();
            },
        };
        let salt_len: usize = credential.salt.len();
        if salt_len > isize::MAX as usize / 4 * 3 {
            return self.fail();
        }
        let mut combined: String = client_nonce;
        combined.append(nonce.as_str());
        let salt: String = base64_encode(credential.salt.as_slice());
        let rounds: String = decimal_text(credential.iterations as u64);
        let mut message: String = concat5(
            "r=",
            combined.as_str(),
            ",s=",
            salt.as_str(),
            ",i=",
        );
        message.append(rounds.as_str());
        let bytes: &[u8] = message.as_str().as_bytes();
        if bytes.len() as u64 >= 0x1_0000_0000 {
            return self.fail();
        }
        proof {
            reveal_strlit("");
            assert(""@ =~= Seq::<char>::empty());
            is_ascii_chars_encode_utf8(""@);
        }
        let response: WireResponse = build_sasl_auth_response(0, "", bytes);
        self.scram_session = Some(
            ScramSession {
                channel_bound: self.negotiated_is_plus,
                username: user,
                mechanism: credential.mechanism,
                client_first_bare: bare,
                server_first_message: message,
                combined_nonce: combined,
            },
        );
        proof {
            assert(first_answered(store@, v, user@, client_nonce@, nonce_view));
        }
        AuthStep::Reply { response }
    }

    fn scram_final(&mut self, store: &CredentialStore, text: &str) -> (r: AuthStep)
        requires
            store.wf(),
        ensures
            final_step(store@, old(self)@, text@, final(self)@, r),
    {
        let ghost v = self@;
        let found: Option<(ScramCredential, ScramClientFinal, String, bool)> = match &self.scram_session {
            None => {
                return AuthStep::Reply { response: failed_reply() };
            },
            Some(session) => match store.lookup_scram_credential(
                session.username.as_str(),
                Some(session.mechanism),
            ) {
                None => None,
                Some(credential) => match parse_scram_client_final(text) {
                    None => None,
                    Some(f) => if same_text(f.nonce.as_str(), session.combined_nonce.as_str()) {
                        let message: String = concat5(
                            session.client_first_bare.as_str(),
                            ",",
                            session.server_first_message.as_str(),
                            ",",
                            f.without_proof.as_str(),
                        );
                        Some((credential, f, message, session.channel_bound))
                    } else {
                        None
                    },
                },
            },
        };
        match found {
            None => self.fail(),
            Some((credential, f, message, channel_bound)) => AuthStep::CheckProof {
                credential,
                auth_message: message,
                proof: f.proof,
                channel_binding: f.channel_binding,
                channel_bound,
            },
        }
    }

    fn plain(&mut self, store: &CredentialStore, text: &str, auth_token: Option<&str>) -> (r:
        AuthStep)
        requires
            store.wf(),
        ensures
            plain_step(
                store@,
                old(self)@,
                text@,
                match auth_token {
                    Some(t) => Some(t@),
                    None => None,
                },
                final(self)@,
                r,
            ),
    {
        let (username, password): (String, String) = parse_plain_auth(text);
        match store.lookup_scram_credential(username.as_str(), self.negotiated_mechanism) {
            Some(credential) => {
                return AuthStep::CheckPassword { credential, username, password };
            },
            None => {},
        }
        let ok: bool = match auth_token {
            Some(t) => same_text(t, password.as_str()) || same_text(t, username.as_str()),
            None => false,
        };
        AuthStep::Reply { response: self.finish_plain(username.as_str(), ok) }
    }

    /// Takes one message of an authentication. A first message of SCRAM gets a fresh nonce.
    pub fn authenticate(
        &mut self,
        store: &CredentialStore,
        auth_bytes: Vec<u8>,
        auth_token: Option<&str>,
    ) -> (r: AuthStep)
        requires
            store.wf(),
        ensures
            auth_taken(
                store@,
                old(self)@,
                auth_bytes@,
                match auth_token {
                    Some(t) => Some(t@),
                    None => None,
                },
                final(self)@,
                r,
            ),
    {
        let text: String = match text_from_utf8(auth_bytes) {
            Some(s) => s,
            None => {
                return self.fail();
            },
        };
        if is_scram_client_first(text.as_str()) {
            let nonce: Option<String> = generate_scram_server_nonce();
            let ghost view = text_view(nonce);
            let ghost v = self@;
            let r: AuthStep = self.scram_first(store, text.as_str(), nonce);
            assert(first_step(store@, v, text@, view, self@, r));
            return r;
        }
        if is_scram_client_final(text.as_str()) {
            return self.scram_final(store, text.as_str());
        }
        self.plain(store, text.as_str(), auth_token)
    }

    /// Ends a SCRAM exchange. `verified` says whether the channel binding and the proof hold.
    pub fn finish_scram(&mut self, verified: bool, server_final: &str) -> (r: WireResponse)
        requires
            encode_utf8(server_final@).len() < 0x1_0000_0000,
        ensures
            match old(self)@.session {
                Some(s) if verified => {
                    &&& final(self)@ == logged_in(old(self)@, s.username)
                    &&& r@ == auth_reply(0, Seq::empty(), encode_utf8(server_final@))
                },
                _ => {
                    &&& final(self)@ == settled(old(self)@)
                    &&& r@ == auth_failed()
                },
            },
    {
        let user: Option<String> = match &self.scram_session {
            Some(s) => if verified {
                Some(owned(s.username.as_str()))
            } else {
                None
            },
            None => None,
        };
        self.scram_session = None;
        match user {
            Some(u) => {
                let mut principal: String = owned("User:");
                principal.append(u.as_str());
                self.principal = principal;
                proof {
                    reveal_strlit("");
                    assert(""@ =~= Seq::<char>::empty());
                    is_ascii_chars_encode_utf8(""@);
                }
                build_sasl_auth_response(0, "", server_final.as_bytes())
            },
            None => failed_reply(),
        }
    }

    /// Ends an authentication by password. `verified` says whether the password is right.
    pub fn finish_plain(&mut self, username: &str, verified: bool) -> (r: WireResponse)
        ensures
            if verified {
                &&& final(self)@ == logged_in(old(self)@, username@)
                &&& r@ == auth_reply(0, Seq::empty(), Seq::empty())
            } else {
                &&& final(self)@ == settled(old(self)@)
                &&& r@ == auth_failed()
            },
    {
        self.scram_session = None;
        if !verified {
            return failed_reply();
        }
        let mut principal: String = owned("User:");
        principal.append(username);
        self.principal = principal;
        let none: Vec<u8> = Vec::new();
        proof {
            reveal_strlit("");
            assert(""@ =~= Seq::<char>::empty());
            is_ascii_chars_encode_utf8(""@);
            assert(none@ =~= Seq::empty());
        }
        build_sasl_auth_response(0, "", none.as_slice())
    }

    /// Takes the name that a client gives itself.
    pub fn set_client_id(&mut self, client_id: &str) -> (r: WireResponse)
        ensures
            if 0 < encode_utf8(client_id@).len() <= MAX_CLIENT_ID_LEN {
                &&& final(self)@ == (IdentityView {
                    logical_client_id: Some(client_id@),
                    ..old(self)@
                })
                &&& r@ == (ResponseView::Success { payload: Seq::empty() })
            } else {
                &&& final(self)@ == old(self)@
                &&& r@ == (ResponseView::Failure { message: "Invalid client_id"@ })
            },
    {
        let n: usize = client_id.as_bytes().len();
        if n == 0 || n > MAX_CLIENT_ID_LEN {
            return WireResponse::Failure { message: owned("Invalid client_id") };
        }
        self.logical_client_id = Some(owned(client_id));
        let none: Vec<u8> = Vec::new();
        assert(none@ =~= Seq::empty());
        WireResponse::Success { payload: none }
    }
}

proof fn lemma_first_unique(
    s: Seq<char>,
    u: Seq<char>,
    n: Seq<char>,
    b: Seq<char>,
    u2: Seq<char>,
    n2: Seq<char>,
    b2: Seq<char>,
)
    requires
        first_message(s, u, n, b),
        first_message(s, u2, n2, b2),
    ensures
        u == u2,
        n == n2,
        b == b2,
{
    let i = choose|i: int|
        {
            &&& #[trigger] stands_at(s, "n="@, i)
            &&& forall|j: int| 0 <= j < i ==> !stands_at(s, "n="@, j)
            &&& b == s.skip(i)
            &&& last_with(pieces(b, ','), "n="@) == Some(u)
            &&& last_with(pieces(b, ','), "r="@) == Some(n)
        };
    let k = choose|k: int|
        {
            &&& #[trigger] stands_at(s, "n="@, k)
            &&& forall|j: int| 0 <= j < k ==> !stands_at(s, "n="@, j)
            &&& b2 == s.skip(k)
            &&& last_with(pieces(b2, ','), "n="@) == Some(u2)
            &&& last_with(pieces(b2, ','), "r="@) == Some(n2)
        };
    assert(i == k) by {
        if i < k {
            assert(!stands_at(s, "n="@, i));
        }
        if k < i {
            assert(!stands_at(s, "n="@, k));
        }
    }
}

/// No single message makes an anonymous client a known user by SCRAM: the principal changes only
/// where a password or a proof was checked, or where the broker's token was given.
pub proof fn nobody_is_let_in_unchecked(
    m: CredentialMap,
    v: IdentityView,
    text: Seq<char>,
    nonce: Option<Seq<char>>,
    token: Option<Seq<char>>,
    w: IdentityView,
    step: AuthStep,
)
    requires
        first_step(m, v, text, nonce, w, step) || final_step(m, v, text, w, step) || plain_step(
            m,
            v,
            text,
            token,
            w,
            step,
        ),
        w.principal != v.principal,
    ensures
        plain_step(m, v, text, token, w, step),
        credential_for(m, plain_auth(text).0, v.mechanism) is None,
        token == Some(plain_auth(text).1) || token == Some(plain_auth(text).0),
{
}

/// An exchange for a channel-binding mechanism is marked as such, so its proof is checked with
/// the binding.
pub proof fn plus_means_bound(
    m: CredentialMap,
    v: IdentityView,
    text: Seq<char>,
    nonce: Option<Seq<char>>,
    w: IdentityView,
    step: AuthStep,
)
    requires
        first_step(m, v, text, nonce, w, step),
        w.session is Some,
    ensures
        (w.session->0).channel_bound == v.is_plus,
{
}

} // verus!
