//! How clients show who they are.
use crate::engine::credentials::{credential_for, CredentialMap, ScramMechanism};
use crate::ip_laws::{lemma_one_more, lemma_whole};
use crate::sasl::{
    anonymous, auth_taken, final_step, final_with, first_message, first_step, hex, hex_digit,
    is_plus, joined, last_with, mechanism_named, nonempty, plain_auth, plain_step, quota_key,
    server_first, unproved, AuthStep, FinalView, IdentityView,
};
use crate::text::{has_text, lowered, pieces, stands_at};
use vstd::prelude::*;
use vstd::utf8::*;

verus! {

/// A user and a password with a NUL before each read as themselves.
pub proof fn a_user_and_a_password_are_read_back(user: Seq<char>, password: Seq<char>)
    requires
        user.len() > 0,
        password.len() > 0,
        !user.contains('\0'),
        !password.contains('\0'),
    ensures
        plain_auth(seq!['\0'] + user + seq!['\0'] + password) == (user, password),
{
    let empty: Seq<char> = Seq::empty();
    let s = seq!['\0'] + user + seq!['\0'] + password;
    lemma_whole(empty, '\0');
    lemma_one_more(empty, user, '\0');
    lemma_one_more(empty + seq!['\0'] + user, password, '\0');
    assert(empty + seq!['\0'] + user + seq!['\0'] + password =~= s);
    let parts = pieces(s, '\0');
    assert(parts =~= seq![empty, user, password]);
    assert(parts.drop_last() =~= seq![empty, user]);
    assert(parts.drop_last().drop_last() =~= seq![empty]);
    assert(parts.drop_last().drop_last().drop_last() =~= Seq::empty());
    assert(nonempty(parts.drop_last().drop_last().drop_last()) =~= Seq::empty());
    assert(nonempty(parts.drop_last().drop_last()) =~= Seq::empty());
    assert(nonempty(parts.drop_last()) =~= seq![user]);
    assert(nonempty(parts) =~= seq![user, password]);
}

/// A user and a password with a colon between them read as themselves, where there is no NUL.
pub proof fn a_colon_parts_user_and_password(user: Seq<char>, password: Seq<char>)
    requires
        !user.contains(':'),
        !(user + seq![':'] + password).contains('\0'),
    ensures
        plain_auth(user + seq![':'] + password) == (user, password),
{
    let s = user + seq![':'] + password;
    let k = user.len() as int;
    lemma_whole(s, '\0');
    let parts = pieces(s, '\0');
    assert(parts.drop_last() =~= Seq::empty());
    assert(nonempty(parts.drop_last()) =~= Seq::empty());
    assert(nonempty(parts).len() <= 1);
    assert(s[k] == ':');
    assert(s.contains(':'));
    s.index_of_first_ensures(':');
    let i = s.index_of_first(':')->0;
    if i < k {
        assert(user[i] == ':');
        assert(user.contains(':'));
    }
    assert(i == k);
    assert(s.take(k) =~= user);
    assert(s.skip(k + 1) =~= password);
}

/// The last part with a letter counts, and what stands behind the letter is its value.
pub proof fn the_last_part_with_a_letter_counts(
    parts: Seq<Seq<char>>,
    prefix: Seq<char>,
    value: Seq<char>,
    i: int,
)
    requires
        0 <= i < parts.len(),
        parts[i] == prefix + value,
        forall|j: int| i < j < parts.len() ==> !stands_at(#[trigger] parts[j], prefix, 0),
    ensures
        last_with(parts, prefix) == Some(value),
    decreases parts.len(),
{
    let n = parts.len() - 1;
    if i == n {
        let p = parts.last();
        assert(p.subrange(0, prefix.len() as int) =~= prefix);
        assert(p.skip(prefix.len() as int) =~= value);
    } else {
        assert(!stands_at(parts[n], prefix, 0));
        let less = parts.drop_last();
        assert(less[i] == parts[i]);
        assert forall|j: int| i < j < less.len() implies !stands_at(
            #[trigger] less[j],
            prefix,
            0,
        ) by {
            assert(!stands_at(parts[j], prefix, 0));
        }
        the_last_part_with_a_letter_counts(less, prefix, value, i);
    }
}

proof fn lemma_letter(a: char, t: Seq<char>, prefix: Seq<char>)
    requires
        prefix.len() == 2,
        prefix[0] != a,
    ensures
        !stands_at(seq![a, '='] + t, prefix, 0),
{
    let s = seq![a, '='] + t;
    if stands_at(s, prefix, 0) {
        assert(s.subrange(0, 2)[0] == s[0]);
    }
}

proof fn lemma_no_comma(a: char, t: Seq<char>)
    requires
        a != ',',
        !t.contains(','),
    ensures
        !(seq![a, '='] + t).contains(','),
{
    let s = seq![a, '='] + t;
    if s.contains(',') {
        let k = choose|k: int| 0 <= k < s.len() && s[k] == ',';
        if k >= 2 {
            assert(t[k - 2] == ',');
        }
    }
}

/// A first message names the user and the nonce that the client wrote, and signs both.
pub proof fn a_first_message_is_read_back(user: Seq<char>, nonce: Seq<char>)
    requires
        !user.contains(','),
        !nonce.contains(','),
    ensures
        ({
            let bare = seq!['n', '='] + user + seq![','] + (seq!['r', '='] + nonce);
            &&& first_message(bare, user, nonce, bare)
            &&& first_message(seq!['n', ',', ','] + bare, user, nonce, bare)
        }),
{
    reveal_strlit("n=");
    reveal_strlit("r=");
    assert("n="@ =~= seq!['n', '=']);
    assert("r="@ =~= seq!['r', '=']);
    let x = seq!['n', '='] + user;
    let y = seq!['r', '='] + nonce;
    let bare = x + seq![','] + y;
    lemma_no_comma('n', user);
    lemma_no_comma('r', nonce);
    lemma_whole(x, ',');
    lemma_one_more(x, y, ',');
    let parts = pieces(bare, ',');
    assert(parts =~= seq![x, y]);
    lemma_letter('r', nonce, "n="@);
    the_last_part_with_a_letter_counts(parts, "n="@, user, 0);
    the_last_part_with_a_letter_counts(parts, "r="@, nonce, 1);
    assert(bare.subrange(0, 2) =~= "n="@);
    assert(stands_at(bare, "n="@, 0));
    assert(bare.skip(0) =~= bare);
    assert(first_message(bare, user, nonce, bare));
    let s = seq!['n', ',', ','] + bare;
    assert(s.subrange(3, 5) =~= "n="@);
    assert(stands_at(s, "n="@, 3));
    assert(s.skip(3) =~= bare);
    assert forall|j: int| 0 <= j < 3 implies !stands_at(s, "n="@, j) by {
        if stands_at(s, "n="@, j) {
            assert(s.subrange(j, j + 2)[0] == s[j]);
            assert(s.subrange(j, j + 2)[1] == s[j + 1]);
        }
    }
}

/// A last message gives the channel binding and the nonce that the client wrote; these two, and
/// nothing else of it, are what the proof signs.
pub proof fn a_last_message_is_read_back(
    binding: Seq<char>,
    nonce: Seq<char>,
    proof_text: Seq<char>,
    decoded: Seq<u8>,
)
    requires
        !binding.contains(','),
        !nonce.contains(','),
        !proof_text.contains(','),
    ensures
        ({
            let signed = seq!['c', '='] + binding + seq![','] + (seq!['r', '='] + nonce);
            let s = signed + seq![','] + (seq!['p', '='] + proof_text);
            &&& last_with(pieces(s, ','), "p="@) == Some(proof_text)
            &&& final_with(s, Some(decoded)) == Some(
                FinalView {
                    nonce,
                    proof: decoded,
                    without_proof: signed,
                    channel_binding: binding,
                },
            )
            &&& final_with(s, None) is None
        }),
{
    reveal_strlit("c=");
    reveal_strlit("r=");
    reveal_strlit("p=");
    reveal_strlit(",");
    assert("c="@ =~= seq!['c', '=']);
    assert("r="@ =~= seq!['r', '=']);
    assert("p="@ =~= seq!['p', '=']);
    assert(","@ =~= seq![',']);
    let x = seq!['c', '='] + binding;
    let y = seq!['r', '='] + nonce;
    let z = seq!['p', '='] + proof_text;
    let signed = x + seq![','] + y;
    let s = signed + seq![','] + z;
    lemma_no_comma('c', binding);
    lemma_no_comma('r', nonce);
    lemma_no_comma('p', proof_text);
    lemma_whole(x, ',');
    lemma_one_more(x, y, ',');
    lemma_one_more(signed, z, ',');
    let parts = pieces(s, ',');
    assert(parts =~= seq![x, y, z]);
    lemma_letter('r', nonce, "c="@);
    lemma_letter('p', proof_text, "c="@);
    lemma_letter('p', proof_text, "r="@);
    lemma_letter('c', binding, "r="@);
    the_last_part_with_a_letter_counts(parts, "c="@, binding, 0);
    the_last_part_with_a_letter_counts(parts, "r="@, nonce, 1);
    the_last_part_with_a_letter_counts(parts, "p="@, proof_text, 2);
    assert(x.subrange(0, 2) =~= "c="@);
    assert(y.subrange(0, 2) =~= "r="@);
    let two = parts.drop_last();
    assert(two =~= seq![x, y]);
    let one = two.drop_last();
    assert(one =~= seq![x]);
    assert(one.drop_last() =~= Seq::empty());
    assert(unproved(one.drop_last()) =~= Seq::empty());
    assert(unproved(one) =~= seq![x]);
    assert(unproved(two) =~= seq![x, y]);
    assert(unproved(parts) =~= seq![x, y]);
    assert(joined(one) == x);
    assert(joined(two) =~= signed);
}

/// An exchange carries on with the nonces of both sides: the client's in front, the server's
/// behind it. The client is told both, with the salt and the rounds of the user's own credential.
pub proof fn an_exchange_has_both_nonces(
    m: CredentialMap,
    v: IdentityView,
    text: Seq<char>,
    server_nonce: Seq<char>,
    w: IdentityView,
    step: AuthStep,
)
    requires
        first_step(m, v, text, Some(server_nonce), w, step),
        w.session is Some,
    ensures
        exists|u: Seq<char>, n: Seq<char>, b: Seq<char>|
            {
                &&& #[trigger] first_message(text, u, n, b)
                &&& (w.session->0).username == u
                &&& (w.session->0).client_first_bare == b
                &&& (w.session->0).combined_nonce == n + server_nonce
                &&& credential_for(m, u, v.mechanism) is Some
                &&& (w.session->0).mechanism == (credential_for(m, u, v.mechanism)->0).mechanism
                &&& (w.session->0).server_first_message == server_first(
                    n + server_nonce,
                    (credential_for(m, u, v.mechanism)->0).salt,
                    (credential_for(m, u, v.mechanism)->0).iterations,
                )
            },
        w.principal == v.principal,
{
}

/// A proof is checked only in an exchange that is under way, if the message repeats the nonce of
/// that exchange, and against the credential of the user who began it. What is signed is the
/// exchange's first messages and the last one without the proof.
pub proof fn a_proof_belongs_to_its_exchange(
    m: CredentialMap,
    v: IdentityView,
    text: Seq<char>,
    w: IdentityView,
    step: AuthStep,
)
    requires
        final_step(m, v, text, w, step),
        step is CheckProof,
    ensures
        v.session is Some,
        w == v,
        ({
            let s = v.session->0;
            let f = crate::sasl::final_message(text)->0;
            &&& f.nonce == s.combined_nonce
            &&& m.contains_key((s.username, s.mechanism))
            &&& step->CheckProof_credential@ == m[(s.username, s.mechanism)]
            &&& step->CheckProof_proof@ == f.proof
            &&& step->CheckProof_channel_bound == s.channel_bound
            &&& step->CheckProof_channel_binding@ == f.channel_binding
            &&& step->CheckProof_auth_message@ == s.client_first_bare + seq![',']
                + s.server_first_message + seq![','] + f.without_proof
        }),
{
    reveal_strlit(",");
    assert(","@ =~= seq![',']);
}

/// A last message that repeats another nonce, or comes without an exchange, is refused, and ends
/// the exchange.
pub proof fn another_nonce_is_refused(
    m: CredentialMap,
    v: IdentityView,
    text: Seq<char>,
    w: IdentityView,
    step: AuthStep,
)
    requires
        final_step(m, v, text, w, step),
        v.session is None || crate::sasl::final_message(text) is None || (
        crate::sasl::final_message(text)->0).nonce != (v.session->0).combined_nonce,
    ensures
        step is Reply,
        w.session is None,
        w.principal == v.principal,
{
}

/// A password is checked against the credential of the user whom it comes with.
pub proof fn a_password_belongs_to_its_user(
    m: CredentialMap,
    v: IdentityView,
    text: Seq<char>,
    token: Option<Seq<char>>,
    w: IdentityView,
    step: AuthStep,
    mechanism: ScramMechanism,
)
    requires
        plain_step(m, v, text, token, w, step),
        v.mechanism == Some(mechanism),
    ensures
        m.contains_key((plain_auth(text).0, mechanism)) ==> (step matches AuthStep::CheckPassword {
            credential,
            username,
            password,
        } && credential@ == m[(plain_auth(text).0, mechanism)] && username@ == plain_auth(text).0
            && password@ == plain_auth(text).1) && w == v,
        !m.contains_key((plain_auth(text).0, mechanism)) && (token is None || (token->0
            != plain_auth(text).1 && token->0 != plain_auth(text).0)) ==> step is Reply
            && w.principal == v.principal,
{
}

/// A user is checked by the mechanism that was agreed on, and else by the stronger one that there
/// is a credential for.
pub proof fn the_stronger_credential_is_taken(
    m: CredentialMap,
    user: Seq<char>,
    mechanism: ScramMechanism,
)
    ensures
        credential_for(m, user, Some(mechanism)) is Some <==> m.contains_key((user, mechanism)),
        m.contains_key((user, mechanism)) ==> credential_for(m, user, Some(mechanism)) == Some(
            m[(user, mechanism)],
        ),
        m.contains_key((user, ScramMechanism::Sha512)) ==> credential_for(m, user, None) == Some(
            m[(user, ScramMechanism::Sha512)],
        ),
        !m.contains_key((user, ScramMechanism::Sha512)) && m.contains_key(
            (user, ScramMechanism::Sha256),
        ) ==> credential_for(m, user, None) == Some(m[(user, ScramMechanism::Sha256)]),
        !m.contains_key((user, ScramMechanism::Sha512)) && !m.contains_key(
            (user, ScramMechanism::Sha256),
        ) ==> credential_for(m, user, None) is None,
{
}

/// Mechanisms go by their names, with or without channel binding, in whatever letters.
pub proof fn mechanisms_go_by_their_names(name: Seq<char>)
    ensures
        lowered(name) == lowered("SCRAM-SHA-256"@) ==> mechanism_named(name) == Some(
            ScramMechanism::Sha256,
        ),
        lowered(name) == lowered("SCRAM-SHA-256-PLUS"@) ==> mechanism_named(name) == Some(
            ScramMechanism::Sha256,
        ) && is_plus(name),
        lowered(name) == lowered("SCRAM-SHA-512-PLUS"@) ==> is_plus(name) && mechanism_named(
            name,
        ) is Some,
        is_plus(name) ==> lowered(name) == lowered("SCRAM-SHA-256-PLUS"@) || lowered(name)
            == lowered("SCRAM-SHA-512-PLUS"@),
        lowered(name) == lowered("SCRAM-SHA-512"@) ==> mechanism_named(name) == Some(
            ScramMechanism::Sha512,
        ),
        lowered(name) == lowered("SCRAM-SHA-512-PLUS"@) ==> mechanism_named(name) == Some(
            ScramMechanism::Sha512,
        ),
{
    reveal_strlit("SCRAM-SHA-256");
    reveal_strlit("SCRAM-SHA-512");
    reveal_strlit("SCRAM-SHA-256-PLUS");
    reveal_strlit("SCRAM-SHA-512-PLUS");
    assert(lowered("SCRAM-SHA-256"@)[10] == '2');
    assert(lowered("SCRAM-SHA-256-PLUS"@)[10] == '2');
    assert(lowered("SCRAM-SHA-512"@)[10] == '5');
    assert(lowered("SCRAM-SHA-512-PLUS"@)[10] == '5');
}

/// Each client of a principal is limited by itself, and so is each principal under one client
/// name. A client without either is limited by its address.
pub proof fn clients_are_limited_apart(
    principal: Seq<char>,
    other: Seq<char>,
    a: Seq<char>,
    b: Seq<char>,
    fallback: Seq<char>,
)
    ensures
        a != b ==> quota_key(principal, Some(a), fallback) != quota_key(
            principal,
            Some(b),
            fallback,
        ),
        principal != other && principal != anonymous() && other != anonymous() ==> quota_key(
            principal,
            Some(a),
            fallback,
        ) != quota_key(other, Some(a), fallback),
        principal != anonymous() ==> quota_key(principal, None, fallback) == principal,
        quota_key(anonymous(), None, fallback) == fallback,
        principal != anonymous() ==> quota_key(principal, Some(a), fallback) != quota_key(
            principal,
            None,
            fallback,
        ),
{
    reveal_strlit("|client:");
    reveal_strlit("client:");
    let known = principal != anonymous();
    let pre = if known {
        principal + "|client:"@
    } else {
        "client:"@
    };
    let n = pre.len() as int;
    assert(quota_key(principal, Some(a), fallback) =~= pre + a);
    assert(quota_key(principal, Some(b), fallback) =~= pre + b);
    if pre + a == pre + b {
        assert((pre + a).skip(n) =~= a);
        assert((pre + b).skip(n) =~= b);
    }
    if known && other != anonymous() {
        let x = principal + "|client:"@ + a;
        let y = other + "|client:"@ + a;
        if x == y {
            assert(x.len() == principal.len() + 8 + a.len());
            assert(y.len() == other.len() + 8 + a.len());
            let k = principal.len() as int;
            assert(x.take(k) =~= principal);
            assert(y.take(k) =~= other);
        }
        assert((principal + "|client:"@ + a).len() > principal.len());
    }
    if known {
        assert(quota_key(principal, Some(a), fallback).len() > principal.len());
    }
}

/// Every byte shows as two digits, the higher half first.
pub proof fn every_byte_shows_as_two_digits(bytes: Seq<u8>, i: int)
    requires
        0 <= i < bytes.len(),
    ensures
        hex(bytes).len() == 2 * bytes.len(),
        hex(bytes)[2 * i] == hex_digit(bytes[i] as int / 16),
        hex(bytes)[2 * i + 1] == hex_digit(bytes[i] as int % 16),
    decreases bytes.len(),
{
    if bytes.len() > 1 {
        let less = bytes.drop_last();
        if i < less.len() {
            every_byte_shows_as_two_digits(less, i);
        } else {
            every_byte_shows_as_two_digits(less, 0);
        }
    } else {
        assert(bytes.drop_last() =~= Seq::empty());
        assert(hex(bytes.drop_last()) =~= Seq::empty());
    }
}

/// A hexadecimal digit is one of sixteen characters, each for one value.
pub proof fn a_digit_stands_for_one_value(a: int, b: int)
    requires
        0 <= a < 16,
        0 <= b < 16,
    ensures
        hex_digit(a) == hex_digit(b) ==> a == b,
        a < 10 ==> '0' <= hex_digit(a) <= '9',
        a >= 10 ==> 'a' <= hex_digit(a) <= 'f',
{
}

/// Where a user has no credential, the broker's token lets it in under its name, given as the
/// password or as the user.
pub proof fn the_token_lets_a_user_in(
    m: CredentialMap,
    v: IdentityView,
    text: Seq<char>,
    token: Seq<char>,
    w: IdentityView,
    step: AuthStep,
)
    requires
        plain_step(m, v, text, Some(token), w, step),
        credential_for(m, plain_auth(text).0, v.mechanism) is None,
        token == plain_auth(text).1 || token == plain_auth(text).0,
    ensures
        w.principal == "User:"@ + plain_auth(text).0,
        w.session is None,
        w.logical_client_id == v.logical_client_id,
        step is Reply,
{
}

/// A message is taken for what it says: one that names a user and a nonce but no proof begins an
/// exchange, one with a channel binding, a nonce and a proof ends one, and any other holds a user
/// and a password. What is no text is refused.
pub proof fn a_message_is_taken_for_what_it_says(
    m: CredentialMap,
    v: IdentityView,
    bytes: Seq<u8>,
    token: Option<Seq<char>>,
    w: IdentityView,
    step: AuthStep,
)
    requires
        auth_taken(m, v, bytes, token, w, step),
    ensures
        ({
            let text = decode_utf8(bytes);
            let names = has_text(text, "n="@);
            let nonce = has_text(text, "r="@);
            let proves = has_text(text, "p="@);
            let binds = has_text(text, "c="@);
            &&& !valid_utf8(bytes) ==> step is Reply && w.principal == v.principal && w.session
                is None
            &&& valid_utf8(bytes) && names && nonce && !proves ==> exists|
                n: Option<Seq<char>>,
            | #[trigger] first_step(m, v, text, n, w, step)
            &&& valid_utf8(bytes) && binds && nonce && proves ==> final_step(m, v, text, w, step)
            &&& valid_utf8(bytes) && !nonce ==> plain_step(m, v, text, token, w, step)
        }),
{
}

} // verus!
