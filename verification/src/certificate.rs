//! The certificates that a broker is known by, and its key.
use crate::text::{owned, text_views};
use rustls::pki_types::PrivateKeyDer;
use vstd::prelude::*;

verus! {

/// What `rustls_pemfile::certs` finds in a PEM file: the DER bytes of each certificate, in order,
/// and nothing in the place of a section that cannot be read.
pub uninterp spec fn pem_certificates(pem: Seq<u8>) -> Seq<Option<Seq<u8>>>;

/// Certificates, as values.
pub open spec fn der_views(s: Seq<Option<Vec<u8>>>) -> Seq<Option<Seq<u8>>> {
    s.map_values(
        |c: Option<Vec<u8>>|
            match c {
                Some(der) => Some(der@),
                None => None,
            },
    )
}

/// `rustls_pemfile::certs` lists the certificates of a PEM file, which depends on the bytes alone.
/// Which they are is left unsaid.
#[verifier::external_body]
fn certificates_in(pem: &[u8]) -> (r: Vec<Option<Vec<u8>>>)
    ensures
        der_views(r@) == pem_certificates(pem@),
{
    let mut rest = pem;
    rustls_pemfile::certs(&mut rest).map(|c| c.ok().map(|der| der.to_vec())).collect()
}

/// The first of the certificates in a PEM file, which is the one that peers bind to. None if
/// there is none, or if something before its end cannot be read; what follows does not matter.
pub fn leaf_certificate(pem: &[u8]) -> (r: Option<Vec<u8>>)
    ensures
        match r {
            Some(der) => pem_certificates(pem@).len() > 0 && pem_certificates(pem@)[0] == Some(der@),
            None => pem_certificates(pem@).len() == 0 || pem_certificates(pem@)[0] is None,
        },
{
    let certificates: Vec<Option<Vec<u8>>> = certificates_in(pem);
    assert(der_views(certificates@).len() == certificates@.len());
    leaf_of(certificates)
}

/// The first of some certificates, if there is one and it can be read.
pub fn leaf_of(certificates: Vec<Option<Vec<u8>>>) -> (r: Option<Vec<u8>>)
    ensures
        r == (if certificates@.len() > 0 {
            certificates@[0]
        } else {
            None
        }),
{
    let mut all: Vec<Option<Vec<u8>>> = certificates;
    if all.len() == 0 {
        None
    } else {
        all.remove(0)
    }
}

/// The certificates in a PEM file, in order. None if one of them cannot be read.
pub fn certificate_chain(pem: &[u8]) -> (r: Option<Vec<Vec<u8>>>)
    ensures
        match r {
            Some(ders) => ders@.len() == pem_certificates(pem@).len() && forall|i: int|
                0 <= i < ders@.len() ==> pem_certificates(pem@)[i] == Some((#[trigger] ders@[i])@),
            None => exists|i: int|
                0 <= i < pem_certificates(pem@).len() && #[trigger] pem_certificates(
                    pem@,
                )[i] is None,
        },
{
    let certificates: Vec<Option<Vec<u8>>> = certificates_in(pem);
    let ghost all = certificates@;
    assert(der_views(all).len() == all.len());
    assert forall|i: int| 0 <= i < all.len() implies pem_certificates(pem@)[i] == (match all[i] {
        Some(der) => Some(der@),
        None => None,
    }) by {
        assert(der_views(all)[i] == pem_certificates(pem@)[i]);
    }
    let r: Option<Vec<Vec<u8>>> = chain_of(certificates);
    proof {
        if r is None {
            let i = choose|i: int| 0 <= i < all.len() && #[trigger] all[i] is None;
            assert(pem_certificates(pem@)[i] is None);
        }
    }
    r
}

/// All of some certificates, in order, if every one can be read.
pub fn chain_of(certificates: Vec<Option<Vec<u8>>>) -> (r: Option<Vec<Vec<u8>>>)
    ensures
        match r {
            Some(ders) => ders@.len() == certificates@.len() && forall|i: int|
                0 <= i < ders@.len() ==> certificates@[i] == Some(#[trigger] ders@[i]),
            None => exists|i: int|
                0 <= i < certificates@.len() && #[trigger] certificates@[i] is None,
        },
{
    let ghost all = certificates@;
    let mut left: Vec<Option<Vec<u8>>> = certificates;
    let mut ders: Vec<Vec<u8>> = Vec::new();
    while left.len() > 0
        invariant
            all == certificates@,
            left@.len() + ders@.len() == all.len(),
            left@ == all.skip(ders@.len() as int),
            forall|i: int| 0 <= i < ders@.len() ==> all[i] == Some(#[trigger] ders@[i]),
        decreases left@.len(),
    {
        let ghost n = ders@.len() as int;
        assert(left@[0] == all[n]);
        match left.remove(0) {
            Some(der) => ders.push(der),
            None => {
                assert(all[n] is None);
                return None;
            },
        }
        assert(left@ =~= all.skip(n + 1));
    }
    Some(ders)
}

/// How a private key is written down.
#[derive(Debug, Clone, Copy, PartialEq, Eq, Structural)]
pub enum KeyForm {
    Pkcs1,
    Sec1,
    Pkcs8,
}

/// What `rustls_pemfile::private_key` finds in a PEM file: the first private key, its form and
/// its DER bytes, if there is one, and an error if something before its end cannot be read.
pub uninterp spec fn pem_private_key(pem: Seq<u8>) -> Result<Option<(KeyForm, Seq<u8>)>, ()>;

/// A private key, as a value.
pub open spec fn key_view(r: Result<Option<(KeyForm, Vec<u8>)>, ()>) -> Result<
    Option<(KeyForm, Seq<u8>)>,
    (),
> {
    match r {
        Ok(Some((form, der))) => Ok(Some((form, der@))),
        Ok(None) => Ok(None),
        Err(e) => Err(e),
    }
}

/// `rustls_pemfile::private_key` finds the first private key of a PEM file, which depends on the
/// bytes alone. Which it is, is left unsaid.
#[verifier::external_body]
fn private_key_in(pem: &[u8]) -> (r: Result<Option<(KeyForm, Vec<u8>)>, ()>)
    ensures
        key_view(r) == pem_private_key(pem@),
{
    let mut rest = pem;
    match rustls_pemfile::private_key(&mut rest) {
        Ok(Some(PrivateKeyDer::Pkcs1(k))) => Ok(Some((KeyForm::Pkcs1, k.secret_pkcs1_der().to_vec()))),
        Ok(Some(PrivateKeyDer::Sec1(k))) => Ok(Some((KeyForm::Sec1, k.secret_sec1_der().to_vec()))),
        Ok(Some(PrivateKeyDer::Pkcs8(k))) => Ok(Some((KeyForm::Pkcs8, k.secret_pkcs8_der().to_vec()))),
        Ok(Some(_)) => Err(()),
        Ok(None) => Ok(None),
        Err(_) => Err(()),
    }
}

/// Why a key file is of no use.
#[derive(Debug, Clone, Copy, PartialEq, Eq, Structural)]
pub enum KeyFault {
    /// There is no private key in it.
    Missing,
    /// Something in it cannot be read.
    Unreadable,
}

/// The private key in a PEM file: the first one.
pub fn server_key(pem: &[u8]) -> (r: Result<(KeyForm, Vec<u8>), KeyFault>)
    ensures
        match pem_private_key(pem@) {
            Ok(Some((form, der))) => r matches Ok(key) && key.0 == form && key.1@ == der,
            Ok(None) => r == Err::<(KeyForm, Vec<u8>), KeyFault>(KeyFault::Missing),
            Err(_) => r == Err::<(KeyForm, Vec<u8>), KeyFault>(KeyFault::Unreadable),
        },
{
    key_of(private_key_in(pem))
}

/// A key that was looked for, if it was found.
pub fn key_of(found: Result<Option<(KeyForm, Vec<u8>)>, ()>) -> (r: Result<
    (KeyForm, Vec<u8>),
    KeyFault,
>)
    ensures
        r == (match found {
            Ok(Some(key)) => Ok::<(KeyForm, Vec<u8>), KeyFault>(key),
            Ok(None) => Err(KeyFault::Missing),
            Err(_) => Err(KeyFault::Unreadable),
        }),
{
    match found {
        Ok(Some(key)) => Ok(key),
        Ok(None) => Err(KeyFault::Missing),
        Err(_) => Err(KeyFault::Unreadable),
    }
}

/// What a server shows and signs with: its certificates, and its key.
#[derive(Debug)]
pub struct ServerIdentity {
    pub chain: Vec<Vec<u8>>,
    pub form: KeyForm,
    pub key: Vec<u8>,
}

/// The names that a server certifies itself under.
pub open spec fn own_names() -> Seq<Seq<char>> {
    seq!["localhost"@, "127.0.0.1"@]
}

/// `rcgen::generate_simple_self_signed` makes a key, and a certificate for the given names that is
/// signed with it, or fails. The key is random, so nothing is said of the DER bytes of either: the
/// certificate's come first.
#[verifier::external_body]
fn self_signed(names: Vec<String>) -> (r: Result<(Vec<u8>, Vec<u8>), String>) {
    match rcgen::generate_simple_self_signed(names) {
        Ok(made) => Ok((made.cert.der().to_vec(), made.key_pair.serialize_der())),
        Err(e) => Err(e.to_string()),
    }
}

/// The names for which a server makes its own certificate.
pub fn self_signed_names() -> (r: Vec<String>)
    ensures
        text_views(r@) == own_names(),
{
    let mut names: Vec<String> = Vec::new();
    names.push(owned("localhost"));
    names.push(owned("127.0.0.1"));
    assert(text_views(names@) =~= own_names());
    names
}

/// The identity of a server that was given none: a certificate of its own making.
pub fn made_up_identity() -> (r: Result<ServerIdentity, String>)
    ensures
        r matches Ok(identity) ==> identity.chain@.len() == 1 && identity.form is Pkcs8,
{
    identity_of(self_signed(self_signed_names()))
}

/// The identity that a certificate and its key make up, if they could be made.
pub fn identity_of(made: Result<(Vec<u8>, Vec<u8>), String>) -> (r: Result<ServerIdentity, String>)
    ensures
        match made {
            Ok((der, key)) => r matches Ok(identity) && identity.chain@ == seq![der] && identity.form
                is Pkcs8 && identity.key == key,
            Err(e) => r == Err::<ServerIdentity, String>(e),
        },
{
    match made {
        Ok((der, key)) => {
            let mut chain: Vec<Vec<u8>> = Vec::new();
            chain.push(der);
            assert(chain@ =~= seq![der]);
            Ok(ServerIdentity { chain, form: KeyForm::Pkcs8, key })
        },
        Err(e) => Err(e),
    }
}

} // verus!
