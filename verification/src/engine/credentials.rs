//! The SCRAM credentials of the users.
use crate::keys::{name_numbered, numbered_key, numbered_key_is_injective};
use crate::name_map::NameMap;
use crate::text::owned;
use vstd::prelude::*;
use vstd::slice::*;

verus! {

/// The hash that a credential is made with.
#[derive(Debug, Clone, Copy, PartialEq, Eq, Structural)]
pub enum ScramMechanism {
    Sha256,
    Sha512,
}

impl ScramMechanism {
    pub open spec fn number(self) -> nat {
        match self {
            ScramMechanism::Sha256 => 1,
            ScramMechanism::Sha512 => 2,
        }
    }

    fn code(self) -> (r: u64)
        ensures
            r == self.number(),
    {
        match self {
            ScramMechanism::Sha256 => 1,
            ScramMechanism::Sha512 => 2,
        }
    }
}

/// A user's credential under one mechanism.
pub struct ScramCredential {
    pub username: String,
    pub mechanism: ScramMechanism,
    pub iterations: u32,
    pub salt: Vec<u8>,
    pub stored_key: Vec<u8>,
    pub server_key: Vec<u8>,
}

/// A credential, as values.
pub struct CredentialView {
    pub username: Seq<char>,
    pub mechanism: ScramMechanism,
    pub iterations: u32,
    pub salt: Seq<u8>,
    pub stored_key: Seq<u8>,
    pub server_key: Seq<u8>,
}

impl ScramCredential {
    pub open spec fn view(self) -> CredentialView {
        CredentialView {
            username: self.username@,
            mechanism: self.mechanism,
            iterations: self.iterations,
            salt: self.salt@,
            stored_key: self.stored_key@,
            server_key: self.server_key@,
        }
    }

    /// A copy of the credential.
    pub fn copy(&self) -> (r: ScramCredential)
        ensures
            r@ == self@,
    {
        ScramCredential {
            username: owned(self.username.as_str()),
            mechanism: self.mechanism,
            iterations: self.iterations,
            salt: slice_to_vec(self.salt.as_slice()),
            stored_key: slice_to_vec(self.stored_key.as_slice()),
            server_key: slice_to_vec(self.server_key.as_slice()),
        }
    }
}

/// The name under which a credential is kept.
pub open spec fn credential_name(user: Seq<char>, mechanism: ScramMechanism) -> Seq<char> {
    numbered_key(mechanism.number(), user)
}

/// The credentials by user and mechanism.
pub type CredentialMap = Map<(Seq<char>, ScramMechanism), CredentialView>;

/// All credentials. A user may hold one under each mechanism.
pub struct CredentialStore {
    pub credentials: NameMap<ScramCredential>,
}

/// The credential by which a user is checked: that of the mechanism, if one is given, else the
/// strongest that the user has.
pub open spec fn credential_for(
    m: CredentialMap,
    user: Seq<char>,
    mechanism: Option<ScramMechanism>,
) -> Option<CredentialView> {
    match mechanism {
        Some(x) => if m.contains_key((user, x)) {
            Some(m[(user, x)])
        } else {
            None
        },
        None => if m.contains_key((user, ScramMechanism::Sha512)) {
            Some(m[(user, ScramMechanism::Sha512)])
        } else if m.contains_key((user, ScramMechanism::Sha256)) {
            Some(m[(user, ScramMechanism::Sha256)])
        } else {
            None
        },
    }
}

/// Whether the user has a credential under any mechanism.
pub open spec fn known_user(m: CredentialMap, user: Seq<char>) -> bool {
    exists|x: ScramMechanism| #[trigger] m.contains_key((user, x))
}

impl CredentialStore {
    pub open spec fn wf(self) -> bool {
        &&& self.credentials.wf()
        &&& forall|k: Seq<char>| #[trigger]
            self.credentials@.contains_key(k) ==> k == credential_name(
                self.credentials@[k].username@,
                self.credentials@[k].mechanism,
            )
    }

    pub open spec fn view(self) -> CredentialMap {
        Map::new(
            |k: (Seq<char>, ScramMechanism)|
                self.credentials@.contains_key(credential_name(k.0, k.1)),
            |k: (Seq<char>, ScramMechanism)| self.credentials@[credential_name(k.0, k.1)]@,
        )
    }

    pub fn new() -> (r: Self)
        ensures
            r.wf(),
            r@ == CredentialMap::empty(),
    {
        let r = CredentialStore { credentials: NameMap::new() };
        assert(r@ =~= CredentialMap::empty());
        r
    }

    proof fn lemma_names(user: Seq<char>, mechanism: ScramMechanism)
        ensures
            forall|k: (Seq<char>, ScramMechanism)|
                credential_name(k.0, k.1) == credential_name(user, mechanism) ==> k == (
                    user,
                    mechanism,
                ),
    {
        assert forall|k: (Seq<char>, ScramMechanism)|
            credential_name(k.0, k.1) == credential_name(user, mechanism) implies k == (
            user,
            mechanism,
        ) by {
            numbered_key_is_injective(k.1.number(), k.0, mechanism.number(), user);
        }
    }

    /// Gives a user a credential, in place of the one under the same mechanism.
    pub fn apply_scram_credential_state(&mut self, credential: ScramCredential)
        requires
            old(self).wf(),
        ensures
            final(self).wf(),
            final(self)@ == old(self)@.insert(
                (credential.username@, credential.mechanism),
                credential@,
            ),
    {
        let name: String = name_numbered(credential.mechanism.code(), credential.username.as_str());
        self.credentials.insert(name, credential);
        proof {
            Self::lemma_names(credential.username@, credential.mechanism);
            assert(self@ =~= old(self)@.insert(
                (credential.username@, credential.mechanism),
                credential@,
            ));
        }
    }

    fn remove_one(&mut self, username: &str, mechanism: ScramMechanism)
        requires
            old(self).wf(),
        ensures
            final(self).wf(),
            final(self)@ == old(self)@.remove((username@, mechanism)),
    {
        let name: String = name_numbered(mechanism.code(), username);
        let _ = self.credentials.remove(name.as_str());
        proof {
            Self::lemma_names(username@, mechanism);
            assert(self@ =~= old(self)@.remove((username@, mechanism)));
        }
    }

    /// Takes all credentials of a user out.
    pub fn remove_scram_credential_state(&mut self, username: &str)
        requires
            old(self).wf(),
        ensures
            final(self).wf(),
            !known_user(final(self)@, username@),
            final(self)@ == old(self)@.remove((username@, ScramMechanism::Sha256)).remove(
                (username@, ScramMechanism::Sha512),
            ),
    {
        self.remove_one(username, ScramMechanism::Sha256);
        self.remove_one(username, ScramMechanism::Sha512);
    }

    fn get(&self, username: &str, mechanism: ScramMechanism) -> (r: Option<ScramCredential>)
        requires
            self.wf(),
        ensures
            match r {
                Some(c) => self@.contains_key((username@, mechanism)) && c@ == self@[(
                    username@,
                    mechanism,
                )],
                None => !self@.contains_key((username@, mechanism)),
            },
    {
        let name: String = name_numbered(mechanism.code(), username);
        match self.credentials.get(name.as_str()) {
            Some(c) => Some(c.copy()),
            None => None,
        }
    }

    /// The credential by which a user is checked.
    pub fn lookup_scram_credential(
        &self,
        username: &str,
        mechanism: Option<ScramMechanism>,
    ) -> (r: Option<ScramCredential>)
        requires
            self.wf(),
        ensures
            match r {
                Some(c) => credential_for(self@, username@, mechanism) == Some(c@),
                None => credential_for(self@, username@, mechanism) is None,
            },
    {
        match mechanism {
            Some(m) => self.get(username, m),
            None => match self.get(username, ScramMechanism::Sha512) {
                Some(c) => Some(c),
                None => self.get(username, ScramMechanism::Sha256),
            },
        }
    }

    /// Whether a user has a credential under any mechanism.
    pub fn has_scram_user(&self, username: &str) -> (r: bool)
        requires
            self.wf(),
        ensures
            r == known_user(self@, username@),
    {
        let r: bool = self.lookup_scram_credential(username, None).is_some();
        proof {
            if r {
                assert(self@.contains_key((username@, ScramMechanism::Sha512))
                    || self@.contains_key((username@, ScramMechanism::Sha256)));
            } else {
                assert forall|x: ScramMechanism| !#[trigger] self@.contains_key((username@, x)) by {
                    match x {
                        ScramMechanism::Sha256 => {},
                        ScramMechanism::Sha512 => {},
                    }
                }
            }
        }
        r
    }

    /// The mechanisms under which a user has a credential, the strongest first.
    pub fn scram_user_mechanisms(&self, username: &str) -> (r: Vec<ScramMechanism>)
        requires
            self.wf(),
        ensures
            r@ == (if self@.contains_key((username@, ScramMechanism::Sha512)) {
                seq![ScramMechanism::Sha512]
            } else {
                seq![]
            }) + (if self@.contains_key((username@, ScramMechanism::Sha256)) {
                seq![ScramMechanism::Sha256]
            } else {
                seq![]
            }),
    {
        let mut out: Vec<ScramMechanism> = Vec::new();
        if self.get(username, ScramMechanism::Sha512).is_some() {
            out.push(ScramMechanism::Sha512);
        }
        if self.get(username, ScramMechanism::Sha256).is_some() {
            out.push(ScramMechanism::Sha256);
        }
        assert(out@ =~= (if self@.contains_key((username@, ScramMechanism::Sha512)) {
            seq![ScramMechanism::Sha512]
        } else {
            seq![]
        }) + (if self@.contains_key((username@, ScramMechanism::Sha256)) {
            seq![ScramMechanism::Sha256]
        } else {
            seq![]
        }));
        out
    }
}

} // verus!
