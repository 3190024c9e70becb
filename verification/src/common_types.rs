//! Shared data model: logins, roles, credentials, and the hash values the
//! external hashing service produces from (pepper, salt, plaintext).

use vstd::prelude::*;

verus! {

/// Unique identifier of a user account.
pub type Login = String;

/// A role tag carried by a user; a user holds a set of them.
pub type Role = String;

/// Per-record salt handed to the hashing service.
pub type Salt = String;

/// Deployment-wide secret mixed into every hash, distinct from the salt.
pub type Pepper = String;

pub struct Header {}

pub struct Payload {}

pub struct Signature {}

pub struct JWT {
    pub header: Header,
    pub payload: Payload,
    pub signature: Signature,
}

/// A refresh token as received from a client; only its hash is ever stored.
pub struct RefreshToken {
    token: String,
}

impl View for RefreshToken {
    type V = Seq<char>;

    closed spec fn view(&self) -> Seq<char> {
        self.token@
    }
}

impl RefreshToken {
    pub fn new(token: String) -> (r: Self)
        ensures
            r@ == token@,
    {
        RefreshToken { token }
    }
}

/// The PHC string that the external hashing service computes from a pepper, a
/// salt and a plaintext. It depends on those three arguments alone.
pub uninterp spec fn phc_hash_of(pepper: Seq<char>, salt: Seq<char>, plaintext: Seq<char>) -> Seq<
    char,
>;

/// Relies on `argon2::Argon2::hash_password_with_salt` (reached through
/// `password_hash::PasswordHasher`), run with the `Algorithm`, `Version` and
/// `Params` defaults and the pepper as the keyed secret: the PHC string it
/// produces is a function of the pepper, the salt and the plaintext alone.
/// Construction or hashing may refuse an input (pepper too long, salt length
/// out of range); every such refusal comes back as `None`.
#[verifier::external_body]
fn argon2_phc(pepper: &str, salt: &str, plaintext: &str) -> (r: Option<String>)
    ensures
        r matches Some(h) ==> h@ == phc_hash_of(pepper@, salt@, plaintext@),
{
    let ctx = argon2::Argon2::new_with_secret(
        pepper.as_bytes(),
        argon2::Algorithm::default(),
        argon2::Version::default(),
        argon2::Params::default(),
    ).ok()?;
    let hash = password_hash::PasswordHasher::hash_password_with_salt(
        &ctx,
        plaintext.as_bytes(),
        salt.as_bytes(),
    ).ok()?;
    Some(hash.to_string())
}

/// Hash of a refresh token. Storing the token itself next to the password
/// hash would be as bad as storing the password in plaintext, so only this
/// value is ever kept. Compared by equality only; never reversed.
#[derive(Debug)]
pub struct RefreshTokenHash {
    phc: String,
}

impl View for RefreshTokenHash {
    type V = Seq<char>;

    closed spec fn view(&self) -> Seq<char> {
        self.phc@
    }
}

impl RefreshTokenHash {
    /// Hash a refresh token. `None` when the hashing service refuses the
    /// inputs (for example a salt whose length is out of range).
    pub fn new(salt: &Salt, pepper: &Pepper, token: &RefreshToken) -> (r: Option<Self>)
        ensures
            r matches Some(h) ==> h@ == phc_hash_of(pepper@, salt@, token@),
    {
        match argon2_phc(pepper.as_str(), salt.as_str(), token.token.as_str()) {
            Some(h) => Some(RefreshTokenHash { phc: h }),
            None => None,
        }
    }

    /// Wrap an already-computed PHC string.
    pub fn from_phc(phc: String) -> (r: Self)
        ensures
            r@ == phc@,
    {
        RefreshTokenHash { phc }
    }

    pub fn equals(&self, other: &Self) -> (r: bool)
        ensures
            r == (self@ == other@),
    {
        self.phc == other.phc
    }

    /// The PHC string this hash wraps.
    pub fn phc_string(&self) -> (r: &String)
        ensures
            r@ == self@,
    {
        &self.phc
    }
}

impl Clone for RefreshTokenHash {
    fn clone(&self) -> (r: Self)
        ensures
            r@ == self@,
    {
        RefreshTokenHash { phc: self.phc.clone() }
    }
}

/// Hash of a password. Compared by equality only; never reversed.
pub struct PasswordHash {
    phc: String,
}

impl View for PasswordHash {
    type V = Seq<char>;

    closed spec fn view(&self) -> Seq<char> {
        self.phc@
    }
}

impl PasswordHash {
    /// Hash a password. `None` when the hashing service refuses the inputs
    /// (for example a salt whose length is out of range).
    pub fn new(salt: &Salt, pepper: &Pepper, pass: &str) -> (r: Option<Self>)
        ensures
            r matches Some(h) ==> h@ == phc_hash_of(pepper@, salt@, pass@),
    {
        match argon2_phc(pepper.as_str(), salt.as_str(), pass) {
            Some(h) => Some(PasswordHash { phc: h }),
            None => None,
        }
    }

    /// Wrap an already-computed PHC string.
    pub fn from_phc(phc: String) -> (r: Self)
        ensures
            r@ == phc@,
    {
        PasswordHash { phc }
    }

    pub fn equals(&self, other: &Self) -> (r: bool)
        ensures
            r == (self@ == other@),
    {
        self.phc == other.phc
    }

    /// The PHC string this hash wraps.
    pub fn phc_string(&self) -> (r: &String)
        ensures
            r@ == self@,
    {
        &self.phc
    }
}

impl Clone for PasswordHash {
    fn clone(&self) -> (r: Self)
        ensures
            r@ == self@,
    {
        PasswordHash { phc: self.phc.clone() }
    }
}

pub ghost struct PasswordV {
    pub salt: Seq<char>,
    pub hash: Seq<char>,
}

/// A salted password hash: the salt that was used and the resulting hash.
pub struct Password {
    pub salt: Salt,
    pub hash: PasswordHash,
}

impl View for Password {
    type V = PasswordV;

    open spec fn view(&self) -> PasswordV {
        PasswordV { salt: self.salt@, hash: self.hash@ }
    }
}

impl Password {
    pub fn equals(&self, other: &Self) -> (r: bool)
        ensures
            r == (self@ == other@),
    {
        self.salt == other.salt && self.hash.equals(&other.hash)
    }
}

impl Clone for Password {
    fn clone(&self) -> (r: Self)
        ensures
            r@ == self@,
    {
        Password { salt: self.salt.clone(), hash: self.hash.clone() }
    }
}

pub ghost struct CredentialsV {
    pub login: Seq<char>,
    pub pass: PasswordV,
}

/// A login together with its salted password hash.
pub struct UserCredentials {
    pub login: Login,
    pub pass: Password,
}

impl View for UserCredentials {
    type V = CredentialsV;

    open spec fn view(&self) -> CredentialsV {
        CredentialsV { login: self.login@, pass: self.pass@ }
    }
}

impl Clone for UserCredentials {
    fn clone(&self) -> (r: Self)
        ensures
            r@ == self@,
    {
        UserCredentials { login: self.login.clone(), pass: self.pass.clone() }
    }
}

pub ghost struct UserDataV {
    pub credentials: CredentialsV,
    pub roles: Set<Seq<char>>,
}

/// Everything stored about one user: credentials plus a role set. The roles
/// live in a vector that never holds the same role twice, so it stands for a
/// set (its view collapses to one).
pub struct UserData {
    pub credentials: UserCredentials,
    pub roles: Vec<Role>,
}

impl View for UserData {
    type V = UserDataV;

    open spec fn view(&self) -> UserDataV {
        UserDataV { credentials: self.credentials@, roles: self.roles.deep_view().to_set() }
    }
}

impl UserData {
    /// The role vector holds no role twice.
    pub open spec fn wf(&self) -> bool {
        forall|i: int, j: int|
            0 <= i < j < self.roles.deep_view().len() ==> self.roles.deep_view()[i]
                != self.roles.deep_view()[j]
    }

    /// A fresh user record with no roles.
    pub fn new(credentials: UserCredentials) -> (r: Self)
        ensures
            r@.credentials == credentials@,
            r@.roles == Set::<Seq<char>>::empty(),
            r.wf(),
    {
        let roles: Vec<Role> = Vec::new();
        let r = UserData { credentials, roles };
        proof {
            assert(r@.roles =~= Set::<Seq<char>>::empty());
        }
        r
    }
}

impl Clone for UserData {
    fn clone(&self) -> (r: Self)
        ensures
            r@ == self@,
            r.roles.deep_view() == self.roles.deep_view(),
    {
        let roles = self.roles.clone();
        proof {
            assert(roles.deep_view() =~= self.roles.deep_view()) by {
                broadcast use vstd::std_specs::vec::vec_clone_deep_view_proof;

                assert forall|i: int| 0 <= i < self.roles@.len() implies roles.deep_view()[i]
                    == self.roles.deep_view()[i] by {
                    assert(cloned::<Role>(self.roles[i], roles[i]));
                }
            }
        }
        UserData { credentials: self.credentials.clone(), roles }
    }
}

} // verus!
