use vstd::prelude::*;

verus! {

/// Payload of an authentication request: a login and the plaintext password,
/// already extracted from the transport by the surrounding application.
pub struct AuthUserData {
    pub username: String,
    pub password: String,
}

} // verus!
