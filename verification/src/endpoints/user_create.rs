use vstd::prelude::*;

verus! {

/// Payload of a registration request: a login and the plaintext password,
/// already extracted from the transport by the surrounding application.
pub struct CreateUserData {
    pub username: String,
    pub password: String,
}

} // verus!
