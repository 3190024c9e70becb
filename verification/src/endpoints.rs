//! Data carried by the HTTP endpoints. The endpoints themselves (routing,
//! JSON extraction, response formatting) are thin glue outside the core and
//! live with the surrounding application; only their payload types are here.

pub mod user_auth;
pub mod user_create;
