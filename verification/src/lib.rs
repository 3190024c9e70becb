//! The asynchronous storage-dispatch core of an authentication backend.
//!
//! A capability contract ([`storage::Storage`]) names the operations every
//! storage backend implements; a single-owner dispatcher
//! ([`dispatcher::Dispatcher`]) holds the backend state exclusively and
//! applies requests in strict arrival order; and a one-shot result cell
//! ([`result_cell::ResultCell`]) carries each outcome from that owner to the
//! caller that awaits it, set exactly once and never losing a wakeup.
//!
//! Every operation is pinned to a step function on a mathematical model of
//! the store (a map from login to user record, plus the set of valid
//! refresh-token hashes), so the subsystem's ordering and delivery
//! guarantees are stated and proved rather than assumed.

pub mod common_types;
pub mod dispatcher;
pub mod endpoints;
pub mod result_cell;
pub mod storage;
