//! Core of an anonymous store-and-forward message relay ("dead-drop mailbox").
//!
//! A party creates a mailbox, hands out revocable write capabilities
//! (deposit tokens), other parties deposit opaque blobs, and the owner
//! retrieves them with a read capability (poll token) through tamper-proof
//! pagination cursors, then acknowledges what it has consumed. No raw
//! capability is ever stored: only keyed one-way digests. The durable
//! store is modelled here as an in-memory table set with the invariants
//! the service relies on (uniqueness, ordering, expiry); the HTTP layer
//! around this crate maps requests onto the plain data structures below.

pub mod api;
pub mod auth;
pub mod b64;
pub mod config;
pub mod crypto;
pub mod cursor;
pub mod errors;
pub mod laws;
pub mod store;
pub mod support;
