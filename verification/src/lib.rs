//! Core of a text-broadcast relay: the connection registry, the ban
//! policy that gates admission, the per-connection read-loop decisions,
//! and the redaction rule for printed addresses. All state transitions
//! are pure functions on plain values; the transport I/O around them
//! lives outside this crate.

pub mod address;
pub mod ban;
pub mod handler;
pub mod laws;
pub mod registry;
pub mod sensitive;
