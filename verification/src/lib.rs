//! A verified core for a real-time chat relay.
//!
//! Clients join named rooms over persistent connections; a message sent by
//! one member is fanned out to the other live members of the same room.
//! This crate holds the room membership registry, the broadcast hub with its
//! bounded per-connection outboxes, the per-connection session state machine,
//! and the persisted room directory and user store. Transport, HTTP routing
//! and actor plumbing live outside the library and drive it through plain
//! values.

pub mod directory;
pub mod hub;
pub mod message;
pub mod query;
pub mod registry;
pub mod session;
pub mod users;
