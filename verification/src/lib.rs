//! A rendezvous and liveness registry for ephemeral relay nodes.
//!
//! Relay servers register under a caller identity, prove liveness with
//! periodic heartbeats, accumulate a reputation score, and are matched to
//! requesting clients by name. The registry is a plain value: every operation
//! is a transition on it, stated against the mathematical model in [`model`].

pub mod model;
pub mod registry;
pub mod laws;
