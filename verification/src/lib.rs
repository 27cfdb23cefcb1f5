//! World-state replication: an entity-component world with per-slot content
//! versions, a diff engine computing and applying minimal world diffs, a
//! replication filter deciding per-peer visibility, an incremental stream
//! producer, and the pure parts of the client connection protocol.

#![verifier::loop_isolation(false)]

pub mod component;
pub mod diff;
pub mod filter;
pub mod framing;
pub mod ids;
pub mod laws;
pub mod model;
pub mod naming;
pub mod pacing;
pub mod proto;
pub mod stream;
pub mod world;
