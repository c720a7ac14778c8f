//! Lobby: the advisory tier. A snapshot of the federated graph feeds a set of
//! derivation rules; the engine reconciles their output with the advisories
//! already on record.

pub mod snapshot;
pub mod rules;
pub mod scc;
pub mod engine;
pub mod seed;
pub mod lifecycle;
pub mod laws;
