//! Union: people, teams and their work — the rollups across entity lists.

pub mod rollups;
pub mod tools;
