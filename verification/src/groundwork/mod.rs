//! Groundwork: the catalogue of deployables and services, and the graph
//! queries over it.

pub mod graph;
pub mod catalog;
pub mod tools;
