use vstd::prelude::*;

pub mod text;
pub mod json;
pub mod lobby;
pub mod cityhall;
pub mod adapters;
pub mod groundwork;
pub mod edge;
pub mod union;
pub mod ui;

verus! {
} // verus!
