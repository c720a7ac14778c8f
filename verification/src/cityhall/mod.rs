//! Cityhall: org hierarchy, governance bylaws, deployment plans and their
//! Gantt rendering.

pub mod bylaw;
pub mod plan;
pub mod gantt;
pub mod inputs;
pub mod tools;
