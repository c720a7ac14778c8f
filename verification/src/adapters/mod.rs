//! The integration adapters' own logic: pagination, escaping, status
//! mapping, timestamps, URL encoding and the upserts each importer makes.
//! Their HTTP traffic stays outside.

pub mod common;
pub mod github;
pub mod gitlab;
pub mod okta;
pub mod importers;
