//! Edge plumbing: who the caller is (trusted identity headers, a demo
//! fallback, or a verified Access identity) and which responses the
//! read-through cache may keep.

pub mod access;
pub mod identity;
pub mod cache;
