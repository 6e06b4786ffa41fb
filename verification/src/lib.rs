//! A small anonymous message board core: pseudonymous identities with
//! one-way tripcodes, a URL-safe text form for digests, a two-level
//! post/reply hierarchy with its canonical queries, and the policy that
//! decides between eager and deferred reply loading.

pub mod board;
pub mod codec;
pub mod error;
pub mod policy;
pub mod poster;
pub mod tripcode;
