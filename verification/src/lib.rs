//! A caching, partially-authoritative DNS resolver library.
//!
//! The crate provides a bit-exact codec for the DNS wire format (header,
//! question, resource record and whole message, with name compression on
//! decode), an authoritative zone store, a domain blocklist, a TTL-bounded
//! answer cache, and the query-resolution pipeline that dispatches across
//! them.

pub mod answer;
pub mod authority;
pub mod blocklist;
pub mod cache;
pub mod client;
pub mod header;
pub mod packet;
pub mod query;
pub mod record;
pub mod resolvers;
pub mod serialization;
