//! Where bytes come from when they are not in the cache.
pub mod client;
pub mod guard;
pub mod resolver;
