//! The test harness: deterministic content, generated cases, and the rules of the mock servers that
//! the cache is tried against.
pub mod content;
pub mod differ;
pub mod loadgen;
pub mod mockcdn;
pub mod mockdns;
