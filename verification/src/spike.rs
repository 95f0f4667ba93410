//! A prototype of the cached path, for measurements.
//!
//! One origin, no services, no keys but the request path, and no recovery: a change of the object
//! fails the request.
pub mod proxy;
pub mod store;
