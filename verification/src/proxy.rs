//! The client-facing side: ranges, headers, limits and the answers they lead to.
pub mod headers;
pub mod heartbeat;
pub mod limits;
pub mod range;
pub mod server;
pub mod shutdown;
