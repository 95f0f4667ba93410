//! Which service a request belongs to, and under which key its object is stored.
pub mod defaults;
pub mod domains;
pub mod key;
pub mod matcher;
pub mod refresh;
