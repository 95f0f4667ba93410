//! TLS pass-through: the name is read out of the hello, and the bytes are spliced.
pub mod clienthello;
pub mod proxy;
