//! The verified core of a caching proxy for game and update downloads.
//!
//! Everything here is pure decision making: what a request means, which slices answer it, how a
//! slice is laid out on disk, when something may be reused and when it must be refused. Sockets,
//! files, clocks and threads live in the program around the library.
pub mod text;
pub mod upstream;
pub mod wire;

pub mod admin;
pub mod config;
pub mod orchestrator;
pub mod proxy;
pub mod services;
pub mod sni;
pub mod spike;
pub mod startup;
pub mod store;
pub mod telemetry;
pub mod testkit;
