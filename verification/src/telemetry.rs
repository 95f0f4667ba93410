//! What is told about the running cache: the access log, the metrics and the levels.
pub mod logs;
pub mod metrics;
pub mod sampler;
