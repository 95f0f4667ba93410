[package]
name = "cachic"
version = "0.1.0"
edition = "2021"
publish = false

[dependencies]
anyhow = "1"
arc-swap = "1"
async-stream = "0.3"
axum = { version = "0.8", default-features = false, features = ["http1", "tokio", "query", "json"] }
blake3 = { version = "1", features = ["pure"] }
bytes = "1"
clap = { version = "4", features = ["derive", "env"] }
dashmap = "6"
foyer = "*"
futures-util = "0.3"
hickory-resolver = { version = "*", default-features = false, features = ["tokio"] }
http-body-util = "0.1"
hyper = { version = "1", features = ["http1", "server", "client"] }
hyper-util = { version = "0.1", features = ["tokio", "server", "http1"] }
libc = "0.2"
mixtrics = { version = "*", features = ["prometheus_0_14"] }
prometheus = { version = "0.14", default-features = false }
redb = "*"
regex = "1"
reqwest = { version = "0.12", default-features = false, features = ["stream", "rustls-tls"] }
serde = { version = "1", features = ["derive"] }
serde_json = "1"
thiserror = "2"
tokio = { version = "1", features = ["full"] }
toml = "*"
tracing = "0.1"
tracing-subscriber = { version = "0.3", features = ["env-filter", "json"] }
xxhash-rust = { version = "0.8", features = ["xxh3"] }
