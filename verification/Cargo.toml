[package]
name = "delia"
version = "0.1.0"
edition = "2021"
publish = false

[dependencies]
sha2 = "=0.10.9"
multiaddr = "=0.18.2"
libp2p = { version = "*", features = ["tokio", "macros", "tcp", "noise", "yamux", "kad", "identify", "request-response", "cbor"] }
tokio = { version = "*", features = ["full"] }
axum = "*"
tower-http = { version = "*", features = ["cors", "fs", "trace"] }
futures = "*"
anyhow = "*"
clap = { version = "*", features = ["derive"] }
serde = { version = "*", features = ["derive"] }
tracing = "*"
tracing-subscriber = { version = "*", features = ["env-filter"] }
