[package]
name = "vidmesh"
version = "0.1.0"
edition = "2021"
publish = false

[dependencies]
blake3 = "1"
ed25519-dalek = "2"
getrandom = "0.2"
serde = { version = "1", features = ["derive"] }
serde_json = "1"
anyhow = "1"
tokio = { version = "1", features = ["rt-multi-thread", "macros", "net", "fs", "io-util", "sync", "time", "signal"] }
axum = { version = "0.7", features = ["ws"] }
futures-util = "0.3"
tempfile = "3"
tracing = "0.1"
tracing-subscriber = { version = "0.3", features = ["env-filter"] }
tokio-tungstenite = "0.21"
rusqlite = { version = "0.31", features = ["bundled"] }
