[package]
name = "cache_core"
version = "0.4.0"
edition = "2021"
publish = false

[dependencies]
anyhow = "1"
arc-swap = "1"
async-trait = "0.1"
axum = "0.8"
dashmap = "6"
futures-util = "0.3"
hex = "0.4"
rmcp = { version = "1", features = ["client", "server", "transport-streamable-http-client-reqwest", "transport-streamable-http-server"] }
serde = { version = "1", features = ["derive"] }
serde_json = "1"
sha2 = "0.10"
sysinfo = "0.32"
thiserror = "2"
tokio = { version = "1", features = ["full"] }
toml = "0.8"
tracing = "0.1"
