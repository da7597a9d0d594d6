[package]
name = "irys_actors"
version = "0.1.0"
edition = "2021"
publish = false

[dependencies]
actix = "*"
async-trait = "*"
base58 = "*"
dashmap = "*"
eyre = "*"
futures = "*"
lru = "*"
openssl = "*"
opentelemetry = "*"
reqwest = { version = "*", default-features = false, features = ["json"] }
serde = { version = "*", features = ["derive"] }
serde_json = "*"
thiserror = "*"
tokio = { version = "*", features = ["sync", "rt", "time", "macros"] }
tracing = "*"
