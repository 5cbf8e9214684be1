[package]
name = "source_ballchasing"
version = "0.1.0"
edition = "2021"
publish = false

[dependencies]
anyhow = "1"
governor = "0.6"
reqwest = { version = "0.11", default-features = false, features = ["json", "rustls-tls"] }
schemars = "0.8"
serde = { version = "1", features = ["derive"] }
serde_json = "1"
time = { version = "0.3", features = ["serde-well-known"] }
tokio = { version = "1", features = ["io-std", "io-util", "macros", "rt-multi-thread"] }
tracing = "0.1"
