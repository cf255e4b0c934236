[package]
name = "madgrid"
version = "0.1.0"
edition = "2021"
publish = false

[dependencies]
h3o = "*"
chrono = "*"
anyhow = "*"
serde = { version = "*", features = ["derive"] }
serde_json = "*"
csv = "*"
futures = "*"
tokio = { version = "*", features = ["rt-multi-thread", "macros", "time", "fs", "io-util", "sync", "net", "signal"] }
reqwest = { version = "*", default-features = false, features = ["json"] }
axum = "*"
