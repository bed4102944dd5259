[package]
name = "taodb"
version = "0.1.0"
edition = "2021"
publish = false

[dependencies]
crc32fast = "1"
rand = "0.9"
anyhow = "1"
axum = "0.7"
bincode = "1"
chrono = "0.4"
clap = { version = "4", features = ["derive"] }
parking_lot = "0.12"
redb = "*"
rmcp = { version = "*", features = ["server", "transport-io"] }
serde = { version = "1", features = ["derive"] }
serde_json = "1"
tokio = { version = "1", features = ["rt-multi-thread", "macros", "net", "io-std"] }
ulid = { version = "1", features = ["serde"] }
