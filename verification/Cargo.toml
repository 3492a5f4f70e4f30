[package]
name = "jib"
version = "0.1.0"
edition = "2021"
publish = false

[dependencies]
bincode = "=1.3.3"
serde = { version = "1", features = ["derive"] }
solana-sdk = "=1.16.27"
solana-transaction-status = "=1.16.27"
thiserror = "1"
tracing = "0.1"
