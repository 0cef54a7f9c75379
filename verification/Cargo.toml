[package]
name = "dasl"
version = "0.1.0"
edition = "2021"
publish = false

[dependencies]
sha2 = "=0.10.9"
blake3 = "=1.8.7"
serde = { version = "=1.0.229", features = ["derive"] }
serde_bytes = "=0.11.19"
thiserror = "=2.0.21"
