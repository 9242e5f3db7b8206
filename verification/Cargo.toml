[package]
name = "bitstream"
version = "0.1.0"
edition = "2021"
publish = false

[dependencies]
blake3 = { version = "1", features = ["pure"] }
ed25519-dalek = { version = "2", features = ["rand_core"] }
raptorq = "2"
rand = "0.9"
rand_chacha = "0.9"
rand_core = "0.6"
serde = { version = "1", features = ["derive"] }
serde_json = "1"
anyhow = "1"
thiserror = "1"
hex = "0.4"
toml = "0.8"
bytes = "1"
tracing = "0.1"
tokio = { version = "1", features = ["process", "io-util", "sync", "rt", "macros"] }
