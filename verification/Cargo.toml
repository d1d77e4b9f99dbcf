[package]
name = "shard_builder"
version = "0.1.0"
edition = "2021"
publish = false

[dependencies]
anyhow = "=1.0.104"
arrow = { version = "=60.1.0", default-features = false }
clap = { version = "=4.6.7", features = ["derive"] }
env_logger = "=0.11.11"
fs-err = "=3.3.2"
half = "=2.7.1"
indicatif = "=0.18.6"
log = "=0.4.35"
parquet = { version = "=60.1.0", default-features = false, features = ["arrow", "snap", "zstd"] }
rand = "0.9"
reqwest = { version = "=0.12.28", default-features = false, features = ["blocking", "json"] }
serde = { version = "=1.0.229", features = ["derive"] }
serde_cbor = "=0.11.2"
serde_json = { version = "=1.0.154", features = ["preserve_order"] }
sha2 = "=0.10.9"
uuid = { version = "=1.29.0", features = ["v4", "v5", "serde"] }
validator = "0.20"
