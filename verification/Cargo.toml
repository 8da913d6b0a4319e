[package]
name = "rust_mq"
version = "0.1.0"
edition = "2021"
publish = false

[dependencies]
anyhow = "1"
async-trait = "0.1"
bincode = "=1.3.3"
bytes = "=1.12.1"
clap = { version = "4", features = ["derive"] }
crossbeam-queue = "=0.3.14"
env_logger = "0.11"
log = "0.4"
prost = "=0.11.9"
protobuf = "=2.28.0"
raft = { version = "=0.6.0", default-features = false, features = ["prost-codec"] }
serde = { version = "1", features = ["derive"] }
serde_json = "1"
serde_yaml = "0.9"
sled = "0.34"
slog = "2"
thiserror = "1"
tokio = { version = "1", features = ["full"] }
tonic = "=0.9.2"
