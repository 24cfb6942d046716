[package]
name = "collection"
version = "0.1.0"
edition = "2021"
publish = false

[dependencies]
semver = "=1.0.28"
tonic = "=0.8.3"
protobuf = "=2.28.0"
raft = "=0.7.0"
tokio = { version = "=1.54.1", features = ["full"] }
futures = "=0.3.34"
async-trait = "=0.1.92"
serde = { version = "=1.0.229", features = ["derive"] }
serde_json = "=1.0.154"
serde_cbor = "=0.11.2"
chrono = "=0.4.45"
tar = "=0.4.46"
log = "=0.4.34"
parking_lot = "=0.12.5"
thiserror = "=1.0.69"
