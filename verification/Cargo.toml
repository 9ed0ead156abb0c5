[package]
name = "wasm_dispatch"
version = "0.1.0"
edition = "2021"
publish = false

[dependencies]
bitvec = "1"
bytes = "1"
hecs = "0.10"
slotmap = "1"
smallvec = "1"
hashbrown = "0.15"
spin = "0.9"
log = "0.4"
env_logger = "0.11"
thiserror = "2"
tokio = { version = "1", features = ["full"] }
axum = "0.8"
tower-http = { version = "0.6", features = ["fs", "cors"] }

[dev-dependencies]
bincode = "2"
