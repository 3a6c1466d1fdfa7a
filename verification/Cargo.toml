[package]
name = "gravity_state"
version = "0.1.0"
edition = "2021"
publish = false

[dependencies]
alloy-primitives = "=1.7.3"
alloy-rlp = { version = "=0.3.17", features = ["arrayvec"] }
alloy-trie = { version = "=0.9.9", features = ["ethereum"] }
nybbles = "=0.4.9"
once_cell = "1"
parking_lot = "0.12"
metrics = "=0.24.6"
thiserror = "2"
tokio = { version = "1", features = ["sync", "time", "rt", "macros"] }
revm = { version = "=43.0.3", default-features = false, features = ["std"] }
rocksdb = { version = "=0.25.0", default-features = false }

[dev-dependencies]
rand = "0.9"
