[package]
name = "accum-node"
version = "0.1.0"
edition = "2021"
publish = false

[dependencies]
argon2 = "0.5"
sha2 = "0.10"
ripemd = "0.1"
serde = { version = "1", features = ["derive"] }
bincode = "1"
hex = "0.4"
thiserror = "1"
futures = "0.3"
tokio = { version = "1", features = ["macros", "rt-multi-thread", "sync", "signal", "time"] }
libp2p = { version = "0.53", features = ["gossipsub", "kad", "noise", "tcp", "tokio", "yamux", "macros"] }
rocksdb = { version = "0.21", default-features = false }
