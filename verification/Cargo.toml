[package]
name = "chunkshare"
version = "0.1.0"
edition = "2021"
publish = false

[dependencies]
bincode = "=2.0.1"
clap = { version = "4", features = ["derive"] }
csv = "1"
linfa = "=0.7.1"
linfa-linear = "=0.7.1"
ndarray = "=0.15.6"
ndarray-csv = "=0.5.1"
serde = { version = "1", features = ["derive"] }
sha2 = "=0.11.1"
xxhash-rust = { version = "=0.8.19", features = ["xxh3"] }
