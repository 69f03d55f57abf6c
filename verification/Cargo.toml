[package]
name = "oram"
version = "0.1.0"
edition = "2021"
publish = false

[dependencies]
bincode = "1.3"
blake2 = "0.8"
hex = "0.4"
log = "0.4"
rand = "0.7"
rand_core = "0.5"
rusty-leveldb = "*"
serde = { version = "1", features = ["derive"] }
