[package]
name = "meilidb"
version = "0.1.0"
edition = "2021"
publish = false

[dependencies]
bincode = "1.3.3"
linked-hash-map = { version = "0.5.6", features = ["serde_impl"] }
rocksdb = { version = "*", default-features = false }
serde = "1"
serde_derive = "1"
