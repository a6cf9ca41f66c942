[package]
name = "bittorrent_core"
version = "0.1.0"
edition = "2021"
publish = false

[dependencies]
sha1 = "=0.10.7"
hex = "=0.4.3"
anyhow = "=1.0.104"
reqwest = { version = "=0.11.27", default-features = false, features = ["blocking"] }

[dev-dependencies]
serde_bencode = "0.2"
