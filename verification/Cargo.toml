[package]
name = "bt_protocol"
version = "0.1.0"
edition = "2021"
publish = false

[dependencies]
hex = "0.4"
sha1 = "0.10"
reqwest = { version = "0.12", default-features = false, features = ["blocking"] }

[dev-dependencies]
serde_bencode = "0.2"
