[package]
name = "bone_api"
version = "0.1.0"
edition = "2021"
publish = false

[dependencies]
hex = "0.4"
openssl = "0.10"
serde_json = { version = "1", features = ["preserve_order"] }
rmp-serde = "1"
rmpv = { version = "1", features = ["with-serde"] }
network-interface = "*"
