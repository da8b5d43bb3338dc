[package]
name = "firmware_unpack"
version = "0.1.0"
edition = "2021"
publish = false

[dependencies]
serde_json = "1"
zip = { version = "*", default-features = false, features = ["deflate"] }
