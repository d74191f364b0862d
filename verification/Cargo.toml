[package]
name = "zed_kotlin"
version = "0.1.0"
edition = "2021"
publish = false

[dependencies]
sha2 = "0.10"
serde_json = "1"
zip = { version = "2", default-features = false, features = ["deflate"] }
zed_extension_api = "0.7"
