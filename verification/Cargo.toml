[package]
name = "serde-llsd"
version = "0.4.0"
edition = "2021"
publish = false

[dependencies]
anyhow = "1"
ascii85 = "0.2"
base64 = "0.21"
chrono = { version = "0.4", default-features = false, features = ["std"] }
enum-as-inner = "0.6"
hex = "0.4"
quick-xml = "0.22"
urlencoding = "2"
uuid = "1"
