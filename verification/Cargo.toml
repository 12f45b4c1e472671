[package]
name = "zhtw_scan"
version = "0.1.0"
edition = "2021"
publish = false

[dependencies]
aho-corasick = "1"
daachorse = "*"
rustc-hash = "2"
serde = { version = "1", features = ["derive"] }
serde_json = "1"
