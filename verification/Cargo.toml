[package]
name = "vless_collector"
version = "0.1.0"
edition = "2021"
publish = false

[dependencies]
base64 = "0.21"
rayon = "1"
reqwest = "0.11"
tokio = { version = "1", features = ["full"] }
