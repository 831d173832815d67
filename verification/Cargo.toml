[package]
name = "spacemesh"
version = "0.1.0"
edition = "2021"
publish = false

[dependencies]
blake3 = "=1.8.7"
serde = { version = "=1.0.229", features = ["derive"] }
serde_json = "=1.0.154"
bincode = "=1.3.3"
hmac = "=0.12.1"
sha2 = "=0.10.9"
uuid = { version = "=1.29.0", features = ["v4"] }
sled = "0.34"
