[package]
name = "beeline"
version = "0.1.0"
edition = "2021"
publish = false

[dependencies]
anyhow = "=1.0.104"
hmac = "=0.12.1"
sha2 = "=0.10.9"
jwt = "=0.16.0"
httlib-huffman = "=0.3.4"
httparse = "=1.10.1"
rand = "=0.8.8"
serde = { version = "=1.0.229", features = ["derive"] }
serde_yaml = "=0.9.34"
tokio = { version = "1", features = ["rt-multi-thread", "net", "io-util", "signal", "time", "macros"] }
futures = "0.3"
io-uring = "0.6"
slab = "0.4"
