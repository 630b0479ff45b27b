[package]
name = "bifrox_server"
version = "0.1.0"
edition = "2021"
publish = false

[dependencies]
base64 = "=0.22.1"
bytes = "=1.12.1"
crc32fast = "=1.5.4"
dashmap = "=6.2.1"
parking_lot = "=0.12.5"
rcgen = "=0.13.2"
ring = "=0.17.14"
rustls = { version = "=0.23.46", features = ["ring"] }
rustls-pemfile = "=2.2.0"
socket2 = "=0.5.10"
tokio = { version = "=1.54.1", features = ["full"] }
tokio-rustls = "=0.26.6"
tracing = "=0.1.44"
