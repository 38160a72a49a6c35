[package]
name = "canvas-fuse"
version = "0.1.0"
edition = "2021"
publish = false

[dependencies]
anyhow = "1"
chrono = "=0.4.45"
clap = { version = "4", features = ["derive", "env"] }
ctrlc = { version = "3", features = ["termination"] }
dirs = "6"
env_logger = "0.11"
fuser = { version = "=0.15.1", default-features = false, features = ["abi-7-31"] }
libc = "=0.2.191"
log = "0.4"
parking_lot = "0.12"
redb = "=2.6.4"
reqwest = { version = "=0.12.28", default-features = false, features = ["blocking", "json", "rustls-tls"] }
rust_socketio = "=0.6.0"
serde = { version = "1", features = ["derive"] }
serde_json = { version = "=1.0.154", features = ["float_roundtrip"] }
