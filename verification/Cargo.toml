[package]
name = "fast_clipboard"
version = "0.1.0"
edition = "2021"
publish = false

[dependencies]
chacha20poly1305 = "0.10"
chrono = "0.4"
tokio = { version = "1", features = ["sync", "rt-multi-thread", "macros", "time"] }
serde = { version = "1", features = ["derive"] }
serde_json = "1"
log = "0.4"
env_logger = "*"
home = "0.5"
anyhow = "1"
jsonrpsee = { version = "*", features = ["server"] }
wl-clipboard-rs = "*"
