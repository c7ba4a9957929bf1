[package]
name = "burst-bfs"
version = "0.1.0"
edition = "2021"
publish = false

[dependencies]
bytes = "1"
rayon = "1"
rand = "0.10"
clap = { version = "4", features = ["derive"] }
crossbeam-channel = "0.5"
env_logger = "0.11"
libc = "0.2"
log = "0.4"
serde = { version = "1", features = ["derive"] }
serde_json = "1"
tokio = { version = "1", features = ["rt", "rt-multi-thread", "sync"] }
