[package]
name = "openjd"
version = "0.1.0"
edition = "2021"
publish = false

[dependencies]
futures-util = "=0.3.34"
getrandom = "=0.3.4"
log = "=0.4.35"
nix = { version = "=0.30.1", features = ["fs", "process"] }
rand = { version = "=0.8.8", features = ["small_rng"] }
ruff_python_ast = "=0.0.9"
serde = { version = "=1.0.229", features = ["derive"] }
serde_json = "=1.0.154"
tokio = { version = "=1.54.1", features = ["rt-multi-thread", "macros", "sync", "time"] }
tokio-util = "=0.7.20"
xxhash-rust = { version = "=0.8.19", features = ["xxh3"] }
