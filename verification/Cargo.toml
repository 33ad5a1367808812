[package]
name = "nfe"
version = "0.1.0"
edition = "2021"
publish = false

[dependencies]
anyhow = "1"
arc-swap = "1"
clarabel = "=0.11.1"
cmaes = "*"
libc = "0.2"
libsystemd = "0.7"
parking_lot = "0.12"
rayon = "1"
rppal = "0.22"
serde = { version = "1", features = ["derive"] }
serde_json = "1"
signal-hook-registry = "1"
tokio = { version = "1", features = ["rt", "macros", "signal", "sync", "time"] }
toml = "0.8"
tracing = "0.1"
tracing-journald = "0.3"
tracing-subscriber = { version = "0.3", features = ["env-filter"] }
