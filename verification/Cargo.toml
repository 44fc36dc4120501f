[package]
name = "warp-file-watcher"
version = "0.1.0"
edition = "2021"
publish = false

[dependencies]
anyhow = "1"
lru = "0.12"
notify = "6"
thiserror = "1"
tokio = { version = "1", features = ["rt-multi-thread", "macros", "sync", "time", "signal"] }
tracing = "0.1"
tracing-subscriber = { version = "0.3", features = ["env-filter"] }
