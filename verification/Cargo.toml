[package]
name = "ironcache"
version = "0.1.0"
edition = "2021"
publish = false

[dependencies]
anyhow = "1"
clap = { version = "4", features = ["derive"] }
libc = "0.2"
serde = { version = "1", features = ["derive"] }
thiserror = "2"
tikv-jemalloc-ctl = "0.6"
tikv-jemallocator = "0.6"
tokio = { version = "1", features = ["sync", "rt", "net", "io-util", "time", "macros"] }
toml = "0.8"
tracing = "0.1"
tracing-subscriber = "0.3"
