[package]
name = "anycli"
version = "0.1.0"
edition = "2021"
publish = false

[dependencies]
regex = "=1.13.1"
urlencoding = "=2.1.3"
serde = { version = "=1.0.229", features = ["derive"] }
serde_json = { version = "=1.0.154", features = ["float_roundtrip"] }
serde_yaml_ng = "=0.10.0"
indexmap = { version = "=2.14.2", features = ["serde"] }
reqwest = { version = "=0.12.28", default-features = false, features = ["json", "rustls-tls", "gzip", "brotli", "deflate"] }
tokio = { version = "=1.54.1", features = ["macros", "rt-multi-thread", "time", "process"] }
futures = "=0.3.34"
clap = { version = "=4.6.7", features = ["derive"] }
clap_complete = "=4.6.11"
dirs-next = "=2.0.0"
anyhow = "=1.0.104"
async-trait = "=0.1.92"
