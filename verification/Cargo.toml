[package]
name = "tokio_tar"
version = "0.6.0"
edition = "2021"
publish = false

[dependencies]
futures-core = "0.3"
portable-atomic = "1"
rustc-hash = "2"
thiserror = "2"
tokio = { version = "1", features = ["fs", "io-util", "rt", "sync", "macros"] }
tokio-stream = "0.1"
