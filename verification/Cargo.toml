[package]
name = "libyuyan"
version = "0.1.0"
edition = "2021"
publish = false

[dependencies]
sha1 = "0.10"
bit-vec = "0.6"
rand = "0.8"
anyhow = "1"
pretty = "0.12"
clap = { version = "4", features = ["derive"] }
tokio = { version = "1", features = ["full"] }
reqwest = { version = "0.12", default-features = false }
futures = "0.3"
tracing = "0.1"
tracing-subscriber = "0.3"
