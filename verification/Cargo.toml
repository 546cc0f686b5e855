[package]
name = "cat_library"
version = "0.1.0"
edition = "2021"
publish = false

[dependencies]
strsim = "0.11"
anyhow = "1"
tokio = { version = "1", features = ["full"] }
tracing = "0.1"
tracing-subscriber = "0.3"
