[package]
name = "qshr"
version = "0.1.0"
edition = "2021"
publish = false

[dependencies]
glob = "0.3"
notify = "*"
tokio = { version = "1", features = ["rt", "rt-multi-thread", "sync", "macros"] }
tokio-stream = "0.1"

[dev-dependencies]
tempfile = "3"
