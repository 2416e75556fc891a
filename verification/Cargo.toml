[package]
name = "transport_io"
version = "0.1.0"
edition = "2021"
publish = false

[dependencies]
wtransport = "*"
tokio = { version = "1", features = ["rt", "rt-multi-thread", "macros"] }
thiserror = "*"
