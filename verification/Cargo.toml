[package]
name = "holepunch"
version = "0.1.0"
edition = "2021"
publish = false

[dependencies]
anyhow = "1"
clap = { version = "4", features = ["derive"] }
reqwest = { version = "0.12", default-features = false }
tokio = { version = "1", features = ["rt", "macros", "io-std", "io-util", "net", "time"] }
tracing = "0.1"
tracing-subscriber = "0.3"
