[package]
name = "gramoxide"
version = "0.1.0"
edition = "2021"
publish = false

[dependencies]
rayon = "1"
tokio = { version = "1", features = ["rt-multi-thread", "macros", "fs", "io-util", "time"] }
tokio-stream = "0.1"
reqwest = { version = "0.11", default-features = false, features = ["rustls-tls"] }
bytes = "1"
flate2 = "1"
toml = "0.5"
serde = { version = "1", features = ["derive"] }
thiserror = "1"
