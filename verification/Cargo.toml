[package]
name = "heladeria"
version = "0.1.0"
edition = "2021"
publish = false

[dependencies]
serde_yaml = "0.9"
actix = "0.13"
actix-rt = "2"
tokio = { version = "1", features = ["rt", "macros", "net", "io-util", "sync", "time"] }
