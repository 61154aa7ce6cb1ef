[package]
name = "feature_base"
version = "0.1.0"
edition = "2021"
publish = false

[dependencies]
bytes = "1"
string-builder = "*"
serde = { version = "1", features = ["derive"] }
serde_json = "1"
tokio = { version = "1", features = ["rt-multi-thread", "macros", "fs", "io-util", "sync", "time"] }
log = "0.4"
log4rs = "*"
