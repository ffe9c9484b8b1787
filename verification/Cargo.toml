[package]
name = "librtbit-tracker-comms"
version = "0.1.0"
edition = "2021"
publish = false

[dependencies]
anyhow = "1"
librqbit-dualstack-sockets = "*"
parking_lot = "0.12"
rand = "0.9"
serde = "1"
serde_derive = "1"
serde_with = "3"
tokio = { version = "1", features = ["net", "rt", "sync", "time", "macros"] }
tokio-util = "0.7"
tracing = "0.1"
urlencoding = "2"
