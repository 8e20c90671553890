[package]
name = "appbase"
version = "0.1.0"
edition = "2021"
publish = false

[dependencies]
tokio = { version = "1", features = ["rt-multi-thread", "signal", "sync", "time", "macros"] }
serde_json = "1"
