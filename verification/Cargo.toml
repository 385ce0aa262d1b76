[package]
name = "dirgrep"
version = "0.1.0"
edition = "2021"
publish = false

[dependencies]
colored = "2"
tokio = { version = "1", features = ["fs", "io-util", "macros", "rt-multi-thread", "sync"] }
