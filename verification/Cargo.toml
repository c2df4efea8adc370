[package]
name = "torain"
version = "0.1.0"
edition = "2021"
publish = false

[dependencies]
tokio = { version = "*", features = ["net", "time", "sync", "rt", "rt-multi-thread", "macros", "io-util"] }
