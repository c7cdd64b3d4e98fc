[package]
name = "raknet"
version = "0.1.0"
edition = "2021"
publish = false

[dependencies]
lru = "*"
bytes = "*"
tokio = { version = "*", features = ["net", "time", "rt", "sync", "macros"] }
