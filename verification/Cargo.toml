[package]
name = "foyer"
version = "0.1.0"
edition = "2021"
publish = false

[dependencies]
crc32fast = "1"
prometheus = "0.13"
tokio = { version = "1", features = ["rt", "sync", "time", "macros"] }
