[package]
name = "wolo"
version = "0.1.0"
edition = "2021"
publish = false

[dependencies]
twox-hash = "*"
tokio = { version = "*", features = ["rt-multi-thread", "net", "time", "sync", "macros"] }
libc = "*"
