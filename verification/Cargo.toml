[package]
name = "lumin_cache"
version = "0.1.0"
edition = "2021"
publish = false

[dependencies]
urlencoding = "*"
tokio = { version = "*", features = ["rt-multi-thread", "macros", "time", "fs", "io-util", "sync"] }
reqwest = { version = "*", default-features = false, features = ["stream"] }
futures-util = "*"
libc = "*"
