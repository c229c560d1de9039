[package]
name = "bitmice"
version = "0.1.0"
edition = "2021"
publish = false

[dependencies]
flate2 = "*"
rand = "*"
tokio = { version = "*", features = ["rt-multi-thread", "net", "sync", "time", "io-util", "macros"] }
log = "*"
env_logger = "*"
