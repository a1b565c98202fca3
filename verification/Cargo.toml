[package]
name = "txledger"
version = "0.1.0"
edition = "2021"
publish = false

[dependencies]
sled = "*"
csv = "*"
clap = { version = "*", features = ["derive"] }
chrono = "*"
crossbeam-channel = "*"
