[package]
name = "subtensor_coinbase"
version = "0.1.0"
edition = "2021"
publish = false

[dependencies]
substrate-fixed = "*"
parity-scale-codec = { version = "3", features = ["derive"] }
scale-info = { version = "2", features = ["derive"] }
serde = { version = "1", features = ["derive"] }
log = "0.4"
