[package]
name = "merkle_engine"
version = "0.1.0"
edition = "2021"
publish = false

[dependencies]
num-bigint = "0.4"
num-traits = "0.2"
serde = { version = "1", features = ["derive"] }
ark-serialize = { version = "0.4", features = ["derive"] }
ark-std = "0.4"
