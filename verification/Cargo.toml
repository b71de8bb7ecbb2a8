[package]
name = "kvs"
version = "0.1.0"
edition = "2021"
publish = false

[dependencies]
rmp-serde = "*"
serde = { version = "*", features = ["derive"] }
sled = "*"
