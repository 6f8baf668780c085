[package]
name = "ping_counter"
version = "0.1.0"
edition = "2021"
publish = false

[dependencies]
async-std = { version = "1", features = ["attributes"] }
asynchronous-codec = "0.7"
futures = "0.3"
