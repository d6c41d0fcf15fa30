[package]
name = "rust_redis"
version = "0.1.0"
edition = "2021"
publish = false

[dependencies]
byteorder = "1"
clap = { version = "4", features = ["derive"] }
num-bigint = "0.4"
regex = "1"
time = "0.3"
tokio = { version = "1", features = ["full"] }
