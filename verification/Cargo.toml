[package]
name = "beacon"
version = "0.1.0"
edition = "2021"
publish = false

[dependencies]
aes = "0.8"
num-bigint = { version = "0.4", features = ["rand"] }
bincode = "1"
serde = { version = "1", features = ["derive"] }
merkle_light = "0.4"
log = "0.4"
rand = "0.8"
async-recursion = "1"
