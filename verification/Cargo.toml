[package]
name = "bigint_script"
version = "0.1.0"
edition = "2021"
publish = false

[dev-dependencies]
num-bigint = { version = "0.4", features = ["rand"] }
num-traits = "0.2"
rand = "0.8"
rand_chacha = "0.3"
