[package]
name = "chudnovsky"
version = "0.1.0"
edition = "2021"
publish = false

[dependencies]
num-bigint = "=0.4.8"
num-traits = "=0.2.19"
tokio = { version = "=1.54.1", features = ["rt-multi-thread", "macros"] }
async-recursion = "=1.2.0"
