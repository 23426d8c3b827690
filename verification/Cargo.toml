[package]
name = "trace_decoder"
version = "0.1.0"
edition = "2021"
publish = false

[dependencies]
anyhow = "1"
bit-vec = "*"
bus = "*"
clap = { version = "4", features = ["derive"] }
env_logger = "*"
log = "0.4"
object = "*"
rvdasm = "*"
