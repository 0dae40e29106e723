[package]
name = "kvs"
version = "0.1.0"
edition = "2021"
publish = false

[dependencies]
clap = { version = "*", features = ["derive"] }
crossbeam-channel = "*"
env_logger = "*"
log = "*"
num_cpus = "*"

[dev-dependencies]
serde_json = "*"
