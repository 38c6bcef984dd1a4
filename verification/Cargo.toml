[package]
name = "flowscript"
version = "0.1.0"
edition = "2021"
publish = false

[dependencies]
serde_json = "1"
clap = { version = "4", features = ["derive"] }
dashmap = "*"
lazy_static = "1"
num_cpus = "1"
regex = "1"
openai_api_rust = "*"
