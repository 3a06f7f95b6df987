[package]
name = "shardbox"
version = "0.1.0"
edition = "2021"
publish = false

[dependencies]
reed-solomon-erasure = "6"
age = { version = "0.11", features = ["cli-common"] }
anyhow = "1"
clap = { version = "4", features = ["derive"] }
env_logger = "0.11"
log = "0.4"
tar = "0.4"
zstd = "0.13"
