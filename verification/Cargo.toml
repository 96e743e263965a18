[package]
name = "btf2json"
version = "0.1.0"
edition = "2021"
publish = false

[dependencies]
regex = "1"
memchr = "2"
memmap2 = "0.9"
clap = { version = "4", features = ["derive"] }
env_logger = "0.11"
log = "0.4"
anyhow = "1"
