[package]
name = "packvault"
version = "0.1.0"
edition = "2021"
publish = false

[dependencies]
blake3 = "1"
chacha20 = "0.9"
getrandom = "0.3"
zstd = "0.13"
slab = "0.4"
clap = { version = "4", features = ["derive"] }
env_logger = "0.11"
log = "0.4"
walkdir = "2"
uuid = { version = "1", features = ["v4"] }
hex = "0.4"
