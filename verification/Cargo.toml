[package]
name = "dups"
version = "0.1.0"
edition = "2021"
publish = false

[dependencies]
anyhow = "1"
chrono = "0.4"
clap = { version = "4", features = ["derive"] }
csv = "1"
walkdir = "2"
xxhash-rust = { version = "0.8", features = ["xxh3"] }
