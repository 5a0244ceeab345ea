[package]
name = "fibonacci-rust"
version = "0.1.0"
edition = "2021"
publish = false

[dependencies]
anyhow = "1"
clap = { version = "4", features = ["derive"] }
mimalloc = "0.1"
rayon = "1"
thiserror = "1"

[dev-dependencies]
num-bigint = "0.4"
