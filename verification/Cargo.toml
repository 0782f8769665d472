[package]
name = "rust2seq"
version = "0.1.0"
edition = "2021"
publish = false

[dependencies]
cargo_metadata = "*"
clap = { version = "4", features = ["derive"] }
env_logger = "*"
serde = { version = "1", features = ["derive"] }
rustc_plugin = "*"
