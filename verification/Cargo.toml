[package]
name = "cargo_fixit"
version = "0.1.0"
edition = "2021"
publish = false

[dependencies]
rustfix = "=0.9.8"
serde = { version = "=1.0.229", features = ["derive"] }
serde_json = "=1.0.151"
clap = { version = "=4.6.7", features = ["derive"] }
cargo-util = "=0.2.14"

[dev-dependencies]
