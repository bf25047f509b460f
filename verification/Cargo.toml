[package]
name = "nvidia_checker"
version = "0.1.0"
edition = "2021"
publish = false

[dependencies]
carrot_utils = "*"
chrono = "*"
clap = { version = "*", features = ["derive"] }
colored = "*"
dirs = "*"
log = "*"

[dev-dependencies]
toml = "*"
