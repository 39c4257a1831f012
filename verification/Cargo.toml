[package]
name = "ghosttify"
version = "0.1.0"
edition = "2021"
publish = false

[dependencies]
clap = { version = "4", features = ["derive"] }
colored = "*"
dirs = "*"
rust-ini = "*"
serde_json = "1"

[dev-dependencies]
regex = "1"
