[package]
name = "reversi"
version = "0.1.0"
edition = "2021"
publish = false

[dependencies]
clap = { version = "=4.6.7", features = ["derive"] }
rand = "=0.8.8"

[dev-dependencies]
regex = "1"
