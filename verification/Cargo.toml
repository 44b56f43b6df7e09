[package]
name = "tinygpt-rs"
version = "0.1.0"
edition = "2021"
publish = false

[dependencies]
candle-core = "0.9"
candle-nn = "0.9"
rand = "0.9"
clap = { version = "4", features = ["derive"] }
anyhow = "1"
