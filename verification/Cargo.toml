[package]
name = "mecrab_builder"
version = "0.1.0"
edition = "2021"
publish = false

[dependencies]
byteorder = "=1.5.0"
encoding_rs = "=0.8.44"
clap = { version = "=4.6.7", features = ["derive"] }
dirs = "=7.0.0"
csv = "1"
serde = { version = "1", features = ["derive"] }
serde_json = "1"
flate2 = "1"
