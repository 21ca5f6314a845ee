[package]
name = "dbf_beam_simulator"
version = "0.1.0"
edition = "2021"
publish = false

[dependencies]
num = "0.4"
rustfft = "6"
rand = "0.8"
clap = "3"
serde = { version = "1", features = ["derive"] }
serde_yaml = "0.8"
