[package]
name = "dyard"
version = "0.1.0"
edition = "2021"
publish = false

[dependencies]
serde_yaml = "=0.9.34"
clap = { version = "=4.6.7", features = ["derive"] }
