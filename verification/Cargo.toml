[package]
name = "qcl"
version = "0.1.0"
edition = "2021"
publish = false

[dependencies]
anyhow = "*"
clap = { version = "*", features = ["derive"] }
dialoguer = "*"
dirs = "*"
serde = { version = "*", features = ["derive"] }
serde_yaml = "*"
tracing = "*"
tracing-appender = "*"
tracing-subscriber = "*"
