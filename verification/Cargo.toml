[package]
name = "payments_engine"
version = "0.1.0"
edition = "2021"
publish = false

[dependencies]
csv = "*"
serde = { version = "*", features = ["derive"] }
rust_decimal = "*"
thiserror = "*"
clap = { version = "*", features = ["derive"] }
color-eyre = "*"
tracing = "*"
tracing-subscriber = "*"
