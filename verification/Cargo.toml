[package]
name = "payments_engine"
version = "0.1.0"
edition = "2021"
publish = false

[dependencies]
anyhow = "1"
csv = "1"
rust_decimal = { version = "1", default-features = false, features = ["std"] }
thiserror = "1"
