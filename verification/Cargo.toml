[package]
name = "edifact_rs"
version = "0.1.0"
edition = "2021"
publish = false

[dependencies]
smallvec = "=1.16.4"
serde = { version = "=1.0.229", features = ["derive"] }
thiserror = "=2.0.21"
miette = "=7.6.0"
