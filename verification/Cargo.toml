[package]
name = "fixed32"
version = "0.1.0"
edition = "2021"
publish = false

[dependencies]
tfhe = { version = "=0.6.4", features = ["integer", "x86_64-unix"] }
