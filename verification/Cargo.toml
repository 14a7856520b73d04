[package]
name = "rpi_bls_sync"
version = "0.1.0"
edition = "2021"
publish = false

[dependencies]
rustix = { version = "1", features = ["mount", "fs"] }
