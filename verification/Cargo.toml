[package]
name = "bf_run"
version = "0.1.0"
edition = "2021"
publish = false

[dependencies]
memmap = "0.7.0"
clap = { version = "4", features = ["derive"] }
