[package]
name = "sed-rs"
version = "1.0.0"
edition = "2021"
publish = false

[dependencies]
regex = "1"
clap = { version = "4", features = ["derive"] }
tempfile = "3"
thiserror = "2"
