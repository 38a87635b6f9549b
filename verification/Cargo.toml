[package]
name = "silcut"
version = "0.1.0"
edition = "2021"

[dependencies]
regex = "1"
clap = { version = "4", features = ["derive"] }
