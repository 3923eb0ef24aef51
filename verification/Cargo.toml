[package]
name = "dirstats"
version = "0.1.0"
edition = "2021"
publish = false

[dependencies]
foldhash = "*"
clap = { version = "4", features = ["derive"] }
