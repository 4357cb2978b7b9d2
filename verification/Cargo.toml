[package]
name = "ferrum-match"
version = "0.1.0"
edition = "2021"
publish = false

[dependencies]
clap = { version = "4", features = ["derive"] }
rustyline = "*"
tracing = "0.1"
