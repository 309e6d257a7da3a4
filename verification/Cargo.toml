[package]
name = "poppy"
version = "0.1.0"
edition = "2021"
publish = false

[dependencies]
sqlformat = "*"
clap = { version = "*", features = ["derive"] }
