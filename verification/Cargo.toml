[package]
name = "fuzz"
version = "0.1.0"
edition = "2021"
publish = false

[dependencies]
anyhow = "*"
ariadne = "*"
clap = { version = "*", features = ["derive"] }
walkdir = "*"
