[package]
name = "pdf2ptext"
version = "0.1.0"
edition = "2021"
publish = false

[dependencies]
pdf = "*"
clap = { version = "*", features = ["derive"] }
