[package]
name = "marquee"
version = "0.1.0"
edition = "2021"
publish = false

[dependencies]
unicode-width = "*"
crossterm = "*"
anyhow = "*"
clap = { version = "*", features = ["derive"] }
