[package]
name = "ld65"
version = "0.1.0"
edition = "2021"
publish = false

[dependencies]
xo65 = "*"
indexmap = "2"
anyhow = "1"
clap = { version = "4", features = ["derive"] }
winnow = "0.7"
