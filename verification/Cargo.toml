[package]
name = "stuckliste"
version = "0.1.0"
edition = "2021"
publish = false

[dependencies]
crc32fast = "*"
walkdir = "*"
normalize-path = "*"
clap = { version = "*", features = ["derive"] }
bitflags = "*"
chrono = "*"
