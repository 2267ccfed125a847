[package]
name = "line_dedup"
version = "0.1.0"
edition = "2021"
publish = false

[dependencies]
chardet = "*"
encoding_rs = "*"
clap = { version = "*", features = ["derive"] }
ignore = "*"
indicatif = "*"
