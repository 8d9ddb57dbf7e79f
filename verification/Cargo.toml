[package]
name = "dearlystars"
version = "0.5.0"
edition = "2021"
publish = false

[dependencies]
aes = "*"
encoding_rs = "*"
png = "*"
clap = { version = "*", features = ["derive"] }
