[package]
name = "ttycast"
version = "0.2.0"
edition = "2021"
publish = false

[dependencies]
clap = { version = "4", features = ["derive"] }
fontdue = "*"
libc = "0.2"
mozjpeg = "*"
png = "*"
