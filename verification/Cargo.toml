[package]
name = "kar_reversi_minmax"
version = "0.1.0"
edition = "2021"
publish = false

[dependencies]
async-recursion = "1"
futures = "0.3"
strum = { version = "*", features = ["derive"] }
tabled = "*"
text_io = "*"
