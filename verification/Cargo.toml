[package]
name = "cipher_identifier"
version = "0.1.0"
edition = "2021"
publish = false

[dependencies]
clap = { version = "*", features = ["derive"] }
colored = "*"
prettytable-rs = "*"
regex = "*"
serde = { version = "*", features = ["derive"] }
serde_json = "*"
