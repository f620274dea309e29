[package]
name = "pdf_dump"
version = "0.1.0"
edition = "2021"
publish = false

[dependencies]
clap = { version = "4", features = ["derive"] }
flate2 = "1"
lopdf = "*"
regex = "1"
serde_json = "1"
weezl = "0.1"
