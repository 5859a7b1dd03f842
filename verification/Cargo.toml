[package]
name = "dirsum"
version = "0.1.0"
edition = "2021"
publish = false

[dependencies]
filesize = "*"
serde = { version = "1", features = ["derive"] }
serde_json = "1"
structopt = "*"
