[package]
name = "diffstory"
version = "0.1.0"
edition = "2021"
publish = false

[dependencies]
base64 = "*"
clap = { version = "*", features = ["derive"] }
comrak = "*"
flate2 = "*"
serde = { version = "*", features = ["derive"] }
serde_json = "*"
thiserror = "*"
