[package]
name = "docq"
version = "0.1.0"
edition = "2021"
publish = false

[dependencies]
serde_json = { version = "*", features = ["preserve_order"] }
serde = "*"
serde_yaml = "*"
clap = { version = "*", features = ["derive"] }
colored_json = "*"
csv = "*"
regex = "*"
anyhow = "*"
