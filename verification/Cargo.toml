[package]
name = "carbon"
version = "1.2.0"
edition = "2021"
publish = false

[dependencies]
clap = "2"
dotenv = "0.15"
key-list = "*"
paris = "1"
rand = "0.8"
serde = { version = "1", features = ["derive"] }
serde_json = "1"
serde_yaml = "0.9"
shellexpand = "*"
toml = "*"
